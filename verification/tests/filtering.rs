use storage_generics::errors::DatabaseError;
use storage_generics::filter::{generic_filter, SortOrder};
use storage_generics::model::{Connection, Row};
use storage_generics::ops::generic_insert;
use storage_generics::predicate::Predicate;

fn seeded_with_nulls() -> Connection {
    let mut c = Connection::new("payments".to_string());
    generic_insert(&mut c, Row { id: Some(4), fields: vec![40] }).unwrap();
    generic_insert(&mut c, Row { id: Some(2), fields: vec![20] }).unwrap();
    generic_insert(&mut c, Row { id: None, fields: vec![999] }).unwrap();
    generic_insert(&mut c, Row { id: Some(1), fields: vec![10] }).unwrap();
    generic_insert(&mut c, Row { id: Some(3), fields: vec![30] }).unwrap();
    c
}

#[test]
fn filter_excludes_null_primary_keys() {
    let mut c = seeded_with_nulls();
    let rows = generic_filter(&mut c, Predicate::All, None, None, None).unwrap();
    assert_eq!(rows.len(), 4);
    assert!(rows.iter().all(|r| r.id.is_some()));
    let by_value = generic_filter(&mut c, Predicate::FieldEq(0, 999), None, None, None).unwrap();
    assert!(by_value.is_empty());
}

#[test]
fn filter_empty_result_is_success() {
    let mut c = Connection::new("empty".to_string());
    let rows = generic_filter(&mut c, Predicate::All, Some(10), Some(0), None).unwrap();
    assert!(rows.is_empty());
}

#[test]
fn filter_limit_offset_order_page() {
    let mut c = seeded_with_nulls();
    let rows = generic_filter(
        &mut c,
        Predicate::All,
        Some(2),
        Some(1),
        Some(SortOrder::IdAscending),
    )
    .unwrap();
    assert_eq!(rows.len(), 2);
    assert_eq!(rows[0].id, Some(2));
    assert_eq!(rows[1].id, Some(3));
}

#[test]
fn filter_orders_descending() {
    let mut c = seeded_with_nulls();
    let rows = generic_filter(&mut c, Predicate::All, None, None, Some(SortOrder::IdDescending))
        .unwrap();
    let ids: Vec<Option<i64>> = rows.iter().map(|r| r.id).collect();
    assert_eq!(ids, vec![Some(4), Some(3), Some(2), Some(1)]);
}

#[test]
fn filter_orders_by_column() {
    let mut c = Connection::new("totals".to_string());
    generic_insert(&mut c, Row { id: Some(1), fields: vec![30] }).unwrap();
    generic_insert(&mut c, Row { id: Some(2), fields: vec![10] }).unwrap();
    generic_insert(&mut c, Row { id: Some(3), fields: vec![20] }).unwrap();
    let rows = generic_filter(
        &mut c,
        Predicate::All,
        None,
        None,
        Some(SortOrder::FieldAscending(0)),
    )
    .unwrap();
    let ids: Vec<Option<i64>> = rows.iter().map(|r| r.id).collect();
    assert_eq!(ids, vec![Some(2), Some(3), Some(1)]);
}

#[test]
fn filter_without_order_keeps_table_order() {
    let mut c = seeded_with_nulls();
    let rows = generic_filter(&mut c, Predicate::All, Some(2), Some(1), None).unwrap();
    let ids: Vec<Option<i64>> = rows.iter().map(|r| r.id).collect();
    assert_eq!(ids, vec![Some(2), Some(1)]);
}

#[test]
fn filter_offset_past_end_is_empty() {
    let mut c = seeded_with_nulls();
    let rows = generic_filter(&mut c, Predicate::All, None, Some(100), None).unwrap();
    assert!(rows.is_empty());
}

#[test]
fn filter_negative_limit_is_others() {
    let mut c = seeded_with_nulls();
    let err = generic_filter(&mut c, Predicate::All, Some(-1), None, None).unwrap_err();
    assert_eq!(err.kind, DatabaseError::Others);
    let err2 = generic_filter(&mut c, Predicate::All, None, Some(-3), None).unwrap_err();
    assert_eq!(err2.kind, DatabaseError::Others);
}
