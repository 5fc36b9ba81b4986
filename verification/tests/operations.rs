use storage_generics::changeset::Changeset;
use storage_generics::errors::DatabaseError;
use storage_generics::metrics::{track_database_call, DatabaseOperation, Metrics};
use storage_generics::model::{Connection, Row};
use storage_generics::ops::{
    generic_delete, generic_delete_one_with_result, generic_find_by_id,
    generic_find_by_id_optional, generic_find_one, generic_find_one_optional, generic_insert,
    generic_update, generic_update_by_id, generic_update_with_results,
    generic_update_with_unique_predicate_get_result, to_optional,
};
use storage_generics::predicate::Predicate;

fn conn() -> Connection {
    Connection::new("users".to_string())
}

fn row(id: Option<i64>, fields: Vec<i64>) -> Row {
    Row { id, fields }
}

fn seeded() -> Connection {
    let mut c = conn();
    generic_insert(&mut c, row(Some(1), vec![10, 100])).unwrap();
    generic_insert(&mut c, row(Some(2), vec![20, 100])).unwrap();
    generic_insert(&mut c, row(Some(3), vec![30, 200])).unwrap();
    c
}

fn set_first_column(value: i64) -> Changeset {
    let mut cs = Changeset::empty();
    cs.set_column(0, value);
    cs
}

#[test]
fn insert_returns_inserted_row() {
    let mut c = conn();
    let inserted = generic_insert(&mut c, row(Some(1), vec![10, 20])).unwrap();
    assert_eq!(inserted.id, Some(1));
    assert_eq!(inserted.fields, vec![10, 20]);
}

#[test]
fn insert_duplicate_key_is_unique_violation() {
    let mut c = conn();
    generic_insert(&mut c, row(Some(5), vec![1])).unwrap();
    let err = generic_insert(&mut c, row(Some(5), vec![2])).unwrap_err();
    assert_eq!(err.kind, DatabaseError::UniqueViolation);
    let still_there = generic_find_by_id(&mut c, 5).unwrap();
    assert_eq!(still_there.fields, vec![1]);
}

#[test]
fn insert_null_key_conflicts_with_nothing() {
    let mut c = conn();
    assert!(generic_insert(&mut c, row(None, vec![1])).is_ok());
    assert!(generic_insert(&mut c, row(None, vec![2])).is_ok());
}

#[test]
fn update_count_zero_matches_is_success() {
    let mut c = seeded();
    let n = generic_update(&mut c, Predicate::FieldEq(0, 999), set_first_column(7)).unwrap();
    assert_eq!(n, 0);
}

#[test]
fn update_count_applies_changeset() {
    let mut c = seeded();
    let n = generic_update(&mut c, Predicate::FieldEq(1, 100), set_first_column(77)).unwrap();
    assert_eq!(n, 2);
    assert_eq!(generic_find_by_id(&mut c, 1).unwrap().fields, vec![77, 100]);
    assert_eq!(generic_find_by_id(&mut c, 2).unwrap().fields, vec![77, 100]);
    assert_eq!(generic_find_by_id(&mut c, 3).unwrap().fields, vec![30, 200]);
}

#[test]
fn update_count_empty_changeset_is_others() {
    let mut c = seeded();
    let err = generic_update(&mut c, Predicate::All, Changeset::empty()).unwrap_err();
    assert_eq!(err.kind, DatabaseError::Others);
}

#[test]
fn update_with_results_zero_matches_not_found() {
    let mut c = seeded();
    let err = generic_update_with_results(&mut c, Predicate::IdEq(42), set_first_column(7))
        .unwrap_err();
    assert_eq!(err.kind, DatabaseError::NotFound);
}

#[test]
fn update_with_results_empty_changeset_no_fields() {
    let mut c = seeded();
    let err = generic_update_with_results(&mut c, Predicate::All, Changeset::empty()).unwrap_err();
    assert_eq!(err.kind, DatabaseError::NoFieldsToUpdate);
}

#[test]
fn update_with_results_returns_updated_rows() {
    let mut c = seeded();
    let rows = generic_update_with_results(&mut c, Predicate::FieldEq(1, 100), set_first_column(9))
        .unwrap();
    assert_eq!(rows.len(), 2);
    assert_eq!(rows[0].id, Some(1));
    assert_eq!(rows[0].fields, vec![9, 100]);
    assert_eq!(rows[1].id, Some(2));
    assert_eq!(rows[1].fields, vec![9, 100]);
}

#[test]
fn update_unique_empty_changeset_no_fields() {
    let mut c = seeded();
    let err = generic_update_with_unique_predicate_get_result(
        &mut c,
        Predicate::All,
        Changeset::empty(),
    )
    .unwrap_err();
    assert_eq!(err.kind, DatabaseError::NoFieldsToUpdate);
}

#[test]
fn update_unique_multiple_matches_others_with_message() {
    let mut c = seeded();
    let err = generic_update_with_unique_predicate_get_result(
        &mut c,
        Predicate::FieldEq(1, 100),
        set_first_column(9),
    )
    .unwrap_err();
    assert_eq!(err.kind, DatabaseError::Others);
    assert_eq!(err.message, "Maybe not queried using a unique key");
}

#[test]
fn update_unique_single_match_returns_row() {
    let mut c = seeded();
    let updated = generic_update_with_unique_predicate_get_result(
        &mut c,
        Predicate::IdEq(3),
        set_first_column(5),
    )
    .unwrap();
    assert_eq!(updated.id, Some(3));
    assert_eq!(updated.fields, vec![5, 200]);
}

#[test]
fn update_unique_no_match_not_found() {
    let mut c = seeded();
    let err = generic_update_with_unique_predicate_get_result(
        &mut c,
        Predicate::IdEq(42),
        set_first_column(5),
    )
    .unwrap_err();
    assert_eq!(err.kind, DatabaseError::NotFound);
}

#[test]
fn update_by_id_empty_changeset_no_fields() {
    let mut c = seeded();
    let err = generic_update_by_id(&mut c, 1, Changeset::empty()).unwrap_err();
    assert_eq!(err.kind, DatabaseError::NoFieldsToUpdate);
}

#[test]
fn update_by_id_missing_not_found() {
    let mut c = seeded();
    let err = generic_update_by_id(&mut c, 42, set_first_column(5)).unwrap_err();
    assert_eq!(err.kind, DatabaseError::NotFound);
}

#[test]
fn update_by_id_updates_row() {
    let mut c = seeded();
    let updated = generic_update_by_id(&mut c, 2, set_first_column(55)).unwrap();
    assert_eq!(updated.id, Some(2));
    assert_eq!(updated.fields, vec![55, 100]);
    assert_eq!(generic_find_by_id(&mut c, 2).unwrap().fields, vec![55, 100]);
}

#[test]
fn delete_zero_matches_not_found() {
    let mut c = seeded();
    let err = generic_delete(&mut c, Predicate::IdEq(42)).unwrap_err();
    assert_eq!(err.kind, DatabaseError::NotFound);
}

#[test]
fn delete_removes_and_find_not_found() {
    let mut c = seeded();
    let deleted = generic_delete(&mut c, Predicate::FieldEq(1, 100)).unwrap();
    assert!(deleted);
    assert_eq!(
        generic_find_by_id(&mut c, 1).unwrap_err().kind,
        DatabaseError::NotFound
    );
    assert_eq!(
        generic_find_by_id(&mut c, 2).unwrap_err().kind,
        DatabaseError::NotFound
    );
    assert_eq!(generic_find_by_id(&mut c, 3).unwrap().fields, vec![30, 200]);
}

#[test]
fn delete_one_with_result_returns_first() {
    let mut c = seeded();
    let removed = generic_delete_one_with_result(&mut c, Predicate::FieldEq(1, 100)).unwrap();
    assert_eq!(removed.id, Some(1));
    assert_eq!(removed.fields, vec![10, 100]);
    assert_eq!(
        generic_find_by_id(&mut c, 2).unwrap_err().kind,
        DatabaseError::NotFound
    );
}

#[test]
fn delete_one_with_result_empty_not_found() {
    let mut c = seeded();
    let err = generic_delete_one_with_result(&mut c, Predicate::IdEq(42)).unwrap_err();
    assert_eq!(err.kind, DatabaseError::NotFound);
}

#[test]
fn find_by_id_missing_not_found_and_optional_none() {
    let mut c = seeded();
    let err = generic_find_by_id(&mut c, 42).unwrap_err();
    assert_eq!(err.kind, DatabaseError::NotFound);
    let absent = generic_find_by_id_optional(&mut c, 42).unwrap();
    assert!(absent.is_none());
}

#[test]
fn insert_then_find_round_trip() {
    let mut c = conn();
    generic_insert(&mut c, row(Some(7), vec![70, 700])).unwrap();
    let found = generic_find_by_id(&mut c, 7).unwrap();
    assert_eq!(found.id, Some(7));
    assert_eq!(found.fields, vec![70, 700]);
}

#[test]
fn optional_find_twice_is_idempotent() {
    let mut c = seeded();
    let first_seen = generic_find_by_id_optional(&mut c, 2).unwrap();
    let second_seen = generic_find_by_id_optional(&mut c, 2).unwrap();
    assert_eq!(first_seen.as_ref().map(|r| r.id), second_seen.as_ref().map(|r| r.id));
    assert_eq!(
        first_seen.map(|r| r.fields),
        second_seen.map(|r| r.fields)
    );
    let first_absent = generic_find_by_id_optional(&mut c, 42).unwrap();
    let second_absent = generic_find_by_id_optional(&mut c, 42).unwrap();
    assert!(first_absent.is_none() && second_absent.is_none());
}

#[test]
fn find_one_returns_first_match() {
    let mut c = seeded();
    let found = generic_find_one(&mut c, Predicate::FieldEq(1, 100)).unwrap();
    assert_eq!(found.id, Some(1));
    let err = generic_find_one(&mut c, Predicate::FieldEq(0, 999)).unwrap_err();
    assert_eq!(err.kind, DatabaseError::NotFound);
}

#[test]
fn find_one_optional_absent_is_none() {
    let mut c = seeded();
    let absent = generic_find_one_optional(&mut c, Predicate::FieldEq(0, 999)).unwrap();
    assert!(absent.is_none());
    let present = generic_find_one_optional(&mut c, Predicate::IdEq(3)).unwrap();
    assert_eq!(present.unwrap().fields, vec![30, 200]);
}

#[test]
fn composed_predicates_evaluate() {
    let mut c = seeded();
    let p = Predicate::And(
        Box::new(Predicate::FieldEq(1, 100)),
        Box::new(Predicate::Not(Box::new(Predicate::IdEq(1)))),
    );
    let found = generic_find_one(&mut c, p).unwrap();
    assert_eq!(found.id, Some(2));
    let q = Predicate::Or(
        Box::new(Predicate::IdEq(3)),
        Box::new(Predicate::FieldLt(0, 15)),
    );
    let rows = generic_update_with_results(&mut c, q, set_first_column(0)).unwrap();
    assert_eq!(rows.len(), 2);
}

#[test]
fn to_optional_normalizes_not_found_only() {
    let ok: Result<i64, _> = to_optional(Ok::<i64, storage_generics::errors::StorageError>(4))
        .map(|o| o.unwrap());
    assert_eq!(ok.unwrap(), 4);
    let not_found = storage_generics::errors::StorageError::new(DatabaseError::NotFound, "gone");
    let normalized = to_optional(Err::<i64, _>(not_found)).unwrap();
    assert!(normalized.is_none());
    for kind in [
        DatabaseError::UniqueViolation,
        DatabaseError::NoFieldsToUpdate,
        DatabaseError::Others,
    ] {
        let err = storage_generics::errors::StorageError::new(kind, "kept");
        let passed = to_optional(Err::<i64, _>(err)).unwrap_err();
        assert_eq!(passed.kind, kind);
        assert_eq!(passed.message, "kept");
    }
}

#[test]
fn metrics_count_every_operation() {
    let mut c = seeded();
    let insert_slot = DatabaseOperation::Insert.index();
    assert_eq!(c.metrics.counts[insert_slot], 3);
    let find_slot = DatabaseOperation::FindOne.index();
    assert_eq!(c.metrics.counts[find_slot], 0);
    let _ = generic_find_by_id(&mut c, 1);
    let _ = generic_find_by_id(&mut c, 42);
    assert_eq!(c.metrics.counts[find_slot], 2);
    let delete_slot = DatabaseOperation::Delete.index();
    let _ = generic_delete(&mut c, Predicate::IdEq(1));
    assert_eq!(c.metrics.counts[delete_slot], 1);
}

#[test]
fn track_database_call_passes_output_through() {
    let mut m = Metrics::new();
    let out = track_database_call(&mut m, DatabaseOperation::Count, 125, "unchanged");
    assert_eq!(out, "unchanged");
    let slot = DatabaseOperation::Count.index();
    assert_eq!(m.counts[slot], 1);
    assert_eq!(m.time_nanos[slot], 125);
    let out2 = track_database_call(&mut m, DatabaseOperation::Count, 75, 9u8);
    assert_eq!(out2, 9u8);
    assert_eq!(m.counts[slot], 2);
    assert_eq!(m.time_nanos[slot], 200);
}

#[test]
fn operation_labels_are_stable() {
    assert_eq!(DatabaseOperation::FindOne.label(), "FindOne");
    assert_eq!(DatabaseOperation::Filter.label(), "Filter");
    assert_eq!(DatabaseOperation::Update.label(), "Update");
    assert_eq!(DatabaseOperation::Insert.label(), "Insert");
    assert_eq!(DatabaseOperation::Delete.label(), "Delete");
    assert_eq!(DatabaseOperation::DeleteWithResult.label(), "DeleteWithResult");
    assert_eq!(DatabaseOperation::UpdateWithResults.label(), "UpdateWithResults");
    assert_eq!(DatabaseOperation::UpdateOne.label(), "UpdateOne");
    assert_eq!(DatabaseOperation::Count.label(), "Count");
}
