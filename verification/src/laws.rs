//! Laws that relate the operations to one another, stated and proved over
//! the same spec functions the operations' contracts use.

use vstd::prelude::*;

use crate::filter::{
    filter_result, guarded_rows, lemma_guarded_sub, lemma_ordered_ids, lemma_sort_ordered,
    ordered_rows, ordered_run, pagination_valid, precedes, sort_rows, SortOrder,
};
use crate::model::{contains_id, table_wf, RowM};
use crate::ops::{
    find_by_id_spec, insert_conflicts, lemma_find_by_id_at, lemma_find_by_id_none_iff,
    lemma_remaining_sub, remaining_rows,
};
use crate::predicate::Predicate;

verus! {

/// Law: once a row with a primary key stands in the table, inserting any
/// further row carrying the same key is a unique-constraint conflict: of
/// two inserts carrying one key, the first succeeds and the second is
/// refused as `UniqueViolation` by the insert operation's contract.
pub proof fn lemma_insert_then_conflict(t: Seq<RowM>, first_row: RowM, second_row: RowM)
    requires
        first_row.id is Some,
        second_row.id == first_row.id,
    ensures
        insert_conflicts(t.push(first_row), second_row),
{
    let t1 = t.push(first_row);
    assert(t1[t.len() as int].id == Some(first_row.id.unwrap()));
}

/// Law: inserting a row with a fresh primary key and then finding by that
/// key returns exactly the inserted row.
pub proof fn lemma_insert_find_round_trip(t: Seq<RowM>, r: RowM, v: i64)
    requires
        r.id == Some(v),
        !contains_id(t, v),
    ensures
        find_by_id_spec(t.push(r), v) == Some(r),
{
    let t1 = t.push(r);
    assert forall|j: int| 0 <= j < t.len() implies (#[trigger] t1[j]).id != Some(v) by {
        assert(t1[j] == t[j]);
        if t[j].id == Some(v) {
            assert(contains_id(t, v)) by {
                assert(t[j].id == Some(v));
            }
        }
    }
    lemma_find_by_id_at(t1, v, t.len() as int);
}

/// Law: a delete removes every row its predicate matches: afterwards a find
/// by the key of any matched row is `NotFound`.
pub proof fn lemma_delete_then_find_absent(t: Seq<RowM>, p: Predicate, k: int)
    requires
        table_wf(t),
        0 <= k < t.len(),
        t[k].id is Some,
        p.accepts(t[k]),
    ensures
        find_by_id_spec(remaining_rows(t, p), t[k].id.unwrap()) is None,
{
    let v = t[k].id.unwrap();
    let rem = remaining_rows(t, p);
    lemma_remaining_sub(t, p);
    lemma_find_by_id_none_iff(rem, v);
    if contains_id(rem, v) {
        let j = choose|j: int| 0 <= j < rem.len() && (#[trigger] rem[j]).id == Some(v);
        assert(t.contains(rem[j]));
        let m = choose|m: int| 0 <= m < t.len() && t[m] == rem[j];
        if m != k {
            assert(t[m].id != t[k].id);
        }
        assert(false);
    }
}

/// Law: the optional find is idempotent: what two finds by one key on one
/// unmodified table yield is one and the same outcome, the find operations
/// leaving the table as it stands.
pub proof fn lemma_optional_find_idempotent(
    t: Seq<RowM>,
    id: i64,
    first_outcome: Option<RowM>,
    second_outcome: Option<RowM>,
)
    requires
        first_outcome == find_by_id_spec(t, id),
        second_outcome == find_by_id_spec(t, id),
    ensures
        first_outcome == second_outcome,
{
}

/// Law: no row of a filter's result carries a null primary key, whatever
/// the caller's predicate, limit, offset and order ask for.
pub proof fn lemma_filter_excludes_null_keys(
    t: Seq<RowM>,
    p: Predicate,
    limit: Option<i64>,
    offset: Option<i64>,
    order: Option<SortOrder>,
)
    requires
        pagination_valid(limit, offset),
    ensures
        forall|k: int|
            0 <= k < filter_result(t, p, limit, offset, order).len() ==> (#[trigger] filter_result(
                t,
                p,
                limit,
                offset,
                order,
            )[k]).id is Some,
{
    let g = guarded_rows(t, p);
    let s = ordered_rows(order, g);
    let pg = filter_result(t, p, limit, offset, order);
    lemma_guarded_sub(t, p);
    lemma_ordered_ids(order, g);
    let start: int = match offset {
        Some(off) => if off <= s.len() {
            off as int
        } else {
            s.len() as int
        },
        None => 0,
    };
    let rest = s.skip(start);
    assert forall|k: int| 0 <= k < pg.len() implies (#[trigger] pg[k]).id is Some by {
        match limit {
            Some(l) => {
                if l <= rest.len() {
                    assert(pg[k] == rest.take(l as int)[k]);
                    assert(rest.take(l as int)[k] == rest[k]);
                } else {
                    assert(pg[k] == rest[k]);
                }
            },
            None => {
                assert(pg[k] == rest[k]);
            },
        }
        assert(rest[k] == s[start + k]);
        assert(s[start + k].id is Some);
    }
}


/// Law: with an ordering given, a filter's result is an ordered run: each
/// row of the page may stand before the next under that ordering, the page
/// lifting a contiguous run of the ordered rows.
pub proof fn lemma_filter_result_ordered(
    t: Seq<RowM>,
    p: Predicate,
    limit: Option<i64>,
    offset: Option<i64>,
    o: SortOrder,
)
    requires
        pagination_valid(limit, offset),
    ensures
        ordered_run(o, filter_result(t, p, limit, offset, Some(o))),
{
    let g = guarded_rows(t, p);
    let s = sort_rows(o, g);
    lemma_sort_ordered(o, g);
    let pg = filter_result(t, p, limit, offset, Some(o));
    let start: int = match offset {
        Some(off) => if off <= s.len() {
            off as int
        } else {
            s.len() as int
        },
        None => 0,
    };
    let rest = s.skip(start);
    assert forall|i: int| 0 <= i < pg.len() - 1 implies precedes(o, #[trigger] pg[i], pg[i + 1]) by {
        match limit {
            Some(l) => {
                if l <= rest.len() {
                    assert(pg[i] == rest.take(l as int)[i]);
                    assert(rest.take(l as int)[i] == rest[i]);
                    assert(pg[i + 1] == rest.take(l as int)[i + 1]);
                    assert(rest.take(l as int)[i + 1] == rest[i + 1]);
                } else {
                    assert(pg[i] == rest[i]);
                    assert(pg[i + 1] == rest[i + 1]);
                }
            },
            None => {
                assert(pg[i] == rest[i]);
                assert(pg[i + 1] == rest[i + 1]);
            },
        }
        assert(rest[i] == s[start + i]);
        assert(rest[i + 1] == s[start + i + 1]);
        assert(precedes(o, s[start + i], s[start + i + 1]));
    }
}

} // verus!
