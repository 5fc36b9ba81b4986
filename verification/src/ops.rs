//! The generic CRUD operation set: nine operations over a connection, each
//! with an exact contract, a uniform error classification, and the
//! instrumentation wrapper applied to every one of them.

use vstd::prelude::*;

use crate::changeset::{apply_assignments, lemma_apply_assignments_frame, Changeset};
use crate::errors::{DatabaseError, StorageError, StorageResult};
use crate::metrics::{recorded, track_database_call, DatabaseOperation};
use crate::model::{clone_row, contains_id, rows_view, table_wf, Connection, Row, RowM};
use crate::predicate::Predicate;

verus! {

// ---------------------------------------------------------------------------
// The mathematical meaning of each operation, over the table's contents.
// ---------------------------------------------------------------------------

/// The rows that satisfy the predicate, in table order.
pub open spec fn matching_rows(t: Seq<RowM>, p: Predicate) -> Seq<RowM>
    decreases t.len(),
{
    if t.len() == 0 {
        Seq::empty()
    } else {
        let rest = matching_rows(t.drop_last(), p);
        if p.accepts(t.last()) {
            rest.push(t.last())
        } else {
            rest
        }
    }
}

/// The rows that do not satisfy the predicate, in table order.
pub open spec fn remaining_rows(t: Seq<RowM>, p: Predicate) -> Seq<RowM>
    decreases t.len(),
{
    if t.len() == 0 {
        Seq::empty()
    } else {
        let rest = remaining_rows(t.drop_last(), p);
        if p.accepts(t.last()) {
            rest
        } else {
            rest.push(t.last())
        }
    }
}

/// How many rows satisfy the predicate.
pub open spec fn count_matching(t: Seq<RowM>, p: Predicate) -> int {
    matching_rows(t, p).len() as int
}

/// The table after an update by predicate: every matching row carries the
/// changeset's assignments, every other row is untouched.
pub open spec fn updated_rows(t: Seq<RowM>, p: Predicate, a: Seq<(usize, i64)>) -> Seq<RowM> {
    Seq::new(t.len(), |i: int| if p.accepts(t[i]) { apply_assignments(a, t[i]) } else { t[i] })
}

/// The rows an update by predicate returns: the matching rows, in table
/// order, each with the changeset applied.
pub open spec fn updated_matching(t: Seq<RowM>, p: Predicate, a: Seq<(usize, i64)>) -> Seq<RowM>
    decreases t.len(),
{
    if t.len() == 0 {
        Seq::empty()
    } else {
        let rest = updated_matching(t.drop_last(), p, a);
        if p.accepts(t.last()) {
            rest.push(apply_assignments(a, t.last()))
        } else {
            rest
        }
    }
}

/// The table after an update by id: the row carrying the key gets the
/// changeset's assignments, every other row is untouched.
pub open spec fn updated_by_id(t: Seq<RowM>, id: i64, a: Seq<(usize, i64)>) -> Seq<RowM> {
    Seq::new(t.len(), |i: int| if t[i].id == Some(id) { apply_assignments(a, t[i]) } else { t[i] })
}

/// The first row carrying the key, if any.
pub open spec fn find_by_id_spec(t: Seq<RowM>, id: i64) -> Option<RowM>
    decreases t.len(),
{
    if t.len() == 0 {
        None
    } else if t[0].id == Some(id) {
        Some(t[0])
    } else {
        find_by_id_spec(t.drop_first(), id)
    }
}

/// The first row satisfying the predicate, if any.
pub open spec fn first_matching(t: Seq<RowM>, p: Predicate) -> Option<RowM>
    decreases t.len(),
{
    if t.len() == 0 {
        None
    } else if p.accepts(t[0]) {
        Some(t[0])
    } else {
        first_matching(t.drop_first(), p)
    }
}

/// Whether inserting the row would violate the primary-key constraint.
pub open spec fn insert_conflicts(t: Seq<RowM>, r: RowM) -> bool {
    r.id is Some && contains_id(t, r.id.unwrap())
}

// ---------------------------------------------------------------------------
// Lemmas about those meanings.
// ---------------------------------------------------------------------------

/// Extending a prefix by one row extends its matching rows by that row
/// exactly when the row matches.
pub proof fn lemma_matching_take_step(t: Seq<RowM>, p: Predicate, i: int)
    requires
        0 <= i < t.len(),
    ensures
        matching_rows(t.take(i + 1), p) == if p.accepts(t[i]) {
            matching_rows(t.take(i), p).push(t[i])
        } else {
            matching_rows(t.take(i), p)
        },
{
    assert(t.take(i + 1).drop_last() =~= t.take(i));
    assert(t.take(i + 1).last() == t[i]);
}

/// The counterpart of `lemma_matching_take_step` for the rows left behind.
pub proof fn lemma_remaining_take_step(t: Seq<RowM>, p: Predicate, i: int)
    requires
        0 <= i < t.len(),
    ensures
        remaining_rows(t.take(i + 1), p) == if p.accepts(t[i]) {
            remaining_rows(t.take(i), p)
        } else {
            remaining_rows(t.take(i), p).push(t[i])
        },
{
    assert(t.take(i + 1).drop_last() =~= t.take(i));
    assert(t.take(i + 1).last() == t[i]);
}

/// The counterpart of `lemma_matching_take_step` for the returned rows of an
/// update by predicate.
pub proof fn lemma_updated_matching_take_step(t: Seq<RowM>, p: Predicate, a: Seq<(usize, i64)>, i: int)
    requires
        0 <= i < t.len(),
    ensures
        updated_matching(t.take(i + 1), p, a) == if p.accepts(t[i]) {
            updated_matching(t.take(i), p, a).push(apply_assignments(a, t[i]))
        } else {
            updated_matching(t.take(i), p, a)
        },
{
    assert(t.take(i + 1).drop_last() =~= t.take(i));
    assert(t.take(i + 1).last() == t[i]);
}

/// An update returns one row for each matching row.
pub proof fn lemma_updated_matching_len(t: Seq<RowM>, p: Predicate, a: Seq<(usize, i64)>)
    ensures
        updated_matching(t, p, a).len() == matching_rows(t, p).len(),
    decreases t.len(),
{
    if t.len() > 0 {
        lemma_updated_matching_len(t.drop_last(), p, a);
    }
}

/// Every row left behind by a delete fails the predicate and is a row of the
/// table.
pub proof fn lemma_remaining_sub(t: Seq<RowM>, p: Predicate)
    ensures
        forall|j: int|
            0 <= j < remaining_rows(t, p).len() ==> !p.accepts(#[trigger] remaining_rows(t, p)[j])
                && t.contains(remaining_rows(t, p)[j]),
    decreases t.len(),
{
    if t.len() > 0 {
        lemma_remaining_sub(t.drop_last(), p);
        let rest = remaining_rows(t.drop_last(), p);
        assert forall|j: int|
            0 <= j < remaining_rows(t, p).len() implies !p.accepts(
            #[trigger] remaining_rows(t, p)[j],
        ) && t.contains(remaining_rows(t, p)[j]) by {
            if j < rest.len() {
                assert(remaining_rows(t, p)[j] == rest[j]);
                let k = choose|k: int| 0 <= k < t.drop_last().len() && t.drop_last()[k] == rest[j];
                assert(t[k] == t.drop_last()[k]);
            } else {
                assert(remaining_rows(t, p)[j] == t.last());
                assert(t[t.len() - 1] == t.last());
            }
        }
    }
}

/// Deleting from a table that respects the primary-key constraint leaves a
/// table that respects it, and brings in no key that was not already there.
pub proof fn lemma_remaining_wf(t: Seq<RowM>, p: Predicate)
    requires
        table_wf(t),
    ensures
        table_wf(remaining_rows(t, p)),
        forall|v: i64| contains_id(remaining_rows(t, p), v) ==> contains_id(t, v),
    decreases t.len(),
{
    if t.len() > 0 {
        assert(table_wf(t.drop_last())) by {
            assert forall|i: int, j: int|
                0 <= i < t.drop_last().len() && 0 <= j < t.drop_last().len() && i != j && (
                #[trigger] t.drop_last()[i]).id is Some implies t.drop_last()[i].id != (
            #[trigger] t.drop_last()[j]).id by {
                assert(t[i] == t.drop_last()[i]);
                assert(t[j] == t.drop_last()[j]);
            }
        }
        lemma_remaining_wf(t.drop_last(), p);
        let rest = remaining_rows(t.drop_last(), p);
        assert forall|v: i64| contains_id(t.drop_last(), v) implies contains_id(t, v) by {
            let k = choose|k: int| 0 <= k < t.drop_last().len() && (#[trigger] t.drop_last()[k]).id
                == Some(v);
            assert(t[k] == t.drop_last()[k]);
        }
        if !p.accepts(t.last()) {
            let out = rest.push(t.last());
            assert forall|i: int, j: int|
                0 <= i < out.len() && 0 <= j < out.len() && i != j && (#[trigger] out[i]).id is Some
                implies out[i].id != (#[trigger] out[j]).id by {
                if i < rest.len() && j < rest.len() {
                    assert(out[i] == rest[i]);
                    assert(out[j] == rest[j]);
                } else {
                    let q = if i < rest.len() { i } else { j };
                    assert(out[q] == rest[q]);
                    if out[q].id is Some {
                        let v = out[q].id.unwrap();
                        assert(contains_id(rest, v)) by {
                            assert(rest[q].id == Some(v));
                        }
                        assert(contains_id(t.drop_last(), v));
                        let k = choose|k: int|
                            0 <= k < t.drop_last().len() && (#[trigger] t.drop_last()[k]).id
                                == Some(v);
                        assert(t[k] == t.drop_last()[k]);
                        assert(t[k].id != t.last().id);
                    }
                }
            }
            assert forall|v: i64| contains_id(out, v) implies contains_id(t, v) by {
                let k = choose|k: int| 0 <= k < out.len() && (#[trigger] out[k]).id == Some(v);
                if k < rest.len() {
                    assert(rest[k].id == Some(v));
                } else {
                    assert(t.contains(t.last()));
                    assert(t[t.len() - 1].id == Some(v));
                }
            }
        }
    }
}

/// An update never changes a row's primary key or its number of columns.
pub proof fn lemma_updated_rows_frame(t: Seq<RowM>, p: Predicate, a: Seq<(usize, i64)>)
    ensures
        updated_rows(t, p, a).len() == t.len(),
        forall|i: int|
            0 <= i < t.len() ==> (#[trigger] updated_rows(t, p, a)[i]).id == t[i].id
                && updated_rows(t, p, a)[i].fields.len() == t[i].fields.len(),
{
    assert forall|i: int|
        0 <= i < t.len() implies (#[trigger] updated_rows(t, p, a)[i]).id == t[i].id
        && updated_rows(t, p, a)[i].fields.len() == t[i].fields.len() by {
        lemma_apply_assignments_frame(a, t[i]);
    }
}

/// The counterpart of `lemma_updated_rows_frame` for an update by id.
pub proof fn lemma_updated_by_id_frame(t: Seq<RowM>, id: i64, a: Seq<(usize, i64)>)
    ensures
        updated_by_id(t, id, a).len() == t.len(),
        forall|i: int|
            0 <= i < t.len() ==> (#[trigger] updated_by_id(t, id, a)[i]).id == t[i].id
                && updated_by_id(t, id, a)[i].fields.len() == t[i].fields.len(),
{
    assert forall|i: int|
        0 <= i < t.len() implies (#[trigger] updated_by_id(t, id, a)[i]).id == t[i].id
        && updated_by_id(t, id, a)[i].fields.len() == t[i].fields.len() by {
        lemma_apply_assignments_frame(a, t[i]);
    }
}

/// The first row carrying the key stands at the first position carrying it.
pub proof fn lemma_find_by_id_at(t: Seq<RowM>, id: i64, k: int)
    requires
        0 <= k < t.len(),
        t[k].id == Some(id),
        forall|j: int| 0 <= j < k ==> (#[trigger] t[j]).id != Some(id),
    ensures
        find_by_id_spec(t, id) == Some(t[k]),
    decreases k,
{
    if k > 0 {
        lemma_find_by_id_at(t.drop_first(), id, k - 1);
    }
}

/// A table none of whose rows carries the key yields no row for it.
pub proof fn lemma_find_by_id_none(t: Seq<RowM>, id: i64)
    requires
        forall|j: int| 0 <= j < t.len() ==> (#[trigger] t[j]).id != Some(id),
    ensures
        find_by_id_spec(t, id) is None,
    decreases t.len(),
{
    if t.len() > 0 {
        lemma_find_by_id_none(t.drop_first(), id);
    }
}

/// Finding by key succeeds exactly on the keys the table holds.
pub proof fn lemma_find_by_id_none_iff(t: Seq<RowM>, id: i64)
    ensures
        (find_by_id_spec(t, id) is None) <==> !contains_id(t, id),
    decreases t.len(),
{
    if t.len() > 0 {
        lemma_find_by_id_none_iff(t.drop_first(), id);
        if t[0].id == Some(id) {
            assert(contains_id(t, id));
        } else {
            assert forall|v: i64| contains_id(t.drop_first(), v) implies contains_id(t, v) by {
                let k = choose|k: int|
                    0 <= k < t.drop_first().len() && (#[trigger] t.drop_first()[k]).id == Some(v);
                assert(t[k + 1].id == Some(v));
            }
            if contains_id(t, id) {
                let k = choose|k: int| 0 <= k < t.len() && (#[trigger] t[k]).id == Some(id);
                assert(t.drop_first()[k - 1].id == Some(id));
            }
        }
    }
}

/// The first matching row stands at the first position that matches.
pub proof fn lemma_first_matching_at(t: Seq<RowM>, p: Predicate, k: int)
    requires
        0 <= k < t.len(),
        p.accepts(t[k]),
        forall|j: int| 0 <= j < k ==> !p.accepts(#[trigger] t[j]),
    ensures
        first_matching(t, p) == Some(t[k]),
    decreases k,
{
    if k > 0 {
        lemma_first_matching_at(t.drop_first(), p, k - 1);
    }
}

/// A table none of whose rows matches yields no first matching row.
pub proof fn lemma_first_matching_none(t: Seq<RowM>, p: Predicate)
    requires
        forall|j: int| 0 <= j < t.len() ==> !p.accepts(#[trigger] t[j]),
    ensures
        first_matching(t, p) is None,
    decreases t.len(),
{
    if t.len() > 0 {
        lemma_first_matching_none(t.drop_first(), p);
    }
}


// ---------------------------------------------------------------------------
// The operations.
// ---------------------------------------------------------------------------

/// Whether some stored row carries the given primary key.
fn contains_id_exec(rows: &Vec<Row>, id: i64) -> (b: bool)
    ensures
        b == contains_id(rows_view(rows@), id),
{
    let mut i: usize = 0;
    while i < rows.len()
        invariant
            i <= rows.len(),
            forall|j: int| 0 <= j < i ==> (#[trigger] rows_view(rows@)[j]).id != Some(id),
        decreases rows.len() - i,
    {
        let matched = match rows[i].id {
            Some(v) => v == id,
            None => false,
        };
        if matched {
            proof {
                assert(rows_view(rows@)[i as int].id == Some(id));
            }
            return true;
        }
        i = i + 1;
    }
    false
}

/// Inserts a row and returns it. A row whose primary key is already present
/// is refused as a unique-constraint violation; a null primary key conflicts
/// with nothing.
pub fn generic_insert(conn: &mut Connection, values: Row) -> (out: StorageResult<Row>)
    requires
        old(conn).wf(),
    ensures
        final(conn).wf(),
        final(conn).table.name == old(conn).table.name,
        recorded(old(conn).metrics, final(conn).metrics, DatabaseOperation::Insert, 0),
        ({
            let t0 = old(conn).table@;
            match out {
                Ok(r) => !insert_conflicts(t0, values@) && final(conn).table@ == t0.push(values@)
                    && r@ == values@,
                Err(e) => insert_conflicts(t0, values@) && e.kind == DatabaseError::UniqueViolation
                    && final(conn).table@ == t0,
            }
        }),
{
    let ghost t0 = conn.table@;
    let conflict = match values.id {
        Some(v) => contains_id_exec(&conn.table.rows, v),
        None => false,
    };
    let out = if conflict {
        Err(StorageError::new(
            DatabaseError::UniqueViolation,
            "Error while inserting: unique constraint violated",
        ))
    } else {
        let stored = clone_row(&values);
        conn.table.rows.push(stored);
        proof {
            assert(conn.table@ =~= t0.push(values@));
            let t1 = conn.table@;
            assert forall|i: int, j: int|
                0 <= i < t1.len() && 0 <= j < t1.len() && i != j && (#[trigger] t1[i]).id is Some
                implies t1[i].id != (#[trigger] t1[j]).id by {
                if i < t0.len() && j < t0.len() {
                    assert(t1[i] == t0[i]);
                    assert(t1[j] == t0[j]);
                } else {
                    let q = if i < t0.len() { i } else { j };
                    assert(t1[q] == t0[q]);
                    if t0[q].id is Some && values@.id is Some && t0[q].id == values@.id {
                        assert(contains_id(t0, values@.id.unwrap())) by {
                            assert(t0[q].id == Some(values@.id.unwrap()));
                        }
                    }
                }
            }
        }
        Ok(values)
    };
    track_database_call(&mut conn.metrics, DatabaseOperation::Insert, 0, out)
}

/// Updates, in place, every row the predicate matches, and returns how many
/// there were; zero is a success. A changeset that sets nothing is refused
/// before the table is touched, classified with the others.
pub fn generic_update(conn: &mut Connection, predicate: Predicate, values: Changeset) -> (out:
    StorageResult<usize>)
    requires
        old(conn).wf(),
    ensures
        final(conn).wf(),
        final(conn).table.name == old(conn).table.name,
        recorded(old(conn).metrics, final(conn).metrics, DatabaseOperation::Update, 0),
        ({
            let t0 = old(conn).table@;
            match out {
                Ok(n) => values@.len() > 0 && n == count_matching(t0, predicate)
                    && final(conn).table@ == updated_rows(t0, predicate, values@),
                Err(e) => values@.len() == 0 && e.kind == DatabaseError::Others
                    && final(conn).table@ == t0,
            }
        }),
{
    let ghost t0 = conn.table@;
    if values.is_empty() {
        let out = Err(StorageError::new(
            DatabaseError::Others,
            "Error while updating: no changes to apply",
        ));
        return track_database_call(&mut conn.metrics, DatabaseOperation::Update, 0, out);
    }
    let mut n: usize = 0;
    let mut i: usize = 0;
    while i < conn.table.rows.len()
        invariant
            i <= conn.table.rows.len(),
            conn.table.rows.len() == t0.len(),
            conn.table.name == old(conn).table.name,
            conn.metrics == old(conn).metrics,
            old(conn).metrics.wf(),
            forall|j: int| i <= j < t0.len() ==> #[trigger] conn.table@[j] == t0[j],
            forall|j: int|
                0 <= j < i ==> #[trigger] conn.table@[j] == (if predicate.accepts(t0[j]) {
                    apply_assignments(values@, t0[j])
                } else {
                    t0[j]
                }),
            n <= i,
            n == count_matching(t0.take(i as int), predicate),
        decreases conn.table.rows.len() - i,
    {
        proof {
            assert(conn.table@[i as int] == t0[i as int]);
            lemma_matching_take_step(t0, predicate, i as int);
        }
        let matched = predicate.eval(&conn.table.rows[i]);
        if matched {
            let ghost before = conn.table@;
            let updated = values.apply_to(&conn.table.rows[i]);
            conn.table.rows.set(i, updated);
            proof {
                assert(updated@ == apply_assignments(values@, t0[i as int]));
                assert forall|j: int| 0 <= j < t0.len() && j != i implies #[trigger] conn.table@[j]
                    == before[j] by {
                    assert(conn.table.rows@[j]@ == before[j]);
                }
                assert(conn.table@[i as int] == updated@);
            }
            n = n + 1;
        }
        i = i + 1;
    }
    proof {
        assert(t0.take(t0.len() as int) =~= t0);
        assert(conn.table@ =~= updated_rows(t0, predicate, values@));
        lemma_updated_rows_frame(t0, predicate, values@);
        let t1 = conn.table@;
        assert forall|a: int, b: int|
            0 <= a < t1.len() && 0 <= b < t1.len() && a != b && (#[trigger] t1[a]).id is Some
            implies t1[a].id != (#[trigger] t1[b]).id by {
            assert(t1[a].id == t0[a].id);
            assert(t1[b].id == t0[b].id);
        }
    }
    let out = Ok(n);
    track_database_call(&mut conn.metrics, DatabaseOperation::Update, 0, out)
}


/// If nothing matches, nothing was accepted anywhere in the table.
pub proof fn lemma_count_zero_no_match(t: Seq<RowM>, p: Predicate)
    requires
        count_matching(t, p) == 0,
    ensures
        forall|j: int| 0 <= j < t.len() ==> !p.accepts(#[trigger] t[j]),
    decreases t.len(),
{
    if t.len() > 0 {
        lemma_count_zero_no_match(t.drop_last(), p);
        assert forall|j: int| 0 <= j < t.len() implies !p.accepts(#[trigger] t[j]) by {
            if j < t.len() - 1 {
                assert(t.drop_last()[j] == t[j]);
            } else {
                assert(t[j] == t.last());
            }
        }
    }
}

/// Updates, in place, every row the predicate matches, and returns the
/// updated rows. A changeset that sets nothing is refused as
/// `NoFieldsToUpdate` before the table is touched; a predicate that matches
/// nothing is `NotFound`.
pub fn generic_update_with_results(conn: &mut Connection, predicate: Predicate, values: Changeset)
    -> (out: StorageResult<Vec<Row>>)
    requires
        old(conn).wf(),
    ensures
        final(conn).wf(),
        final(conn).table.name == old(conn).table.name,
        recorded(old(conn).metrics, final(conn).metrics, DatabaseOperation::UpdateWithResults, 0),
        ({
            let t0 = old(conn).table@;
            match out {
                Ok(v) => values@.len() > 0 && count_matching(t0, predicate) > 0 && rows_view(v@)
                    == updated_matching(t0, predicate, values@) && final(conn).table@
                    == updated_rows(t0, predicate, values@),
                Err(e) => final(conn).table@ == t0 && match e.kind {
                    DatabaseError::NoFieldsToUpdate => values@.len() == 0,
                    DatabaseError::NotFound => values@.len() > 0 && count_matching(t0, predicate)
                        == 0,
                    _ => false,
                },
            }
        }),
{
    let ghost t0 = conn.table@;
    if values.is_empty() {
        let out = Err(StorageError::new(
            DatabaseError::NoFieldsToUpdate,
            "Error while updating: no fields to update",
        ));
        return track_database_call(&mut conn.metrics, DatabaseOperation::UpdateWithResults, 0, out);
    }
    let mut results: Vec<Row> = Vec::new();
    let mut i: usize = 0;
    while i < conn.table.rows.len()
        invariant
            i <= conn.table.rows.len(),
            conn.table.rows.len() == t0.len(),
            conn.table.name == old(conn).table.name,
            conn.metrics == old(conn).metrics,
            old(conn).metrics.wf(),
            forall|j: int| i <= j < t0.len() ==> #[trigger] conn.table@[j] == t0[j],
            forall|j: int|
                0 <= j < i ==> #[trigger] conn.table@[j] == (if predicate.accepts(t0[j]) {
                    apply_assignments(values@, t0[j])
                } else {
                    t0[j]
                }),
            rows_view(results@) == updated_matching(t0.take(i as int), predicate, values@),
        decreases conn.table.rows.len() - i,
    {
        proof {
            assert(conn.table@[i as int] == t0[i as int]);
            lemma_updated_matching_take_step(t0, predicate, values@, i as int);
        }
        let matched = predicate.eval(&conn.table.rows[i]);
        if matched {
            let ghost before = conn.table@;
            let ghost results_before = results@;
            let updated = values.apply_to(&conn.table.rows[i]);
            let returned = clone_row(&updated);
            conn.table.rows.set(i, updated);
            results.push(returned);
            proof {
                assert(updated@ == apply_assignments(values@, t0[i as int]));
                assert forall|j: int| 0 <= j < t0.len() && j != i implies #[trigger] conn.table@[j]
                    == before[j] by {
                    assert(conn.table.rows@[j]@ == before[j]);
                }
                assert(conn.table@[i as int] == updated@);
                assert(rows_view(results@) =~= rows_view(results_before).push(returned@));
            }
        }
        i = i + 1;
    }
    proof {
        assert(t0.take(t0.len() as int) =~= t0);
        assert(conn.table@ =~= updated_rows(t0, predicate, values@));
        lemma_updated_rows_frame(t0, predicate, values@);
        let t1 = conn.table@;
        assert forall|a: int, b: int|
            0 <= a < t1.len() && 0 <= b < t1.len() && a != b && (#[trigger] t1[a]).id is Some
            implies t1[a].id != (#[trigger] t1[b]).id by {
            assert(t1[a].id == t0[a].id);
            assert(t1[b].id == t0[b].id);
        }
        lemma_updated_matching_len(t0, predicate, values@);
    }
    let out = if results.len() == 0 {
        proof {
            lemma_count_zero_no_match(t0, predicate);
            assert(conn.table@ =~= t0);
        }
        Err(StorageError::new(
            DatabaseError::NotFound,
            "Error while updating: no rows matched",
        ))
    } else {
        Ok(results)
    };
    track_database_call(&mut conn.metrics, DatabaseOperation::UpdateWithResults, 0, out)
}

/// Updates by a predicate that is expected to single out one row, and
/// returns that row. No matching row is `NotFound`; more than one is
/// classified with the others, the message noting that the predicate was
/// not unique; the rows stay updated either way.
pub fn generic_update_with_unique_predicate_get_result(
    conn: &mut Connection,
    predicate: Predicate,
    values: Changeset,
) -> (out: StorageResult<Row>)
    requires
        old(conn).wf(),
    ensures
        final(conn).wf(),
        final(conn).table.name == old(conn).table.name,
        recorded(old(conn).metrics, final(conn).metrics, DatabaseOperation::UpdateWithResults, 0),
        ({
            let t0 = old(conn).table@;
            match out {
                Ok(r) => values@.len() > 0 && count_matching(t0, predicate) == 1 && r@
                    == updated_matching(t0, predicate, values@)[0] && final(conn).table@
                    == updated_rows(t0, predicate, values@),
                Err(e) => match e.kind {
                    DatabaseError::NoFieldsToUpdate => values@.len() == 0 && final(conn).table@
                        == t0,
                    DatabaseError::NotFound => values@.len() > 0 && count_matching(t0, predicate)
                        == 0 && final(conn).table@ == t0,
                    DatabaseError::Others => values@.len() > 0 && count_matching(t0, predicate) > 1
                        && final(conn).table@ == updated_rows(t0, predicate, values@) && e.message@
                        == "Maybe not queried using a unique key"@,
                    DatabaseError::UniqueViolation => false,
                },
            }
        }),
{
    let ghost t0 = conn.table@;
    let ghost gp = predicate;
    let ghost ga = values@;
    match generic_update_with_results(conn, predicate, values) {
        Ok(mut v) => {
            proof {
                lemma_updated_matching_len(t0, gp, ga);
            }
            if v.len() == 1 {
                match v.pop() {
                    Some(r) => {
                        proof {
                            assert(r@ == rows_view(v@.push(r))[0]);
                        }
                        Ok(r)
                    },
                    None => {
                        proof {
                            assert(false);
                        }
                        Err(StorageError::new(
                            DatabaseError::Others,
                            "Maybe not queried using a unique key",
                        ))
                    },
                }
            } else {
                Err(StorageError::new(
                    DatabaseError::Others,
                    "Maybe not queried using a unique key",
                ))
            }
        },
        Err(e) => Err(e),
    }
}

/// Updates the one row carrying the primary key and returns it. A changeset
/// that sets nothing is refused as `NoFieldsToUpdate` before the table is
/// touched; an absent key is `NotFound`.
pub fn generic_update_by_id(conn: &mut Connection, id: i64, values: Changeset) -> (out:
    StorageResult<Row>)
    requires
        old(conn).wf(),
    ensures
        final(conn).wf(),
        final(conn).table.name == old(conn).table.name,
        recorded(old(conn).metrics, final(conn).metrics, DatabaseOperation::UpdateOne, 0),
        ({
            let t0 = old(conn).table@;
            match out {
                Ok(r) => values@.len() > 0 && find_by_id_spec(t0, id) is Some && r@
                    == apply_assignments(values@, find_by_id_spec(t0, id).unwrap())
                    && final(conn).table@ == updated_by_id(t0, id, values@),
                Err(e) => final(conn).table@ == t0 && match e.kind {
                    DatabaseError::NoFieldsToUpdate => values@.len() == 0,
                    DatabaseError::NotFound => values@.len() > 0 && find_by_id_spec(t0, id)
                        is None,
                    _ => false,
                },
            }
        }),
{
    let ghost t0 = conn.table@;
    if values.is_empty() {
        let out = Err(StorageError::new(
            DatabaseError::NoFieldsToUpdate,
            "Error while updating by ID: no fields to update",
        ));
        return track_database_call(&mut conn.metrics, DatabaseOperation::UpdateOne, 0, out);
    }
    let n_rows = conn.table.rows.len();
    let mut idx: usize = n_rows;
    let mut i: usize = 0;
    while i < n_rows
        invariant
            i <= n_rows,
            idx <= n_rows,
            n_rows == t0.len(),
            conn.table@ == t0,
            conn.table.rows.len() == n_rows,
            conn.table.name == old(conn).table.name,
            conn.metrics == old(conn).metrics,
            idx == n_rows ==> forall|j: int| 0 <= j < i ==> (#[trigger] t0[j]).id != Some(id),
            idx < n_rows ==> idx < i && t0[idx as int].id == Some(id) && forall|j: int|
                0 <= j < idx ==> (#[trigger] t0[j]).id != Some(id),
        decreases n_rows - i,
    {
        let is_match = match conn.table.rows[i].id {
            Some(v) => v == id,
            None => false,
        };
        proof {
            assert(conn.table@[i as int] == t0[i as int]);
        }
        if is_match && idx == n_rows {
            idx = i;
        }
        i = i + 1;
    }
    if idx == n_rows {
        proof {
            lemma_find_by_id_none(t0, id);
        }
        let out = Err(StorageError::new(
            DatabaseError::NotFound,
            "Error while updating by ID: no row carries the key",
        ));
        return track_database_call(&mut conn.metrics, DatabaseOperation::UpdateOne, 0, out);
    }
    proof {
        lemma_find_by_id_at(t0, id, idx as int);
    }
    let updated = values.apply_to(&conn.table.rows[idx]);
    let returned = clone_row(&updated);
    conn.table.rows.set(idx, updated);
    proof {
        assert(updated@ == apply_assignments(values@, t0[idx as int]));
        assert forall|j: int| 0 <= j < t0.len() && j != idx implies #[trigger] conn.table@[j]
            == t0[j] by {
            assert(conn.table.rows@[j]@ == t0[j]);
        }
        assert(conn.table@[idx as int] == updated@);
        assert forall|j: int| 0 <= j < t0.len() && j != idx implies (#[trigger] t0[j]).id
            != Some(id) by {
            if t0[j].id is Some {
                assert(t0[idx as int].id != t0[j].id);
            }
        }
        assert(conn.table@ =~= updated_by_id(t0, id, values@));
        lemma_updated_by_id_frame(t0, id, values@);
        let t1 = conn.table@;
        assert forall|a: int, b: int|
            0 <= a < t1.len() && 0 <= b < t1.len() && a != b && (#[trigger] t1[a]).id is Some
            implies t1[a].id != (#[trigger] t1[b]).id by {
            assert(t1[a].id == t0[a].id);
            assert(t1[b].id == t0[b].id);
        }
    }
    track_database_call(&mut conn.metrics, DatabaseOperation::UpdateOne, 0, Ok(returned))
}


/// If nothing matches, a delete leaves the table as it stands.
pub proof fn lemma_remaining_all(t: Seq<RowM>, p: Predicate)
    requires
        count_matching(t, p) == 0,
    ensures
        remaining_rows(t, p) == t,
    decreases t.len(),
{
    if t.len() > 0 {
        if p.accepts(t.last()) {
            assert(matching_rows(t, p).len() > 0);
        }
        assert(count_matching(t.drop_last(), p) == 0);
        lemma_remaining_all(t.drop_last(), p);
        assert(remaining_rows(t, p) =~= t);
    }
}

/// Deletes every row the predicate matches and reports whether any row
/// went; a predicate that matches nothing is `NotFound`.
pub fn generic_delete(conn: &mut Connection, predicate: Predicate) -> (out: StorageResult<bool>)
    requires
        old(conn).wf(),
    ensures
        final(conn).wf(),
        final(conn).table.name == old(conn).table.name,
        recorded(old(conn).metrics, final(conn).metrics, DatabaseOperation::Delete, 0),
        ({
            let t0 = old(conn).table@;
            final(conn).table@ == remaining_rows(t0, predicate) && match out {
                Ok(b) => b == true && count_matching(t0, predicate) > 0,
                Err(e) => e.kind == DatabaseError::NotFound && count_matching(t0, predicate) == 0
                    && final(conn).table@ == t0,
            }
        }),
{
    let ghost t0 = conn.table@;
    let mut kept: Vec<Row> = Vec::new();
    let mut removed: usize = 0;
    let mut i: usize = 0;
    while i < conn.table.rows.len()
        invariant
            i <= conn.table.rows.len(),
            conn.table@ == t0,
            conn.table.rows.len() == t0.len(),
            conn.table.name == old(conn).table.name,
            conn.metrics == old(conn).metrics,
            old(conn).metrics.wf(),
            rows_view(kept@) == remaining_rows(t0.take(i as int), predicate),
            removed as int == count_matching(t0.take(i as int), predicate),
            removed <= i,
        decreases conn.table.rows.len() - i,
    {
        proof {
            assert(conn.table@[i as int] == t0[i as int]);
            lemma_matching_take_step(t0, predicate, i as int);
            lemma_remaining_take_step(t0, predicate, i as int);
        }
        let matched = predicate.eval(&conn.table.rows[i]);
        if matched {
            removed = removed + 1;
        } else {
            let ghost kept_before = kept@;
            kept.push(clone_row(&conn.table.rows[i]));
            proof {
                assert(rows_view(kept@) =~= rows_view(kept_before).push(t0[i as int]));
            }
        }
        i = i + 1;
    }
    proof {
        assert(t0.take(t0.len() as int) =~= t0);
    }
    conn.table.rows = kept;
    proof {
        lemma_remaining_wf(t0, predicate);
    }
    let out = if removed > 0 {
        Ok(true)
    } else {
        proof {
            lemma_remaining_all(t0, predicate);
        }
        Err(StorageError::new(DatabaseError::NotFound, "No records deleted"))
    };
    track_database_call(&mut conn.metrics, DatabaseOperation::Delete, 0, out)
}

/// Deletes every row the predicate matches and returns the first of them;
/// a predicate that matches nothing is `NotFound`.
pub fn generic_delete_one_with_result(conn: &mut Connection, predicate: Predicate) -> (out:
    StorageResult<Row>)
    requires
        old(conn).wf(),
    ensures
        final(conn).wf(),
        final(conn).table.name == old(conn).table.name,
        recorded(old(conn).metrics, final(conn).metrics, DatabaseOperation::DeleteWithResult, 0),
        ({
            let t0 = old(conn).table@;
            final(conn).table@ == remaining_rows(t0, predicate) && match out {
                Ok(r) => count_matching(t0, predicate) > 0 && r@ == matching_rows(t0, predicate)[0],
                Err(e) => e.kind == DatabaseError::NotFound && count_matching(t0, predicate) == 0
                    && final(conn).table@ == t0,
            }
        }),
{
    let ghost t0 = conn.table@;
    let mut kept: Vec<Row> = Vec::new();
    let mut first: Option<Row> = None;
    let mut removed: usize = 0;
    let mut i: usize = 0;
    while i < conn.table.rows.len()
        invariant
            i <= conn.table.rows.len(),
            conn.table@ == t0,
            conn.table.rows.len() == t0.len(),
            conn.table.name == old(conn).table.name,
            conn.metrics == old(conn).metrics,
            old(conn).metrics.wf(),
            rows_view(kept@) == remaining_rows(t0.take(i as int), predicate),
            removed as int == count_matching(t0.take(i as int), predicate),
            removed <= i,
            first is None <==> removed == 0,
            first is Some ==> first.unwrap()@ == matching_rows(t0.take(i as int), predicate)[0],
        decreases conn.table.rows.len() - i,
    {
        proof {
            assert(conn.table@[i as int] == t0[i as int]);
            lemma_matching_take_step(t0, predicate, i as int);
            lemma_remaining_take_step(t0, predicate, i as int);
        }
        let matched = predicate.eval(&conn.table.rows[i]);
        if matched {
            if removed == 0 {
                first = Some(clone_row(&conn.table.rows[i]));
            }
            removed = removed + 1;
        } else {
            let ghost kept_before = kept@;
            kept.push(clone_row(&conn.table.rows[i]));
            proof {
                assert(rows_view(kept@) =~= rows_view(kept_before).push(t0[i as int]));
            }
        }
        i = i + 1;
    }
    proof {
        assert(t0.take(t0.len() as int) =~= t0);
    }
    conn.table.rows = kept;
    proof {
        lemma_remaining_wf(t0, predicate);
    }
    let out = match first {
        Some(r) => Ok(r),
        None => {
            proof {
                lemma_remaining_all(t0, predicate);
            }
            Err(StorageError::new(
                DatabaseError::NotFound,
                "Object to be deleted does not exist",
            ))
        },
    };
    track_database_call(&mut conn.metrics, DatabaseOperation::DeleteWithResult, 0, out)
}

/// The shared body of the find-by-key operations.
fn generic_find_by_id_core(conn: &mut Connection, id: i64) -> (out: StorageResult<Row>)
    requires
        old(conn).wf(),
    ensures
        final(conn).wf(),
        final(conn).table@ == old(conn).table@,
        final(conn).table.name == old(conn).table.name,
        recorded(old(conn).metrics, final(conn).metrics, DatabaseOperation::FindOne, 0),
        ({
            let t0 = old(conn).table@;
            match out {
                Ok(r) => find_by_id_spec(t0, id) == Some(r@),
                Err(e) => e.kind == DatabaseError::NotFound && find_by_id_spec(t0, id) is None,
            }
        }),
{
    let ghost t0 = conn.table@;
    let n_rows = conn.table.rows.len();
    let mut i: usize = 0;
    while i < n_rows
        invariant
            i <= n_rows,
            n_rows == t0.len(),
            t0 == old(conn).table@,
            table_wf(t0),
            conn.table@ == t0,
            conn.table.rows.len() == n_rows,
            conn.table.name == old(conn).table.name,
            conn.metrics == old(conn).metrics,
            old(conn).metrics.wf(),
            forall|j: int| 0 <= j < i ==> (#[trigger] t0[j]).id != Some(id),
        decreases n_rows - i,
    {
        let is_match = match conn.table.rows[i].id {
            Some(v) => v == id,
            None => false,
        };
        proof {
            assert(conn.table@[i as int] == t0[i as int]);
        }
        if is_match {
            let found = clone_row(&conn.table.rows[i]);
            proof {
                lemma_find_by_id_at(t0, id, i as int);
            }
            return track_database_call(&mut conn.metrics, DatabaseOperation::FindOne, 0, Ok(found));
        }
        i = i + 1;
    }
    proof {
        lemma_find_by_id_none(t0, id);
    }
    let out = Err(StorageError::new(
        DatabaseError::NotFound,
        "Error finding record by primary key",
    ));
    track_database_call(&mut conn.metrics, DatabaseOperation::FindOne, 0, out)
}

/// Finds the row carrying the primary key; an absent key is `NotFound`.
pub fn generic_find_by_id(conn: &mut Connection, id: i64) -> (out: StorageResult<Row>)
    requires
        old(conn).wf(),
    ensures
        final(conn).wf(),
        final(conn).table@ == old(conn).table@,
        final(conn).table.name == old(conn).table.name,
        recorded(old(conn).metrics, final(conn).metrics, DatabaseOperation::FindOne, 0),
        ({
            let t0 = old(conn).table@;
            match out {
                Ok(r) => find_by_id_spec(t0, id) == Some(r@),
                Err(e) => e.kind == DatabaseError::NotFound && find_by_id_spec(t0, id) is None,
            }
        }),
{
    generic_find_by_id_core(conn, id)
}

/// Finds the row carrying the primary key; an absent key is an absent
/// value, never an error.
pub fn generic_find_by_id_optional(conn: &mut Connection, id: i64) -> (out: StorageResult<
    Option<Row>,
>)
    requires
        old(conn).wf(),
    ensures
        final(conn).wf(),
        final(conn).table@ == old(conn).table@,
        final(conn).table.name == old(conn).table.name,
        recorded(old(conn).metrics, final(conn).metrics, DatabaseOperation::FindOne, 0),
        ({
            let t0 = old(conn).table@;
            match out {
                Ok(o) => match o {
                    Some(r) => find_by_id_spec(t0, id) == Some(r@),
                    None => find_by_id_spec(t0, id) is None,
                },
                Err(_) => false,
            }
        }),
{
    to_optional(generic_find_by_id_core(conn, id))
}

/// The shared body of the find-by-predicate operations.
fn generic_find_one_core(conn: &mut Connection, predicate: Predicate) -> (out: StorageResult<Row>)
    requires
        old(conn).wf(),
    ensures
        final(conn).wf(),
        final(conn).table@ == old(conn).table@,
        final(conn).table.name == old(conn).table.name,
        recorded(old(conn).metrics, final(conn).metrics, DatabaseOperation::FindOne, 0),
        ({
            let t0 = old(conn).table@;
            match out {
                Ok(r) => first_matching(t0, predicate) == Some(r@),
                Err(e) => e.kind == DatabaseError::NotFound && first_matching(t0, predicate)
                    is None,
            }
        }),
{
    let ghost t0 = conn.table@;
    let n_rows = conn.table.rows.len();
    let mut i: usize = 0;
    while i < n_rows
        invariant
            i <= n_rows,
            n_rows == t0.len(),
            t0 == old(conn).table@,
            table_wf(t0),
            conn.table@ == t0,
            conn.table.rows.len() == n_rows,
            conn.table.name == old(conn).table.name,
            conn.metrics == old(conn).metrics,
            old(conn).metrics.wf(),
            forall|j: int| 0 <= j < i ==> !predicate.accepts(#[trigger] t0[j]),
        decreases n_rows - i,
    {
        proof {
            assert(conn.table@[i as int] == t0[i as int]);
        }
        let matched = predicate.eval(&conn.table.rows[i]);
        if matched {
            let found = clone_row(&conn.table.rows[i]);
            proof {
                lemma_first_matching_at(t0, predicate, i as int);
            }
            return track_database_call(&mut conn.metrics, DatabaseOperation::FindOne, 0, Ok(found));
        }
        i = i + 1;
    }
    proof {
        lemma_first_matching_none(t0, predicate);
    }
    let out = Err(StorageError::new(
        DatabaseError::NotFound,
        "Error finding record by predicate",
    ));
    track_database_call(&mut conn.metrics, DatabaseOperation::FindOne, 0, out)
}

/// Finds the first row the predicate matches; no match is `NotFound`.
pub fn generic_find_one(conn: &mut Connection, predicate: Predicate) -> (out: StorageResult<Row>)
    requires
        old(conn).wf(),
    ensures
        final(conn).wf(),
        final(conn).table@ == old(conn).table@,
        final(conn).table.name == old(conn).table.name,
        recorded(old(conn).metrics, final(conn).metrics, DatabaseOperation::FindOne, 0),
        ({
            let t0 = old(conn).table@;
            match out {
                Ok(r) => first_matching(t0, predicate) == Some(r@),
                Err(e) => e.kind == DatabaseError::NotFound && first_matching(t0, predicate)
                    is None,
            }
        }),
{
    generic_find_one_core(conn, predicate)
}

/// Finds the first row the predicate matches; no match is an absent value,
/// never an error.
pub fn generic_find_one_optional(conn: &mut Connection, predicate: Predicate) -> (out:
    StorageResult<Option<Row>>)
    requires
        old(conn).wf(),
    ensures
        final(conn).wf(),
        final(conn).table@ == old(conn).table@,
        final(conn).table.name == old(conn).table.name,
        recorded(old(conn).metrics, final(conn).metrics, DatabaseOperation::FindOne, 0),
        ({
            let t0 = old(conn).table@;
            match out {
                Ok(o) => match o {
                    Some(r) => first_matching(t0, predicate) == Some(r@),
                    None => first_matching(t0, predicate) is None,
                },
                Err(_) => false,
            }
        }),
{
    to_optional(generic_find_one_core(conn, predicate))
}

/// The optional-result normalizer: turns a `NotFound` failure into an
/// absent value, hands every success through as a present value, and
/// touches no other classification.
pub fn to_optional<T>(arg: StorageResult<T>) -> (out: StorageResult<Option<T>>)
    ensures
        match arg {
            Ok(v) => out == Ok::<Option<T>, StorageError>(Some(v)),
            Err(e) => if e.kind == DatabaseError::NotFound {
                out == Ok::<Option<T>, StorageError>(None::<T>)
            } else {
                out == Err::<Option<T>, StorageError>(e)
            },
        },
{
    match arg {
        Ok(value) => Ok(Some(value)),
        Err(err) => match err.kind {
            DatabaseError::NotFound => Ok(None),
            _ => Err(err),
        },
    }
}

} // verus!
