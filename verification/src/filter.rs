//! The filter / pagination builder: always ANDs the caller's predicate with
//! "primary key is not null", then optionally orders the rows and applies
//! offset and limit. An empty result is a success.

use vstd::prelude::*;

use crate::errors::{DatabaseError, StorageError, StorageResult};
use crate::metrics::{recorded, track_database_call, DatabaseOperation};
use crate::model::{clone_row, rows_view, Connection, Row, RowM};
use crate::predicate::Predicate;

verus! {

/// The ordering expression a filter may apply: by the primary key or by one
/// column, each way. A null primary key and a column outside the row order
/// as zero; the filter's guard keeps null keys out before ordering.
#[derive(Clone, Copy, Debug, PartialEq, Eq, Structural)]
pub enum SortOrder {
    IdAscending,
    IdDescending,
    FieldAscending(usize),
    FieldDescending(usize),
}

/// The key the ordering compares on a row.
pub open spec fn sort_key(o: SortOrder, r: RowM) -> i64 {
    match o {
        SortOrder::IdAscending => match r.id {
            Some(v) => v,
            None => 0,
        },
        SortOrder::IdDescending => match r.id {
            Some(v) => v,
            None => 0,
        },
        SortOrder::FieldAscending(i) => if i < r.fields.len() {
            r.fields[i as int]
        } else {
            0
        },
        SortOrder::FieldDescending(i) => if i < r.fields.len() {
            r.fields[i as int]
        } else {
            0
        },
    }
}

/// Whether the ordering runs upward.
pub open spec fn sort_ascending(o: SortOrder) -> bool {
    match o {
        SortOrder::IdAscending => true,
        SortOrder::FieldAscending(_) => true,
        SortOrder::IdDescending => false,
        SortOrder::FieldDescending(_) => false,
    }
}

/// Whether the first row may stand before the second under the ordering.
pub open spec fn precedes(o: SortOrder, a: RowM, b: RowM) -> bool {
    if sort_ascending(o) {
        sort_key(o, a) <= sort_key(o, b)
    } else {
        sort_key(o, a) >= sort_key(o, b)
    }
}

/// The row placed before the first position it may precede.
pub open spec fn insert_sorted(o: SortOrder, s: Seq<RowM>, r: RowM) -> Seq<RowM>
    decreases s.len(),
{
    if s.len() == 0 {
        seq![r]
    } else if precedes(o, r, s[0]) {
        seq![r] + s
    } else {
        seq![s[0]] + insert_sorted(o, s.drop_first(), r)
    }
}

/// The rows in the given order: each row of the input placed in turn.
pub open spec fn sort_rows(o: SortOrder, s: Seq<RowM>) -> Seq<RowM>
    decreases s.len(),
{
    if s.len() == 0 {
        Seq::empty()
    } else {
        insert_sorted(o, sort_rows(o, s.drop_last()), s.last())
    }
}

/// The rows after an optional ordering; with none given, table order stands.
pub open spec fn ordered_rows(order: Option<SortOrder>, s: Seq<RowM>) -> Seq<RowM> {
    match order {
        None => s,
        Some(o) => sort_rows(o, s),
    }
}

/// The rows the caller's predicate matches whose primary key is non-null,
/// in table order: the unconditional guard of every filter.
pub open spec fn guarded_rows(t: Seq<RowM>, p: Predicate) -> Seq<RowM>
    decreases t.len(),
{
    if t.len() == 0 {
        Seq::empty()
    } else {
        let rest = guarded_rows(t.drop_last(), p);
        if p.accepts(t.last()) && t.last().id is Some {
            rest.push(t.last())
        } else {
            rest
        }
    }
}

/// A limit or offset is meaningful when absent or non-negative.
pub open spec fn pagination_valid(limit: Option<i64>, offset: Option<i64>) -> bool {
    &&& match limit {
        Some(l) => l >= 0,
        None => true,
    }
    &&& match offset {
        Some(off) => off >= 0,
        None => true,
    }
}

/// The page: skip the first `offset` rows, then keep at most `limit`.
pub open spec fn page(s: Seq<RowM>, limit: Option<i64>, offset: Option<i64>) -> Seq<RowM> {
    let start: int = match offset {
        Some(off) => if off <= s.len() {
            off as int
        } else {
            s.len() as int
        },
        None => 0,
    };
    let rest = s.skip(start);
    match limit {
        Some(l) => if l <= rest.len() {
            rest.take(l as int)
        } else {
            rest
        },
        None => rest,
    }
}

/// Everything the filter produces, in order: guard, order, page.
pub open spec fn filter_result(
    t: Seq<RowM>,
    p: Predicate,
    limit: Option<i64>,
    offset: Option<i64>,
    order: Option<SortOrder>,
) -> Seq<RowM> {
    page(ordered_rows(order, guarded_rows(t, p)), limit, offset)
}

/// Extending a prefix by one row extends its guarded rows by that row
/// exactly when the row matches and carries a key.
pub proof fn lemma_guarded_take_step(t: Seq<RowM>, p: Predicate, i: int)
    requires
        0 <= i < t.len(),
    ensures
        guarded_rows(t.take(i + 1), p) == if p.accepts(t[i]) && t[i].id is Some {
            guarded_rows(t.take(i), p).push(t[i])
        } else {
            guarded_rows(t.take(i), p)
        },
{
    assert(t.take(i + 1).drop_last() =~= t.take(i));
    assert(t.take(i + 1).last() == t[i]);
}

/// Every guarded row matches the predicate and carries a non-null key.
pub proof fn lemma_guarded_sub(t: Seq<RowM>, p: Predicate)
    ensures
        forall|j: int|
            0 <= j < guarded_rows(t, p).len() ==> p.accepts(#[trigger] guarded_rows(t, p)[j])
                && guarded_rows(t, p)[j].id is Some,
    decreases t.len(),
{
    if t.len() > 0 {
        lemma_guarded_sub(t.drop_last(), p);
        let rest = guarded_rows(t.drop_last(), p);
        assert forall|j: int|
            0 <= j < guarded_rows(t, p).len() implies p.accepts(#[trigger] guarded_rows(t, p)[j])
            && guarded_rows(t, p)[j].id is Some by {
            if j < rest.len() {
                assert(guarded_rows(t, p)[j] == rest[j]);
            } else {
                assert(guarded_rows(t, p)[j] == t.last());
            }
        }
    }
}

/// Placing a row into a run adds that row and moves no other in or out.
pub proof fn lemma_insert_sorted_mem(o: SortOrder, s: Seq<RowM>, r: RowM)
    ensures
        insert_sorted(o, s, r).len() == s.len() + 1,
        forall|j: int|
            0 <= j < insert_sorted(o, s, r).len() ==> #[trigger] insert_sorted(o, s, r)[j] == r
                || s.contains(insert_sorted(o, s, r)[j]),
    decreases s.len(),
{
    if s.len() > 0 && !precedes(o, r, s[0]) {
        lemma_insert_sorted_mem(o, s.drop_first(), r);
        let rest = insert_sorted(o, s.drop_first(), r);
        assert forall|j: int|
            0 <= j < insert_sorted(o, s, r).len() implies #[trigger] insert_sorted(o, s, r)[j] == r
            || s.contains(insert_sorted(o, s, r)[j]) by {
            if j == 0 {
                assert(insert_sorted(o, s, r)[0] == s[0]);
                assert(s.contains(s[0]));
            } else {
                assert(insert_sorted(o, s, r)[j] == rest[j - 1]);
                if rest[j - 1] != r {
                    let k = choose|k: int|
                        0 <= k < s.drop_first().len() && s.drop_first()[k] == rest[j - 1];
                    assert(s[k + 1] == s.drop_first()[k]);
                }
            }
        }
    }
}

/// Ordering rows moves no row in or out.
pub proof fn lemma_sort_mem(o: SortOrder, s: Seq<RowM>)
    ensures
        sort_rows(o, s).len() == s.len(),
        forall|j: int|
            0 <= j < sort_rows(o, s).len() ==> s.contains(#[trigger] sort_rows(o, s)[j]),
    decreases s.len(),
{
    if s.len() > 0 {
        lemma_sort_mem(o, s.drop_last());
        let rest = sort_rows(o, s.drop_last());
        lemma_insert_sorted_mem(o, rest, s.last());
        assert forall|j: int|
            0 <= j < sort_rows(o, s).len() implies s.contains(#[trigger] sort_rows(o, s)[j]) by {
            if sort_rows(o, s)[j] == s.last() {
                assert(s[s.len() - 1] == s.last());
            } else {
                assert(rest.contains(sort_rows(o, s)[j]));
                let k = choose|k: int| 0 <= k < rest.len() && rest[k] == sort_rows(o, s)[j];
                assert(s.drop_last().contains(rest[k]));
                let m = choose|m: int|
                    0 <= m < s.drop_last().len() && s.drop_last()[m] == rest[k];
                assert(s[m] == s.drop_last()[m]);
            }
        }
    }
}

/// An ordering keeps every primary key non-null if they all were.
pub proof fn lemma_ordered_ids(order: Option<SortOrder>, g: Seq<RowM>)
    requires
        forall|j: int| 0 <= j < g.len() ==> (#[trigger] g[j]).id is Some,
    ensures
        ordered_rows(order, g).len() == g.len(),
        forall|j: int|
            0 <= j < ordered_rows(order, g).len() ==> (#[trigger] ordered_rows(order, g)[j]).id
                is Some,
{
    match order {
        None => {},
        Some(o) => {
            lemma_sort_mem(o, g);
            assert forall|j: int|
                0 <= j < ordered_rows(order, g).len() implies (#[trigger] ordered_rows(
                order,
                g,
            )[j]).id is Some by {
                assert(g.contains(sort_rows(o, g)[j]));
                let k = choose|k: int| 0 <= k < g.len() && g[k] == sort_rows(o, g)[j];
            }
        },
    }
}

/// Scanning to the first position the row may precede places it exactly
/// where `insert_sorted` does.
pub proof fn lemma_insert_sorted_at(o: SortOrder, s: Seq<RowM>, r: RowM, j: int)
    requires
        0 <= j <= s.len(),
        forall|k: int| 0 <= k < j ==> !precedes(o, r, #[trigger] s[k]),
        j < s.len() ==> precedes(o, r, s[j]),
    ensures
        insert_sorted(o, s, r) == s.insert(j, r),
    decreases j,
{
    if j == 0 {
        if s.len() == 0 {
            assert(insert_sorted(o, s, r) =~= s.insert(0, r));
        } else {
            assert(insert_sorted(o, s, r) == seq![r] + s);
            assert(seq![r] + s =~= s.insert(0, r));
        }
    } else {
        assert(!precedes(o, r, s[0]));
        lemma_insert_sorted_at(o, s.drop_first(), r, j - 1);
        assert(seq![s[0]] + s.drop_first().insert(j - 1, r) =~= s.insert(j, r));
    }
}

/// A run of rows each of which may stand before the next.
pub open spec fn ordered_run(o: SortOrder, s: Seq<RowM>) -> bool {
    forall|i: int| 0 <= i < s.len() - 1 ==> precedes(o, #[trigger] s[i], s[i + 1])
}

/// Any two rows compare under the ordering, one way or the other.
pub proof fn lemma_precedes_total(o: SortOrder, a: RowM, b: RowM)
    ensures
        precedes(o, a, b) || precedes(o, b, a),
{
}

/// Placing a row into an ordered run leaves it ordered.
pub proof fn lemma_insert_sorted_ordered(o: SortOrder, s: Seq<RowM>, r: RowM)
    requires
        ordered_run(o, s),
    ensures
        ordered_run(o, insert_sorted(o, s, r)),
    decreases s.len(),
{
    let out = insert_sorted(o, s, r);
    if s.len() == 0 {
    } else if precedes(o, r, s[0]) {
        assert forall|i: int| 0 <= i < out.len() - 1 implies precedes(
            o,
            #[trigger] out[i],
            out[i + 1],
        ) by {
            if i == 0 {
                assert(out[0] == r);
                assert(out[1] == s[0]);
            } else {
                assert(out[i] == s[i - 1]);
                assert(out[i + 1] == s[i]);
            }
        }
    } else {
        assert(ordered_run(o, s.drop_first())) by {
            assert forall|i: int| 0 <= i < s.drop_first().len() - 1 implies precedes(
                o,
                #[trigger] s.drop_first()[i],
                s.drop_first()[i + 1],
            ) by {
                assert(s.drop_first()[i] == s[i + 1]);
                assert(s.drop_first()[i + 1] == s[i + 2]);
            }
        }
        lemma_insert_sorted_ordered(o, s.drop_first(), r);
        let rest = insert_sorted(o, s.drop_first(), r);
        lemma_precedes_total(o, r, s[0]);
        assert forall|i: int| 0 <= i < out.len() - 1 implies precedes(
            o,
            #[trigger] out[i],
            out[i + 1],
        ) by {
            if i == 0 {
                assert(out[0] == s[0]);
                assert(out[1] == rest[0]);
                if s.drop_first().len() == 0 {
                    assert(rest[0] == r);
                } else if precedes(o, r, s.drop_first()[0]) {
                    assert(rest[0] == r);
                } else {
                    assert(rest[0] == s.drop_first()[0]);
                    assert(s.drop_first()[0] == s[1]);
                }
            } else {
                assert(out[i] == rest[i - 1]);
                assert(out[i + 1] == rest[i]);
            }
        }
    }
}

/// What the ordering produces is an ordered run.
pub proof fn lemma_sort_ordered(o: SortOrder, s: Seq<RowM>)
    ensures
        ordered_run(o, sort_rows(o, s)),
    decreases s.len(),
{
    if s.len() > 0 {
        lemma_sort_ordered(o, s.drop_last());
        lemma_insert_sorted_ordered(o, sort_rows(o, s.drop_last()), s.last());
    }
}

/// The exec key of a row under the ordering.
fn key_of(o: &SortOrder, r: &Row) -> (k: i64)
    ensures
        k == sort_key(*o, r@),
{
    match o {
        SortOrder::IdAscending => match r.id {
            Some(v) => v,
            None => 0,
        },
        SortOrder::IdDescending => match r.id {
            Some(v) => v,
            None => 0,
        },
        SortOrder::FieldAscending(i) => if *i < r.fields.len() {
            r.fields[*i]
        } else {
            0
        },
        SortOrder::FieldDescending(i) => if *i < r.fields.len() {
            r.fields[*i]
        } else {
            0
        },
    }
}

/// Whether the first row may stand before the second under the ordering.
fn precedes_exec(o: &SortOrder, a: &Row, b: &Row) -> (res: bool)
    ensures
        res == precedes(*o, a@, b@),
{
    let ka = key_of(o, a);
    let kb = key_of(o, b);
    let asc = match o {
        SortOrder::IdAscending => true,
        SortOrder::FieldAscending(_) => true,
        SortOrder::IdDescending => false,
        SortOrder::FieldDescending(_) => false,
    };
    if asc {
        ka <= kb
    } else {
        ka >= kb
    }
}

/// Sorts rows by repeated placement, matching `sort_rows` exactly.
fn sort_rows_exec(order: &SortOrder, input: &Vec<Row>) -> (out: Vec<Row>)
    ensures
        rows_view(out@) == sort_rows(*order, rows_view(input@)),
{
    let ghost s0 = rows_view(input@);
    let mut out: Vec<Row> = Vec::new();
    let mut i: usize = 0;
    while i < input.len()
        invariant
            i <= input.len(),
            s0 == rows_view(input@),
            rows_view(out@) == sort_rows(*order, s0.take(i as int)),
            out.len() == i,
        decreases input.len() - i,
    {
        let r = clone_row(&input[i]);
        proof {
            assert(r@ == s0[i as int]);
        }
        let mut j: usize = 0;
        while j < out.len() && !precedes_exec(order, &r, &out[j])
            invariant
                j <= out.len(),
                r@ == s0[i as int],
                i < input.len(),
                s0 == rows_view(input@),
                rows_view(out@) == sort_rows(*order, s0.take(i as int)),
                out.len() == i,
                forall|k: int| 0 <= k < j ==> !precedes(*order, r@, #[trigger] rows_view(out@)[k]),
            decreases out.len() - j,
        {
            j = j + 1;
        }
        let ghost out_before = rows_view(out@);
        out.insert(j, r);
        proof {
            assert(s0.take(i + 1).drop_last() =~= s0.take(i as int));
            assert(s0.take(i + 1).last() == s0[i as int]);
            lemma_insert_sorted_at(*order, out_before, r@, j as int);
            assert(rows_view(out@) =~= out_before.insert(j as int, r@));
        }
        i = i + 1;
    }
    proof {
        assert(s0.take(s0.len() as int) =~= s0);
    }
    out
}

/// Filters rows by the caller's predicate ANDed, unconditionally, with
/// "primary key is not null", then applies the ordering, the offset and the
/// limit. An empty result is a success; a negative limit or offset is the
/// one failure, classified with the others.
pub fn generic_filter(
    conn: &mut Connection,
    predicate: Predicate,
    limit: Option<i64>,
    offset: Option<i64>,
    order: Option<SortOrder>,
) -> (out: StorageResult<Vec<Row>>)
    requires
        old(conn).wf(),
    ensures
        final(conn).wf(),
        final(conn).table@ == old(conn).table@,
        final(conn).table.name == old(conn).table.name,
        recorded(old(conn).metrics, final(conn).metrics, DatabaseOperation::Filter, 0),
        ({
            let t0 = old(conn).table@;
            match out {
                Ok(v) => pagination_valid(limit, offset) && rows_view(v@) == filter_result(
                    t0,
                    predicate,
                    limit,
                    offset,
                    order,
                ) && (forall|k: int|
                    0 <= k < rows_view(v@).len() ==> (#[trigger] rows_view(v@)[k]).id is Some),
                Err(e) => !pagination_valid(limit, offset) && e.kind == DatabaseError::Others,
            }
        }),
{
    let ghost t0 = conn.table@;
    let limit_ok = match limit {
        Some(l) => l >= 0,
        None => true,
    };
    let offset_ok = match offset {
        Some(off) => off >= 0,
        None => true,
    };
    if !limit_ok || !offset_ok {
        let out = Err(StorageError::new(
            DatabaseError::Others,
            "Error filtering records by predicate: negative limit or offset",
        ));
        return track_database_call(&mut conn.metrics, DatabaseOperation::Filter, 0, out);
    }
    let mut selected: Vec<Row> = Vec::new();
    let mut i: usize = 0;
    while i < conn.table.rows.len()
        invariant
            i <= conn.table.rows.len(),
            conn.table@ == t0,
            conn.table.rows.len() == t0.len(),
            rows_view(selected@) == guarded_rows(t0.take(i as int), predicate),
        decreases conn.table.rows.len() - i,
    {
        proof {
            assert(conn.table@[i as int] == t0[i as int]);
            lemma_guarded_take_step(t0, predicate, i as int);
        }
        let matched = predicate.eval(&conn.table.rows[i]);
        let has_id = match conn.table.rows[i].id {
            Some(_) => true,
            None => false,
        };
        if matched && has_id {
            let ghost selected_before = rows_view(selected@);
            selected.push(clone_row(&conn.table.rows[i]));
            proof {
                assert(rows_view(selected@) =~= selected_before.push(t0[i as int]));
            }
        }
        i = i + 1;
    }
    proof {
        assert(t0.take(t0.len() as int) =~= t0);
    }
    let ghost g = guarded_rows(t0, predicate);
    let sorted = match order {
        None => selected,
        Some(o) => sort_rows_exec(&o, &selected),
    };
    let ghost gsorted = ordered_rows(order, g);
    proof {
        assert(rows_view(sorted@) == gsorted);
    }
    let total = sorted.len();
    let start: usize = match offset {
        Some(off) => if (off as u64) <= (total as u64) {
            off as usize
        } else {
            total
        },
        None => 0,
    };
    let count: usize = match limit {
        Some(l) => if (l as u64) <= ((total - start) as u64) {
            l as usize
        } else {
            total - start
        },
        None => total - start,
    };
    let end = start + count;
    let mut page_rows: Vec<Row> = Vec::new();
    let mut k: usize = start;
    while k < end
        invariant
            start <= k <= end,
            end <= sorted.len(),
            gsorted == rows_view(sorted@),
            rows_view(page_rows@) == gsorted.subrange(start as int, k as int),
        decreases end - k,
    {
        let ghost page_before = rows_view(page_rows@);
        page_rows.push(clone_row(&sorted[k]));
        proof {
            assert(rows_view(page_rows@) =~= page_before.push(gsorted[k as int]));
            assert(gsorted.subrange(start as int, k + 1) =~= gsorted.subrange(
                start as int,
                k as int,
            ).push(gsorted[k as int]));
        }
        k = k + 1;
    }
    proof {
        assert(rows_view(page_rows@) == gsorted.subrange(start as int, end as int));
        assert(page(gsorted, limit, offset) =~= gsorted.subrange(start as int, end as int));
        lemma_guarded_sub(t0, predicate);
        lemma_ordered_ids(order, g);
        assert forall|q: int|
            0 <= q < rows_view(page_rows@).len() implies (#[trigger] rows_view(page_rows@)[q]).id
            is Some by {
            assert(rows_view(page_rows@)[q] == gsorted[start + q]);
        }
    }
    track_database_call(&mut conn.metrics, DatabaseOperation::Filter, 0, Ok(page_rows))
}

} // verus!
