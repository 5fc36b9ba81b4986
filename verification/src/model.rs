//! The storage model: rows with a nullable primary key, the per-table row
//! store, and the borrowed connection handle that every operation takes.

use vstd::prelude::*;

use crate::metrics::Metrics;

verus! {

/// One stored row: a primary key, which may be null, and the remaining
/// column values in column order.
#[derive(Debug)]
pub struct Row {
    pub id: Option<i64>,
    pub fields: Vec<i64>,
}

/// The mathematical shape of a row.
pub ghost struct RowM {
    pub id: Option<i64>,
    pub fields: Seq<i64>,
}

impl View for Row {
    type V = RowM;

    open spec fn view(&self) -> RowM {
        RowM { id: self.id, fields: self.fields@ }
    }
}

/// The mathematical contents of a sequence of rows.
pub open spec fn rows_view(s: Seq<Row>) -> Seq<RowM> {
    Seq::new(s.len(), |i: int| s[i]@)
}

/// A row set respects the primary-key constraint: no two rows carry the same
/// non-null key.
pub open spec fn table_wf(t: Seq<RowM>) -> bool {
    forall|i: int, j: int|
        0 <= i < t.len() && 0 <= j < t.len() && i != j && #[trigger] t[i].id is Some
            ==> t[i].id != #[trigger] t[j].id
}

/// Whether some row of the set carries the given non-null primary key.
pub open spec fn contains_id(t: Seq<RowM>, id: i64) -> bool {
    exists|i: int| 0 <= i < t.len() && #[trigger] t[i].id == Some(id)
}

/// One table: its registered name and its rows.
pub struct TableState {
    pub name: String,
    pub rows: Vec<Row>,
}

impl View for TableState {
    type V = Seq<RowM>;

    open spec fn view(&self) -> Seq<RowM> {
        rows_view(self.rows@)
    }
}

impl TableState {
    /// An empty table registered under the given name.
    pub fn new(name: String) -> (t: TableState)
        ensures
            t@ =~= Seq::<RowM>::empty(),
            t.name == name,
    {
        TableState { name, rows: Vec::new() }
    }
}

/// The borrowed handle every operation takes: the table it reaches and the
/// metrics the instrumentation wrapper feeds.
pub struct Connection {
    pub table: TableState,
    pub metrics: Metrics,
}

impl Connection {
    /// The invariant every operation preserves: the primary-key constraint
    /// on the table, and one metric slot per operation kind.
    pub open spec fn wf(&self) -> bool {
        &&& table_wf(self.table@)
        &&& self.metrics.wf()
    }

    /// A fresh handle over an empty table.
    pub fn new(name: String) -> (c: Connection)
        ensures
            c.wf(),
            c.table@ =~= Seq::<RowM>::empty(),
            c.table.name == name,
    {
        Connection { table: TableState::new(name), metrics: Metrics::new() }
    }
}

/// Copies a row value for value.
pub fn clone_row(r: &Row) -> (out: Row)
    ensures
        out@ == r@,
{
    let mut fields: Vec<i64> = Vec::new();
    let mut i: usize = 0;
    while i < r.fields.len()
        invariant
            i <= r.fields.len(),
            fields@ =~= r.fields@.take(i as int),
        decreases r.fields.len() - i,
    {
        fields.push(r.fields[i]);
        i = i + 1;
    }
    proof {
        assert(fields@ =~= r.fields@);
    }
    Row { id: r.id, fields }
}

} // verus!
