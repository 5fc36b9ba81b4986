//! Instrumentation: a monotonic call counter and an elapsed-time total for
//! every operation kind, and the wrapper that records them without ever
//! altering the operation's outcome.

use vstd::prelude::*;

verus! {

/// The kind tag of every storage operation, used to key the metrics.
#[derive(Clone, Copy, Debug, PartialEq, Eq, Structural)]
pub enum DatabaseOperation {
    FindOne,
    Filter,
    Update,
    Insert,
    Delete,
    DeleteWithResult,
    UpdateWithResults,
    UpdateOne,
    Count,
}

/// How many operation kinds there are.
pub const OPERATION_KINDS: usize = 9;

impl DatabaseOperation {
    /// The position of this operation kind in the metric tables.
    pub open spec fn index_spec(self) -> int {
        match self {
            DatabaseOperation::FindOne => 0,
            DatabaseOperation::Filter => 1,
            DatabaseOperation::Update => 2,
            DatabaseOperation::Insert => 3,
            DatabaseOperation::Delete => 4,
            DatabaseOperation::DeleteWithResult => 5,
            DatabaseOperation::UpdateWithResults => 6,
            DatabaseOperation::UpdateOne => 7,
            DatabaseOperation::Count => 8,
        }
    }

    /// The label under which this operation kind is reported.
    pub open spec fn label_spec(self) -> Seq<char> {
        match self {
            DatabaseOperation::FindOne => "FindOne"@,
            DatabaseOperation::Filter => "Filter"@,
            DatabaseOperation::Update => "Update"@,
            DatabaseOperation::Insert => "Insert"@,
            DatabaseOperation::Delete => "Delete"@,
            DatabaseOperation::DeleteWithResult => "DeleteWithResult"@,
            DatabaseOperation::UpdateWithResults => "UpdateWithResults"@,
            DatabaseOperation::UpdateOne => "UpdateOne"@,
            DatabaseOperation::Count => "Count"@,
        }
    }

    /// The position of this operation kind in the metric tables.
    pub fn index(&self) -> (i: usize)
        ensures
            i == self.index_spec(),
            i < OPERATION_KINDS,
    {
        match self {
            DatabaseOperation::FindOne => 0,
            DatabaseOperation::Filter => 1,
            DatabaseOperation::Update => 2,
            DatabaseOperation::Insert => 3,
            DatabaseOperation::Delete => 4,
            DatabaseOperation::DeleteWithResult => 5,
            DatabaseOperation::UpdateWithResults => 6,
            DatabaseOperation::UpdateOne => 7,
            DatabaseOperation::Count => 8,
        }
    }

    /// The attribute value under which this operation kind is reported.
    pub fn label(&self) -> (r: &'static str)
        ensures
            r@ == self.label_spec(),
    {
        match self {
            DatabaseOperation::FindOne => "FindOne",
            DatabaseOperation::Filter => "Filter",
            DatabaseOperation::Update => "Update",
            DatabaseOperation::Insert => "Insert",
            DatabaseOperation::Delete => "Delete",
            DatabaseOperation::DeleteWithResult => "DeleteWithResult",
            DatabaseOperation::UpdateWithResults => "UpdateWithResults",
            DatabaseOperation::UpdateOne => "UpdateOne",
            DatabaseOperation::Count => "Count",
        }
    }
}

/// Addition on a counter that can no longer move once it is saturated.
pub open spec fn sat_add_spec(a: u64, b: u64) -> u64 {
    if a + b > u64::MAX {
        u64::MAX
    } else {
        (a + b) as u64
    }
}

/// A counter increment keyed by position: every other position is untouched.
pub open spec fn bumped_at(s: Seq<u64>, i: int, by: u64) -> Seq<u64> {
    s.update(i, sat_add_spec(s[i], by))
}

/// Per-operation call counters and elapsed-time totals for one table.
pub struct Metrics {
    pub counts: Vec<u64>,
    pub time_nanos: Vec<u64>,
}

impl Metrics {
    /// One slot per operation kind.
    pub open spec fn wf(&self) -> bool {
        &&& self.counts@.len() == OPERATION_KINDS
        &&& self.time_nanos@.len() == OPERATION_KINDS
    }

    /// Fresh metrics: every counter and every time total at zero.
    pub fn new() -> (m: Metrics)
        ensures
            m.wf(),
            forall|i: int| 0 <= i < OPERATION_KINDS ==> m.counts@[i] == 0,
            forall|i: int| 0 <= i < OPERATION_KINDS ==> m.time_nanos@[i] == 0,
    {
        let mut counts: Vec<u64> = Vec::new();
        let mut time_nanos: Vec<u64> = Vec::new();
        let mut i: usize = 0;
        while i < OPERATION_KINDS
            invariant
                i <= OPERATION_KINDS,
                counts@.len() == i,
                time_nanos@.len() == i,
                forall|j: int| 0 <= j < i ==> counts@[j] == 0,
                forall|j: int| 0 <= j < i ==> time_nanos@[j] == 0,
            decreases OPERATION_KINDS - i,
        {
            counts.push(0);
            time_nanos.push(0);
            i = i + 1;
        }
        Metrics { counts, time_nanos }
    }
}

/// Saturating addition on a `u64` counter.
pub fn sat_add(a: u64, b: u64) -> (r: u64)
    ensures
        r == sat_add_spec(a, b),
{
    if a > u64::MAX - b {
        u64::MAX
    } else {
        a + b
    }
}

/// What one recorded observation does to the metrics: the counter of the
/// operation's slot moves up by one, the time total by the elapsed time, and
/// nothing else changes.
pub open spec fn recorded(m0: Metrics, m1: Metrics, op: DatabaseOperation, elapsed_nanos: u64) -> bool {
    &&& m1.counts@ == bumped_at(m0.counts@, op.index_spec(), 1)
    &&& m1.time_nanos@ == bumped_at(m0.time_nanos@, op.index_spec(), elapsed_nanos)
}

/// The instrumentation wrapper: records one call of the given operation kind
/// and its elapsed time, and hands the operation's outcome back unchanged.
pub fn track_database_call<U>(
    metrics: &mut Metrics,
    operation: DatabaseOperation,
    elapsed_nanos: u64,
    output: U,
) -> (r: U)
    requires
        old(metrics).wf(),
    ensures
        final(metrics).wf(),
        recorded(*old(metrics), *final(metrics), operation, elapsed_nanos),
        r == output,
{
    let i = operation.index();
    let c = sat_add(metrics.counts[i], 1);
    metrics.counts.set(i, c);
    let t = sat_add(metrics.time_nanos[i], elapsed_nanos);
    metrics.time_nanos.set(i, t);
    output
}

} // verus!
