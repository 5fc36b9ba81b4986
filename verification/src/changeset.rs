//! Changesets: partial column-to-value mappings that update operations
//! apply. An empty changeset is a distinguishable condition of its own.

use vstd::prelude::*;

use crate::model::{Row, RowM};
use crate::model::clone_row;

verus! {

/// A partial mapping from column position to new value, applied in order;
/// a later assignment to the same column wins. An assignment outside the
/// row's columns sets nothing. The primary key is not addressable.
#[derive(Debug)]
pub struct Changeset {
    pub assignments: Vec<(usize, i64)>,
}

impl View for Changeset {
    type V = Seq<(usize, i64)>;

    open spec fn view(&self) -> Seq<(usize, i64)> {
        self.assignments@
    }
}

/// The row that results from applying the assignments, in order, to a row.
pub open spec fn apply_assignments(a: Seq<(usize, i64)>, r: RowM) -> RowM
    decreases a.len(),
{
    if a.len() == 0 {
        r
    } else {
        let prev = apply_assignments(a.drop_last(), r);
        let (i, v) = a.last();
        if i < prev.fields.len() {
            RowM { id: prev.id, fields: prev.fields.update(i as int, v) }
        } else {
            prev
        }
    }
}

/// Applying assignments never touches the primary key and never changes the
/// number of columns.
pub proof fn lemma_apply_assignments_frame(a: Seq<(usize, i64)>, r: RowM)
    ensures
        apply_assignments(a, r).id == r.id,
        apply_assignments(a, r).fields.len() == r.fields.len(),
    decreases a.len(),
{
    if a.len() > 0 {
        lemma_apply_assignments_frame(a.drop_last(), r);
    }
}

impl Changeset {
    /// A changeset that sets no columns.
    pub fn empty() -> (c: Changeset)
        ensures
            c@ =~= Seq::<(usize, i64)>::empty(),
    {
        Changeset { assignments: Vec::new() }
    }

    /// Extends this changeset with one more assignment.
    pub fn set_column(&mut self, column: usize, value: i64)
        ensures
            final(self)@ == old(self)@.push((column, value)),
    {
        self.assignments.push((column, value));
    }

    /// Whether this changeset carries no settable columns.
    pub fn is_empty(&self) -> (b: bool)
        ensures
            b == (self@.len() == 0),
    {
        self.assignments.len() == 0
    }

    /// The row with this changeset's assignments applied.
    pub fn apply_to(&self, r: &Row) -> (out: Row)
        ensures
            out@ == apply_assignments(self@, r@),
    {
        let mut out = clone_row(r);
        let mut k: usize = 0;
        while k < self.assignments.len()
            invariant
                k <= self.assignments.len(),
                out@ == apply_assignments(self@.take(k as int), r@),
            decreases self.assignments.len() - k,
        {
            let (i, v) = self.assignments[k];
            proof {
                assert(self@.take(k + 1).drop_last() =~= self@.take(k as int));
                assert(self@.take(k + 1).last() == (i, v));
            }
            if i < out.fields.len() {
                out.fields.set(i, v);
            }
            k = k + 1;
        }
        proof {
            assert(self@.take(self@.len() as int) =~= self@);
        }
        out
    }
}

} // verus!
