//! Predicates: composable boolean expressions over a row's columns,
//! supplied by the caller and evaluated by the layer, never parsed from text.

use vstd::prelude::*;

use crate::model::{Row, RowM};

verus! {

/// A boolean expression over an entity's columns. `IdEq` speaks of the
/// primary key; a null key satisfies no comparison. Field comparisons
/// address a column by its position among the non-key columns, and a
/// position outside the row holds of nothing.
#[derive(Debug)]
pub enum Predicate {
    /// Holds of every row.
    All,
    /// The primary key is non-null and equals the value.
    IdEq(i64),
    /// The column at the position equals the value.
    FieldEq(usize, i64),
    /// The column at the position is strictly below the value.
    FieldLt(usize, i64),
    And(Box<Predicate>, Box<Predicate>),
    Or(Box<Predicate>, Box<Predicate>),
    Not(Box<Predicate>),
}

impl Predicate {
    /// What it means for a row to satisfy this predicate.
    pub open spec fn accepts(self, r: RowM) -> bool
        decreases self,
    {
        match self {
            Predicate::All => true,
            Predicate::IdEq(v) => r.id == Some(v),
            Predicate::FieldEq(i, v) => i < r.fields.len() && r.fields[i as int] == v,
            Predicate::FieldLt(i, v) => i < r.fields.len() && r.fields[i as int] < v,
            Predicate::And(a, b) => a.accepts(r) && b.accepts(r),
            Predicate::Or(a, b) => a.accepts(r) || b.accepts(r),
            Predicate::Not(a) => !a.accepts(r),
        }
    }

    /// Evaluates this predicate on a row.
    pub fn eval(&self, r: &Row) -> (b: bool)
        ensures
            b == self.accepts(r@),
        decreases *self,
    {
        match self {
            Predicate::All => true,
            Predicate::IdEq(v) => match r.id {
                Some(id) => id == *v,
                None => false,
            },
            Predicate::FieldEq(i, v) => *i < r.fields.len() && r.fields[*i] == *v,
            Predicate::FieldLt(i, v) => *i < r.fields.len() && r.fields[*i] < *v,
            Predicate::And(a, b) => a.eval(r) && b.eval(r),
            Predicate::Or(a, b) => a.eval(r) || b.eval(r),
            Predicate::Not(a) => !a.eval(r),
        }
    }
}

} // verus!
