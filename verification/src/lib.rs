//! A generic data-access layer: a uniform, verified set of CRUD operations
//! (insert, update, delete, find, filter) over a storage model, with a closed
//! error taxonomy, an instrumentation wrapper, an optional-result normalizer,
//! and a pagination/filter builder that guards the primary key.
//!
//! The storage engine is modeled by the row store a [`model::Connection`]
//! lends the layer: every operation's contract is stated against the
//! mathematical contents of that store (a sequence of [`model::RowM`]), so
//! each operation's row-count, row-return and single-row semantics, and the
//! exact classification of every failure, are proved rather than assumed.
//! [`laws`] states the properties that relate the operations to one another.

pub mod changeset;
pub mod errors;
pub mod filter;
pub mod laws;
pub mod metrics;
pub mod model;
pub mod ops;
pub mod predicate;
