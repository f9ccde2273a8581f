//! A streaming, backtracking multi-way join over an ordered plan of clauses.
//!
//! A [`Query`] is an ordered list of clauses. Each clause scans an input
//! relation under constraints, collects such a scan into one relation value, or
//! calls a function on values chosen by earlier clauses. A [`QueryIter`] walks
//! the plan depth first and hands out one combination of candidates per step:
//! a full result, or a shorter item that marks a prefix without continuation.
//!
//! The modules, from the leaves up: [`value`] holds the values and their
//! order, [`plan`] the plan and what each part of it denotes, [`validity`] the
//! test that a plan is in order for its inputs, [`search`] the tree that a walk
//! goes through, [`iter`] the walk itself, [`laws`] what holds of every walk,
//! [`convert`] shorthand for building plans, and [`key`] the integers that
//! stand for numbers given by sign and magnitude.

pub mod convert;
pub mod iter;
pub mod key;
pub mod laws;
pub mod plan;
pub mod search;
pub mod validity;
pub mod value;

pub use convert::{ToClause, ToRef};
pub use iter::QueryIter;
pub use plan::{Call, Clause, Constraint, ConstraintOp, Query, Ref, Source};
pub use value::{Comparison, Relation, Tuple, Value};
