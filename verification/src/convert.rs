//! Shorthand for building plans: plain values as references, and calls as
//! clauses.

use vstd::prelude::*;
use vstd::pervasive::unreached;
use crate::plan::{Call, Clause, Ref};
use crate::value::{Value, ValueView};

verus! {

/// The index that a signed number names: the number itself where it is not
/// negative; below zero the count goes on downwards from the greatest index, so
/// that -1 names the greatest index, -2 the one before it.
pub open spec fn wrapped_index(n: i32) -> usize {
    if n >= 0 {
        n as usize
    } else {
        (usize::MAX + 1 + n) as usize
    }
}

/// Computes the index that a signed number names.
pub fn wrap_index(n: i32) -> (r: usize)
    ensures
        r == wrapped_index(n),
{
    if n >= 0 {
        n as usize
    } else {
        let below: i32 = -(n + 1);
        usize::MAX - (below as usize)
    }
}

/// Values that can be written where a plan wants a reference. Each kind of
/// value stands for some kinds of reference only; the others cannot be asked of
/// it.
pub trait ToRef: Sized {
    /// Whether the value can stand as a constant.
    spec fn is_constant(self) -> bool;

    /// The constant that the value stands for.
    spec fn constant(self) -> ValueView;

    /// Whether the value can name the clause of a call.
    spec fn is_call(self) -> bool;

    /// The clause of the call that the value names.
    spec fn call_clause(self) -> usize;

    /// Whether the value can name a column of a clause.
    spec fn is_column(self) -> bool;

    /// The clause and the column that the value names.
    spec fn column(self) -> (usize, usize);

    /// The reference to the constant.
    fn to_constref(self) -> (r: Ref)
        requires
            self.is_constant(),
        ensures
            r matches Ref::Constant { value } && value@ == self.constant(),
    ;

    /// The reference to the result of the call.
    fn to_callref(self) -> (r: Ref)
        requires
            self.is_call(),
        ensures
            r == (Ref::Call { clause: self.call_clause() }),
    ;

    /// The reference to the column.
    fn to_valref(self) -> (r: Ref)
        requires
            self.is_column(),
        ensures
            r == (Ref::Value { clause: self.column().0, column: self.column().1 }),
    ;
}

impl<'a> ToRef for &'a str {
    open spec fn is_constant(self) -> bool {
        true
    }

    open spec fn constant(self) -> ValueView {
        ValueView::Text(self@)
    }

    open spec fn is_call(self) -> bool {
        false
    }

    open spec fn call_clause(self) -> usize {
        0
    }

    open spec fn is_column(self) -> bool {
        false
    }

    open spec fn column(self) -> (usize, usize) {
        (0, 0)
    }

    fn to_constref(self) -> (r: Ref) {
        Ref::Constant { value: Value::Text(self.to_owned()) }
    }

    /// Cannot be asked: the value names no call.
    fn to_callref(self) -> (r: Ref) {
        unreached()
    }

    /// Cannot be asked: the value names no column.
    fn to_valref(self) -> (r: Ref) {
        unreached()
    }
}

impl ToRef for i32 {
    open spec fn is_constant(self) -> bool {
        true
    }

    open spec fn constant(self) -> ValueView {
        ValueView::Number(self as int)
    }

    open spec fn is_call(self) -> bool {
        true
    }

    open spec fn call_clause(self) -> usize {
        wrapped_index(self)
    }

    open spec fn is_column(self) -> bool {
        false
    }

    open spec fn column(self) -> (usize, usize) {
        (0, 0)
    }

    fn to_constref(self) -> (r: Ref) {
        Ref::Constant { value: Value::Number(self as i64) }
    }

    fn to_callref(self) -> (r: Ref) {
        Ref::Call { clause: wrap_index(self) }
    }

    /// Cannot be asked: the value names no column.
    fn to_valref(self) -> (r: Ref) {
        unreached()
    }
}

impl ToRef for (i32, i32) {
    open spec fn is_constant(self) -> bool {
        false
    }

    open spec fn constant(self) -> ValueView {
        ValueView::Number(0)
    }

    open spec fn is_call(self) -> bool {
        false
    }

    open spec fn call_clause(self) -> usize {
        0
    }

    open spec fn is_column(self) -> bool {
        true
    }

    open spec fn column(self) -> (usize, usize) {
        (wrapped_index(self.0), wrapped_index(self.1))
    }

    /// Cannot be asked: the value is no constant.
    fn to_constref(self) -> (r: Ref) {
        unreached()
    }

    /// Cannot be asked: the value names no call.
    fn to_callref(self) -> (r: Ref) {
        unreached()
    }

    fn to_valref(self) -> (r: Ref) {
        Ref::Value { clause: wrap_index(self.0), column: wrap_index(self.1) }
    }
}

impl ToRef for (usize, usize) {
    open spec fn is_constant(self) -> bool {
        false
    }

    open spec fn constant(self) -> ValueView {
        ValueView::Number(0)
    }

    open spec fn is_call(self) -> bool {
        false
    }

    open spec fn call_clause(self) -> usize {
        0
    }

    open spec fn is_column(self) -> bool {
        true
    }

    open spec fn column(self) -> (usize, usize) {
        self
    }

    /// Cannot be asked: the value is no constant.
    fn to_constref(self) -> (r: Ref) {
        unreached()
    }

    /// Cannot be asked: the value names no call.
    fn to_callref(self) -> (r: Ref) {
        unreached()
    }

    fn to_valref(self) -> (r: Ref) {
        Ref::Value { clause: self.0, column: self.1 }
    }
}

impl ToRef for Value {
    open spec fn is_constant(self) -> bool {
        self is Number
    }

    open spec fn constant(self) -> ValueView {
        self@
    }

    open spec fn is_call(self) -> bool {
        false
    }

    open spec fn call_clause(self) -> usize {
        0
    }

    open spec fn is_column(self) -> bool {
        false
    }

    open spec fn column(self) -> (usize, usize) {
        (0, 0)
    }

    fn to_constref(self) -> (r: Ref) {
        Ref::Constant { value: self }
    }

    /// Cannot be asked: the value names no call.
    fn to_callref(self) -> (r: Ref) {
        unreached()
    }

    /// Cannot be asked: the value names no column.
    fn to_valref(self) -> (r: Ref) {
        unreached()
    }
}

/// What can be written where a plan wants a clause.
pub trait ToClause: Sized {
    /// The clause that the value stands for.
    spec fn clause(self) -> Clause;

    /// The clause.
    fn to_clause(self) -> (c: Clause)
        ensures
            c == self.clause(),
    ;
}

impl ToClause for Clause {
    open spec fn clause(self) -> Clause {
        self
    }

    fn to_clause(self) -> (c: Clause) {
        self
    }
}

impl ToClause for Call {
    open spec fn clause(self) -> Clause {
        Clause::Call(self)
    }

    fn to_clause(self) -> (c: Clause) {
        Clause::Call(self)
    }
}

} // verus!
