//! Deciding whether a plan is in order for its inputs, before a walk starts.

use vstd::prelude::*;
use crate::plan::{inputs_view, Call, Clause, Query, Ref, Source};
use crate::value::{compare_tuple, lemma_compare_tuples_equal, rows_view, Comparison, Relation};

verus! {

/// Whether every row of the relation has the column.
pub fn rows_have_column(relation: &Relation, column: usize) -> (b: bool)
    ensures
        b == forall|j: int|
            0 <= j < rows_view(relation@).len() ==> column < (#[trigger] rows_view(relation@)[j]).len(),
{
    let mut j: usize = 0;
    while j < relation.len()
        invariant
            j <= relation.len(),
            forall|m: int| 0 <= m < j ==> column < (#[trigger] rows_view(relation@)[m]).len(),
        decreases relation.len() - j,
    {
        if relation[j].len() <= column {
            assert(rows_view(relation@)[j as int].len() <= column);
            return false;
        }
        j += 1;
    }
    true
}

/// Whether the relation holds no row twice.
pub fn rows_are_distinct(relation: &Relation) -> (b: bool)
    ensures
        b == rows_view(relation@).no_duplicates(),
{
    let ghost rows = rows_view(relation@);
    let mut i: usize = 0;
    while i < relation.len()
        invariant
            i <= relation.len(),
            rows == rows_view(relation@),
            forall|x: int, y: int| 0 <= x < i && x < y < rows.len() ==> rows[x] != rows[y],
        decreases relation.len() - i,
    {
        let mut j: usize = i + 1;
        while j < relation.len()
            invariant
                i < j <= relation.len(),
                rows == rows_view(relation@),
                forall|y: int| i < y < j ==> rows[i as int] != rows[y],
            decreases relation.len() - j,
        {
            proof {
                lemma_compare_tuples_equal(rows[i as int], rows[j as int]);
            }
            if compare_tuple(&relation[i], &relation[j]) == Comparison::Equal {
                assert(rows[i as int] == rows[j as int]);
                return false;
            }
            j += 1;
        }
        i += 1;
    }
    assert forall|x: int, y: int|
        0 <= x < rows.len() && 0 <= y < rows.len() && x != y implies rows[x] != rows[y] by {
        if x < y {
            assert(rows[x] != rows[y]);
        } else {
            assert(rows[y] != rows[x]);
        }
    }
    true
}

impl Ref {
    /// Decides whether the reference is in order in the clause at position
    /// `at`.
    pub fn in_order(&self, at: usize, clauses: &Vec<Clause>, inputs: &Vec<&Relation>) -> (b: bool)
        requires
            at <= clauses.len(),
        ensures
            b == self.fits(at as int, clauses@, inputs_view(inputs@)),
    {
        match self {
            Ref::Constant { value } => true,
            Ref::Value { clause, column } => {
                if *clause >= at {
                    return false;
                }
                match &clauses[*clause] {
                    Clause::Tuple(source) => {
                        if source.relation >= inputs.len() {
                            return false;
                        }
                        assert(inputs_view(inputs@)[source.relation as int] == rows_view(
                            inputs@[source.relation as int]@,
                        ));
                        rows_have_column(inputs[source.relation], *column)
                    },
                    _ => false,
                }
            },
            Ref::Tuple { clause } => {
                if *clause >= at {
                    return false;
                }
                match &clauses[*clause] {
                    Clause::Tuple(source) => true,
                    _ => false,
                }
            },
            Ref::Relation { clause } => {
                if *clause >= at {
                    return false;
                }
                match &clauses[*clause] {
                    Clause::Relation(source) => true,
                    _ => false,
                }
            },
            Ref::Call { clause } => {
                if *clause >= at {
                    return false;
                }
                match &clauses[*clause] {
                    Clause::Call(call) => true,
                    _ => false,
                }
            },
        }
    }
}

impl Source {
    /// Decides whether the scan is in order in the clause at position `at`.
    pub fn in_order(&self, at: usize, clauses: &Vec<Clause>, inputs: &Vec<&Relation>) -> (b: bool)
        requires
            at <= clauses.len(),
        ensures
            b == self.fits(at as int, clauses@, inputs_view(inputs@)),
    {
        if self.relation >= inputs.len() {
            return false;
        }
        let relation: &Relation = inputs[self.relation];
        let ghost rows = inputs_view(inputs@)[self.relation as int];
        assert(rows == rows_view(relation@));
        let mut k: usize = 0;
        while k < self.constraints.len()
            invariant
                k <= self.constraints.len(),
                at <= clauses.len(),
                self.relation < inputs.len(),
                relation == inputs@[self.relation as int],
                rows == inputs_view(inputs@)[self.relation as int],
                rows == rows_view(relation@),
                forall|m: int|
                    0 <= m < k ==> (#[trigger] self.constraints@[m]).other_ref.fits(
                        at as int,
                        clauses@,
                        inputs_view(inputs@),
                    ),
                forall|m: int, j: int|
                    0 <= m < k && 0 <= j < rows.len() ==> (#[trigger] self.constraints@[m]).my_column < (
                    #[trigger] rows[j]).len(),
            decreases self.constraints.len() - k,
        {
            let constraint = &self.constraints[k];
            if !constraint.other_ref.in_order(at, clauses, inputs) {
                return false;
            }
            if !rows_have_column(relation, constraint.my_column) {
                let ghost j: int = choose|j: int|
                    0 <= j < rows.len() && !(constraint.my_column < (#[trigger] rows[j]).len());
                assert(!(self.constraints@[k as int].my_column < rows[j].len()));
                return false;
            }
            k += 1;
        }
        true
    }
}

impl Call {
    /// Decides whether the call is in order in the clause at position `at`.
    pub fn in_order(&self, at: usize, clauses: &Vec<Clause>, inputs: &Vec<&Relation>) -> (b: bool)
        requires
            at <= clauses.len(),
        ensures
            b == self.fits(at as int, clauses@, inputs_view(inputs@)),
    {
        let mut k: usize = 0;
        while k < self.arg_refs.len()
            invariant
                k <= self.arg_refs.len(),
                at <= clauses.len(),
                forall|m: int|
                    0 <= m < k ==> (#[trigger] self.arg_refs@[m]).fits(
                        at as int,
                        clauses@,
                        inputs_view(inputs@),
                    ),
            decreases self.arg_refs.len() - k,
        {
            if !self.arg_refs[k].in_order(at, clauses, inputs) {
                return false;
            }
            k += 1;
        }
        true
    }
}

impl Clause {
    /// Decides whether the clause is in order at position `at` of the plan
    /// `clauses`.
    pub fn in_order(&self, at: usize, clauses: &Vec<Clause>, inputs: &Vec<&Relation>) -> (b: bool)
        requires
            at <= clauses.len(),
        ensures
            b == self.fits(at as int, clauses@, inputs_view(inputs@)),
    {
        match self {
            Clause::Tuple(source) => source.in_order(at, clauses, inputs),
            Clause::Relation(source) => source.in_order(at, clauses, inputs),
            Clause::Call(call) => call.in_order(at, clauses, inputs),
        }
    }
}

impl Query {
    /// Decides whether the plan is in order for `inputs`, which a walk over
    /// them asks for.
    pub fn accepts(&self, inputs: &Vec<&Relation>) -> (b: bool)
        ensures
            b == self.admits(inputs_view(inputs@)),
    {
        let mut i: usize = 0;
        while i < self.clauses.len()
            invariant
                i <= self.clauses.len(),
                forall|m: int|
                    0 <= m < i ==> (#[trigger] self.clauses@[m]).fits(
                        m,
                        self.clauses@,
                        inputs_view(inputs@),
                    ),
            decreases self.clauses.len() - i,
        {
            if !self.clauses[i].in_order(i, &self.clauses, inputs) {
                return false;
            }
            i += 1;
        }
        true
    }
}

} // verus!
