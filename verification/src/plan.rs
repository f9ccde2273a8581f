//! The query plan: references, constraints, sources, calls and clauses, with
//! what each of them denotes against a partial result.

use vstd::prelude::*;
use crate::value::{
    clone_tuple, compare_values, lemma_compare_values_equal, rows_view, tuple_view, value_view,
    Comparison, Relation, Value, ValueView,
};

verus! {

/// The rows of one input relation, by content.
pub type Rows = Seq<Seq<ValueView>>;

/// What a call of a named function on a list of arguments gives.
pub type Oracle = spec_fn(Seq<char>, Seq<ValueView>) -> ValueView;

/// The contents of the input relations, in order.
pub open spec fn inputs_view(inputs: Seq<&Relation>) -> Seq<Rows> {
    Seq::new(inputs.len(), |i: int| rows_view(inputs[i]@))
}

/// Whether the evaluator `eval` accepts every call and always answers with what
/// `ev` names: its answer depends on the function and the arguments alone.
pub open spec fn computes<F: Fn(&String, Vec<Value>) -> Value>(eval: F, ev: Oracle) -> bool {
    &&& forall|fun: &String, args: Vec<Value>| call_requires(eval, (fun, args))
    &&& forall|fun: &String, args: Vec<Value>, r: Value| #[trigger]
        call_ensures(eval, (fun, args), r) ==> r@ == ev(fun@, tuple_view(args@))
}

/// The comparison that a constraint applies.
#[derive(Debug, Clone, Copy, PartialEq, Eq, Structural)]
pub enum ConstraintOp {
    LT,
    LTE,
    EQ,
    NEQ,
    GT,
    GTE,
}

impl ConstraintOp {
    /// Whether `a OP b` holds. The four ordering operators are false on an
    /// unordered pair.
    pub open spec fn holds(self, a: ValueView, b: ValueView) -> bool {
        match self {
            ConstraintOp::LT => compare_values(a, b) == Comparison::Less,
            ConstraintOp::LTE => compare_values(a, b) == Comparison::Less || a == b,
            ConstraintOp::EQ => a == b,
            ConstraintOp::NEQ => a != b,
            ConstraintOp::GT => compare_values(a, b) == Comparison::Greater,
            ConstraintOp::GTE => compare_values(a, b) == Comparison::Greater || a == b,
        }
    }

    /// Applies the operator to two values.
    pub fn apply(self, a: &Value, b: &Value) -> (r: bool)
        ensures
            r == self.holds(a@, b@),
    {
        proof {
            lemma_compare_values_equal(a@, b@);
        }
        let c = a.compare(b);
        match self {
            ConstraintOp::LT => c == Comparison::Less,
            ConstraintOp::LTE => c == Comparison::Less || c == Comparison::Equal,
            ConstraintOp::EQ => c == Comparison::Equal,
            ConstraintOp::NEQ => c != Comparison::Equal,
            ConstraintOp::GT => c == Comparison::Greater,
            ConstraintOp::GTE => c == Comparison::Greater || c == Comparison::Equal,
        }
    }
}

/// A pointer into the partial result, by clause position.
#[derive(Debug, Clone)]
pub enum Ref {
    Constant { value: Value },
    Value { clause: usize, column: usize },
    Tuple { clause: usize },
    Relation { clause: usize },
    Call { clause: usize },
}

impl Ref {
    /// Whether the reference can be resolved against `prefix`: the clause it
    /// names has an entry there, of the shape that the reference expects.
    pub open spec fn resolves(self, prefix: Seq<ValueView>) -> bool {
        match self {
            Ref::Constant { value } => true,
            Ref::Value { clause, column } => {
                &&& clause < prefix.len()
                &&& prefix[clause as int] is Tuple
                &&& column < prefix[clause as int]->Tuple_0.len()
            },
            Ref::Tuple { clause } => clause < prefix.len() && prefix[clause as int] is Tuple,
            Ref::Relation { clause } => clause < prefix.len() && prefix[clause as int] is Relation,
            Ref::Call { clause } => clause < prefix.len() && prefix[clause as int].is_scalar(),
        }
    }

    /// Whether the reference is in order in the clause at position `at`: it
    /// names an earlier clause of the kind that it expects, and a column that
    /// every row of that clause's relation has.
    pub open spec fn fits(self, at: int, clauses: Seq<Clause>, inputs: Seq<Rows>) -> bool {
        match self {
            Ref::Constant { value } => true,
            Ref::Value { clause, column } => {
                &&& clause < at
                &&& clauses[clause as int] matches Clause::Tuple(source)
                &&& source.relation < inputs.len()
                &&& forall|j: int|
                    0 <= j < inputs[source.relation as int].len() ==> column < (
                    #[trigger] inputs[source.relation as int][j]).len()
            },
            Ref::Tuple { clause } => clause < at && clauses[clause as int] is Tuple,
            Ref::Relation { clause } => clause < at && clauses[clause as int] is Relation,
            Ref::Call { clause } => clause < at && clauses[clause as int] is Call,
        }
    }

    /// What the reference stands for against `prefix`.
    pub open spec fn resolved(self, prefix: Seq<ValueView>) -> ValueView {
        match self {
            Ref::Constant { value } => value@,
            Ref::Value { clause, column } => prefix[clause as int]->Tuple_0[column as int],
            Ref::Tuple { clause } => prefix[clause as int],
            Ref::Relation { clause } => prefix[clause as int],
            Ref::Call { clause } => prefix[clause as int],
        }
    }

    /// Resolves the reference against the partial result.
    pub fn resolve<'a>(&'a self, result: &'a Vec<Value>) -> (r: &'a Value)
        requires
            self.resolves(tuple_view(result@)),
        ensures
            r@ == self.resolved(tuple_view(result@)),
    {
        match self {
            Ref::Constant { value } => value,
            Ref::Value { clause, column } => {
                let entry = &result[*clause];
                assert(entry@ == tuple_view(result@)[*clause as int]);
                match entry {
                    Value::Tuple(tuple) => &tuple[*column],
                    _ => entry,
                }
            },
            Ref::Tuple { clause } => &result[*clause],
            Ref::Relation { clause } => &result[*clause],
            Ref::Call { clause } => &result[*clause],
        }
    }
}

/// One column of a candidate row compared with a reference.
#[derive(Debug, Clone)]
pub struct Constraint {
    pub my_column: usize,
    pub op: ConstraintOp,
    pub other_ref: Ref,
}

impl Constraint {
    /// Whether `row` meets the constraint, given what its reference stands for.
    pub open spec fn holds(self, row: Seq<ValueView>, other: ValueView) -> bool {
        self.op.holds(row[self.my_column as int], other)
    }

    /// Resolves the right-hand side of the constraint.
    pub fn prepare<'a>(&'a self, result: &'a Vec<Value>) -> (r: &'a Value)
        requires
            self.other_ref.resolves(tuple_view(result@)),
        ensures
            r@ == self.other_ref.resolved(tuple_view(result@)),
    {
        self.other_ref.resolve(result)
    }

    /// Tests a row against the constraint.
    pub fn test(&self, my_row: &Vec<Value>, other_value: &Value) -> (b: bool)
        requires
            self.my_column < my_row.len(),
        ensures
            b == self.holds(tuple_view(my_row@), other_value@),
    {
        self.op.apply(&my_row[self.my_column], other_value)
    }
}

/// A scan of one input relation under constraints.
#[derive(Debug, Clone)]
pub struct Source {
    pub relation: usize,
    pub constraints: Vec<Constraint>,
}

impl Source {
    /// Whether `row` meets the first `n` constraints against `prefix`.
    pub open spec fn meets(self, row: Seq<ValueView>, prefix: Seq<ValueView>, n: int) -> bool {
        forall|k: int|
            0 <= k < n && k < self.constraints@.len() ==> (#[trigger] self.constraints@[k]).holds(
                row,
                self.constraints@[k].other_ref.resolved(prefix),
            )
    }

    /// Whether `row` meets every constraint against `prefix`.
    pub open spec fn accepts(self, row: Seq<ValueView>, prefix: Seq<ValueView>) -> bool {
        self.meets(row, prefix, self.constraints@.len() as int)
    }

    /// Whether `row` has every column that is read from it: that of each
    /// constraint which is reached, the constraints before it being met.
    pub open spec fn readable(self, row: Seq<ValueView>, prefix: Seq<ValueView>) -> bool {
        forall|k: int|
            0 <= k < self.constraints@.len() && self.meets(row, prefix, k) ==> (
            #[trigger] self.constraints@[k]).my_column < row.len()
    }

    /// The test that the scan applies to each row.
    pub open spec fn accepting(self, prefix: Seq<ValueView>) -> spec_fn(Seq<ValueView>) -> bool {
        |row: Seq<ValueView>| self.accepts(row, prefix)
    }

    /// The rows of `rows` that meet every constraint, in order.
    pub open spec fn keep(self, rows: Rows, prefix: Seq<ValueView>) -> Rows {
        rows.filter(self.accepting(prefix))
    }

    /// The rows of the scanned relation that meet every constraint, in order.
    pub open spec fn filtered(self, inputs: Seq<Rows>, prefix: Seq<ValueView>) -> Rows {
        self.keep(inputs[self.relation as int], prefix)
    }

    /// Whether the scan can run: the relation exists, every reference resolves,
    /// and every row has the columns that are read from it.
    pub open spec fn scannable(self, inputs: Seq<Rows>, prefix: Seq<ValueView>) -> bool {
        &&& self.relation < inputs.len()
        &&& forall|k: int|
            0 <= k < self.constraints@.len() ==> (#[trigger] self.constraints@[k]).other_ref.resolves(
                prefix,
            )
        &&& forall|j: int|
            0 <= j < inputs[self.relation as int].len() ==> self.readable(
                #[trigger] inputs[self.relation as int][j],
                prefix,
            )
    }

    /// Whether the scan is in order in the clause at position `at`.
    pub open spec fn fits(self, at: int, clauses: Seq<Clause>, inputs: Seq<Rows>) -> bool {
        &&& self.relation < inputs.len()
        &&& forall|k: int|
            0 <= k < self.constraints@.len() ==> (#[trigger] self.constraints@[k]).other_ref.fits(
                at,
                clauses,
                inputs,
            )
        &&& forall|k: int, j: int|
            0 <= k < self.constraints@.len() && 0 <= j < inputs[self.relation as int].len() ==> (
            #[trigger] self.constraints@[k]).my_column < (#[trigger] inputs[self.relation as int][j]).len()
    }

    proof fn lemma_keep_push(self, rows: Rows, row: Seq<ValueView>, prefix: Seq<ValueView>)
        ensures
            self.keep(rows.push(row), prefix) == if self.accepts(row, prefix) {
                self.keep(rows, prefix).push(row)
            } else {
                self.keep(rows, prefix)
            },
    {
        rows.lemma_filter_push(row, self.accepting(prefix));
    }

    /// Filters the scanned relation against the constraints.
    pub fn constrained_to(&self, inputs: &Vec<&Relation>, result: &Vec<Value>) -> (out: Relation)
        requires
            self.scannable(inputs_view(inputs@), tuple_view(result@)),
        ensures
            rows_view(out@) == self.filtered(inputs_view(inputs@), tuple_view(result@)),
    {
        let ghost prefix = tuple_view(result@);
        let mut prepared: Vec<&Value> = Vec::new();
        let mut k: usize = 0;
        while k < self.constraints.len()
            invariant
                k <= self.constraints.len(),
                prepared.len() == k,
                prefix == tuple_view(result@),
                forall|j: int|
                    0 <= j < self.constraints@.len() ==> (#[trigger] self.constraints@[j]).other_ref.resolves(
                        prefix,
                    ),
                forall|j: int|
                    0 <= j < k ==> (#[trigger] prepared@[j])@ == self.constraints@[j].other_ref.resolved(
                        prefix,
                    ),
            decreases self.constraints.len() - k,
        {
            let value = self.constraints[k].prepare(result);
            prepared.push(value);
            k += 1;
        }
        let input: &Relation = inputs[self.relation];
        let ghost rows = rows_view(input@);
        assert(rows == inputs_view(inputs@)[self.relation as int]);
        let mut out: Vec<Vec<Value>> = Vec::new();
        let mut r: usize = 0;
        proof {
            reveal(Seq::filter);
            assert(rows.take(0) =~= Seq::<Seq<ValueView>>::empty());
            assert(rows_view(out@) =~= self.keep(rows.take(0), prefix));
        }
        while r < input.len()
            invariant
                r <= input.len(),
                rows == rows_view(input@),
                prepared.len() == self.constraints.len(),
                forall|j: int|
                    0 <= j < prepared.len() ==> (#[trigger] prepared@[j])@
                        == self.constraints@[j].other_ref.resolved(prefix),
                forall|j: int| 0 <= j < rows.len() ==> self.readable(#[trigger] rows[j], prefix),
                rows_view(out@) == self.keep(rows.take(r as int), prefix),
            decreases input.len() - r,
        {
            let row = &input[r];
            assert(tuple_view(row@) == rows[r as int]);
            let mut ok: bool = true;
            let mut c: usize = 0;
            while c < self.constraints.len() && ok
                invariant
                    c <= self.constraints.len(),
                    prepared.len() == self.constraints.len(),
                    rows == rows_view(input@),
                    r < input.len(),
                    row == input@[r as int],
                    forall|j: int|
                        0 <= j < prepared.len() ==> (#[trigger] prepared@[j])@
                            == self.constraints@[j].other_ref.resolved(prefix),
                    self.readable(rows[r as int], prefix),
                    ok == self.meets(rows[r as int], prefix, c as int),
                decreases self.constraints.len() - c,
            {
                assert(self.constraints@[c as int].my_column < rows[r as int].len());
                ok = self.constraints[c].test(row, prepared[c]);
                c += 1;
            }
            assert(ok == self.accepts(rows[r as int], prefix));
            proof {
                self.lemma_keep_push(rows.take(r as int), rows[r as int], prefix);
                assert(rows.take(r as int).push(rows[r as int]) =~= rows.take(r + 1));
            }
            if ok {
                let copy = clone_tuple(row);
                out.push(copy);
                assert(rows_view(out@) =~= self.keep(rows.take(r as int), prefix).push(rows[r as int]));
            }
            r += 1;
        }
        assert(rows.take(input.len() as int) =~= rows);
        out
    }
}

/// A call of a named function on values chosen by earlier clauses.
#[derive(Debug, Clone)]
pub struct Call {
    pub fun: String,
    pub arg_refs: Vec<Ref>,
}

impl Call {
    /// The arguments of the call against `prefix`, in order.
    pub open spec fn args(self, prefix: Seq<ValueView>) -> Seq<ValueView> {
        Seq::new(self.arg_refs@.len(), |k: int| self.arg_refs@[k].resolved(prefix))
    }

    /// Whether every argument resolves against `prefix`.
    pub open spec fn callable(self, prefix: Seq<ValueView>) -> bool {
        forall|k: int|
            0 <= k < self.arg_refs@.len() ==> (#[trigger] self.arg_refs@[k]).resolves(prefix)
    }

    /// Whether the call is in order in the clause at position `at`.
    pub open spec fn fits(self, at: int, clauses: Seq<Clause>, inputs: Seq<Rows>) -> bool {
        forall|k: int|
            0 <= k < self.arg_refs@.len() ==> (#[trigger] self.arg_refs@[k]).fits(
                at,
                clauses,
                inputs,
            )
    }

    /// Resolves the arguments, hands the evaluator copies of them and returns
    /// its answer.
    pub fn eval<F: Fn(&String, Vec<Value>) -> Value>(&self, result: &Vec<Value>, eval: &F) -> (v:
        Value)
        requires
            self.callable(tuple_view(result@)),
            forall|a: Vec<Value>| call_requires(*eval, (&self.fun, a)),
        ensures
            exists|a: Vec<Value>|
                tuple_view(a@) == self.args(tuple_view(result@)) && #[trigger] call_ensures(
                    *eval,
                    (&self.fun, a),
                    v,
                ),
            forall|ev: Oracle|
                computes(*eval, ev) ==> v@ == #[trigger] ev(self.fun@, self.args(tuple_view(result@))),
    {
        let ghost prefix = tuple_view(result@);
        let mut args: Vec<Value> = Vec::new();
        let mut k: usize = 0;
        while k < self.arg_refs.len()
            invariant
                k <= self.arg_refs.len(),
                args.len() == k,
                prefix == tuple_view(result@),
                self.callable(prefix),
                forall|j: int|
                    0 <= j < k ==> value_view(#[trigger] args@[j]) == self.arg_refs@[j].resolved(
                        prefix,
                    ),
            decreases self.arg_refs.len() - k,
        {
            let arg = self.arg_refs[k].resolve(result).clone();
            args.push(arg);
            k += 1;
        }
        assert(tuple_view(args@) =~= self.args(prefix));
        let ghost handed = args;
        let v = eval(&self.fun, args);
        assert(call_ensures(*eval, (&self.fun, handed), v));
        v
    }
}

/// One step of a plan.
#[derive(Debug, Clone)]
pub enum Clause {
    /// One candidate for each row that the scan keeps.
    Tuple(Source),
    /// One candidate: the relation of the rows that the scan keeps.
    Relation(Source),
    /// One candidate: the answer of the call.
    Call(Call),
}

impl Clause {
    /// The candidates of the clause against `prefix`, in order, where `ev` says
    /// what calls give.
    pub open spec fn candidates(self, inputs: Seq<Rows>, prefix: Seq<ValueView>, ev: Oracle) -> Seq<
        ValueView,
    > {
        match self {
            Clause::Tuple(source) => {
                let rows = source.filtered(inputs, prefix);
                Seq::new(rows.len(), |k: int| ValueView::Tuple(rows[k]))
            },
            Clause::Relation(source) => seq![ValueView::Relation(source.filtered(inputs, prefix))],
            Clause::Call(call) => seq![ev(call.fun@, call.args(prefix))],
        }
    }

    /// Whether the clause can be evaluated against `prefix`.
    pub open spec fn ready(self, inputs: Seq<Rows>, prefix: Seq<ValueView>) -> bool {
        match self {
            Clause::Tuple(source) => source.scannable(inputs, prefix),
            Clause::Relation(source) => source.scannable(inputs, prefix),
            Clause::Call(call) => call.callable(prefix),
        }
    }

    /// Whether the clause is in order at position `at` of the plan `clauses`.
    pub open spec fn fits(self, at: int, clauses: Seq<Clause>, inputs: Seq<Rows>) -> bool {
        match self {
            Clause::Tuple(source) => source.fits(at, clauses, inputs),
            Clause::Relation(source) => source.fits(at, clauses, inputs),
            Clause::Call(call) => call.fits(at, clauses, inputs),
        }
    }

    /// The candidates of the clause against the partial result.
    pub fn constrained_to<F: Fn(&String, Vec<Value>) -> Value>(
        &self,
        inputs: &Vec<&Relation>,
        result: &Vec<Value>,
        eval: &F,
    ) -> (out: Vec<Value>)
        requires
            self.ready(inputs_view(inputs@), tuple_view(result@)),
            forall|fun: &String, a: Vec<Value>| call_requires(*eval, (fun, a)),
        ensures
            !(self is Call) ==> forall|ev: Oracle|
                tuple_view(out@) == #[trigger] self.candidates(
                    inputs_view(inputs@),
                    tuple_view(result@),
                    ev,
                ),
            self matches Clause::Call(call) ==> out.len() == 1 && exists|a: Vec<Value>|
                tuple_view(a@) == call.args(tuple_view(result@)) && #[trigger] call_ensures(
                    *eval,
                    (&call.fun, a),
                    out@[0],
                ),
            forall|ev: Oracle|
                computes(*eval, ev) ==> tuple_view(out@) == #[trigger] self.candidates(
                    inputs_view(inputs@),
                    tuple_view(result@),
                    ev,
                ),
    {
        match self {
            Clause::Tuple(source) => {
                let relation = source.constrained_to(inputs, result);
                let ghost rows = rows_view(relation@);
                let mut out: Vec<Value> = Vec::new();
                let ghost all = relation@;
                for row in it: relation.into_iter()
                    invariant
                        it.seq() == all,
                        rows == rows_view(all),
                        out.len() == it.index(),
                        forall|j: int|
                            0 <= j < out.len() ==> value_view(#[trigger] out@[j]) == ValueView::Tuple(
                                rows[j],
                            ),
                {
                    assert(tuple_view(row@) == rows[it.index()]);
                    out.push(Value::Tuple(row));
                }
                assert forall|ev: Oracle|
                    tuple_view(out@) == #[trigger] self.candidates(
                        inputs_view(inputs@),
                        tuple_view(result@),
                        ev,
                    ) by {
                    assert(tuple_view(out@) =~= self.candidates(
                        inputs_view(inputs@),
                        tuple_view(result@),
                        ev,
                    ));
                }
                out
            },
            Clause::Relation(source) => {
                let relation = source.constrained_to(inputs, result);
                let out = vec![Value::Relation(relation)];
                assert forall|ev: Oracle|
                    tuple_view(out@) == #[trigger] self.candidates(
                        inputs_view(inputs@),
                        tuple_view(result@),
                        ev,
                    ) by {
                    assert(tuple_view(out@) =~= self.candidates(
                        inputs_view(inputs@),
                        tuple_view(result@),
                        ev,
                    ));
                }
                out
            },
            Clause::Call(call) => {
                let value = call.eval(result, eval);
                let out = vec![value];
                assert forall|ev: Oracle| computes(*eval, ev) implies tuple_view(out@)
                    == #[trigger] self.candidates(
                    inputs_view(inputs@),
                    tuple_view(result@),
                    ev,
                ) by {
                    assert(tuple_view(out@) =~= self.candidates(
                        inputs_view(inputs@),
                        tuple_view(result@),
                        ev,
                    ));
                }
                out
            },
        }
    }
}

/// An ordered plan of clauses. A clause is known by its position.
#[derive(Debug, Clone)]
pub struct Query {
    pub clauses: Vec<Clause>,
}

impl Query {
    /// Whether the plan is in order for `inputs`: every scan names an input
    /// relation, every reference names an earlier clause of the kind that it
    /// expects, and every row has the columns that are read from it.
    pub open spec fn admits(self, inputs: Seq<Rows>) -> bool {
        forall|i: int|
            0 <= i < self.clauses@.len() ==> (#[trigger] self.clauses@[i]).fits(
                i,
                self.clauses@,
                inputs,
            )
    }
}

} // verus!
