//! What holds of every walk: the properties of the items that a query yields.

use vstd::prelude::*;
use vstd::seq_lib::lemma_no_dup_in_concat;
use crate::key::{lemma_flip_mirrors, order_key};
use crate::plan::{Clause, ConstraintOp, Oracle, Query, Rows, Source};
use crate::search::{Item, Setting};
use crate::value::{
    compare_values, lemma_compare_values_equal, lemma_compare_values_flipped, Comparison, ValueView,
};

verus! {

impl Setting {
    /// Whether every entry of `item` from position `from` on is a candidate of
    /// its clause against the entries before it.
    pub open spec fn chosen_from(self, item: Item, from: int) -> bool {
        forall|i: int|
            from <= i < item.len() ==> self.options(item.take(i)).contains(#[trigger] item[i])
    }

    /// Whether `item` is a combination of candidates: every entry is a
    /// candidate of its clause against the entries before it.
    pub open spec fn combines(self, item: Item) -> bool {
        item.len() <= self.clauses.len() && self.chosen_from(item, 0)
    }

    /// Every item below `prefix` extends it by candidates, and the walk stops at
    /// the item.
    pub proof fn lemma_items_extend(self, prefix: Item, n: int)
        requires
            prefix.len() <= self.clauses.len(),
            0 <= n < self.items(prefix).len(),
        ensures
            prefix.len() <= self.items(prefix)[n].len() <= self.clauses.len(),
            self.items(prefix)[n].take(prefix.len() as int) == prefix,
            self.chosen_from(self.items(prefix)[n], prefix.len() as int),
            self.stops(self.items(prefix)[n]),
        decreases self.clauses.len() - prefix.len(), 1int, 0int,
    {
        if self.stops(prefix) {
            assert(prefix.take(prefix.len() as int) =~= prefix);
        } else {
            self.lemma_items_from_extend(prefix, 0, n);
        }
    }

    /// Every item below the extensions of `prefix` from the `k`-th on extends
    /// `prefix` by candidates, and the walk stops at the item.
    pub proof fn lemma_items_from_extend(self, prefix: Item, k: int, n: int)
        requires
            prefix.len() < self.clauses.len(),
            0 <= k,
            0 <= n < self.items_from(prefix, k).len(),
        ensures
            prefix.len() < self.items_from(prefix, k)[n].len() <= self.clauses.len(),
            self.items_from(prefix, k)[n].take(prefix.len() as int) == prefix,
            self.chosen_from(self.items_from(prefix, k)[n], prefix.len() as int),
            self.stops(self.items_from(prefix, k)[n]),
        decreases self.clauses.len() - prefix.len(), 0int, self.options(prefix).len() - k,
    {
        let child = prefix.push(self.options(prefix)[k]);
        let below = self.items(child);
        if n < below.len() {
            self.lemma_items_extend(child, n);
            let item = below[n];
            assert(item == self.items_from(prefix, k)[n]);
            assert(item.take(prefix.len() as int) =~= child.take(prefix.len() as int));
            assert(child.take(prefix.len() as int) =~= prefix);
            assert(item[prefix.len() as int] == item.take(child.len() as int)[prefix.len() as int]);
            assert(self.options(prefix).contains(self.options(prefix)[k]));
        } else {
            self.lemma_items_from_extend(prefix, k + 1, n - below.len());
        }
    }
}

/// Every item that a walk yields has at most one entry for each clause, and
/// each entry is a candidate of its clause against the entries before it.
pub proof fn law_items_combine(s: Setting, n: int)
    requires
        0 <= n < s.all_items().len(),
    ensures
        s.combines(s.all_items()[n]),
{
    s.lemma_items_extend(Seq::empty(), n);
}

/// An entry that is a candidate of a scan is one of the rows that the scan
/// keeps: a row of the scanned relation that meets every constraint of the
/// clause, each evaluated against the entries before it.
pub proof fn law_constraints_hold(s: Setting, item: Item, i: int, k: int)
    requires
        s.combines(item),
        0 <= i < item.len(),
        s.clauses[i] matches Clause::Tuple(source) && 0 <= k < source.constraints@.len()
            && source.relation < s.inputs.len(),
    ensures
        item[i] is Tuple,
        s.inputs[s.clauses[i]->Tuple_0.relation as int].contains(item[i]->Tuple_0),
        s.clauses[i]->Tuple_0.constraints@[k].holds(
            item[i]->Tuple_0,
            s.clauses[i]->Tuple_0.constraints@[k].other_ref.resolved(item.take(i)),
        ),
{
    let source = s.clauses[i]->Tuple_0;
    let before = item.take(i);
    let rows = source.filtered(s.inputs, before);
    let options = s.options(before);
    assert(options.contains(item[i]));
    let j: int = choose|j: int| 0 <= j < options.len() && options[j] == item[i];
    assert(item[i] == ValueView::Tuple(rows[j]));
    s.inputs[source.relation as int].lemma_filter_pred(source.accepting(before), j);
    assert(source.accepts(rows[j], before));
    assert(rows.contains(rows[j]));
    s.inputs[source.relation as int].lemma_filter_contains_rev(source.accepting(before), rows[j]);
}

/// An entry that is the candidate of a relation clause is the relation of the
/// rows that the scan keeps, each of which meets every constraint.
pub proof fn law_relation_rows_hold(s: Setting, item: Item, i: int, j: int)
    requires
        s.combines(item),
        0 <= i < item.len(),
        s.clauses[i] matches Clause::Relation(source) && 0 <= j < source.filtered(
            s.inputs,
            item.take(i),
        ).len(),
    ensures
        item[i] == ValueView::Relation(s.clauses[i]->Relation_0.filtered(s.inputs, item.take(i))),
        s.clauses[i]->Relation_0.accepts(
            s.clauses[i]->Relation_0.filtered(s.inputs, item.take(i))[j],
            item.take(i),
        ),
{
    let source = s.clauses[i]->Relation_0;
    let before = item.take(i);
    let options = s.options(before);
    assert(options.contains(item[i]));
    s.inputs[source.relation as int].lemma_filter_pred(source.accepting(before), j);
}

/// An item that is shorter than the plan marks a dead end: the clause that
/// follows it has no candidate against it.
pub proof fn law_short_item_is_dead_end(s: Setting, n: int)
    requires
        0 <= n < s.all_items().len(),
        s.all_items()[n].len() < s.clauses.len(),
    ensures
        s.options(s.all_items()[n]).len() == 0,
{
    s.lemma_items_extend(Seq::empty(), n);
}

/// A relation clause has exactly one candidate, the relation of the rows that
/// its scan keeps, also where the scan keeps none.
pub proof fn law_relation_clause_has_one_candidate(
    source: Source,
    inputs: Seq<Rows>,
    prefix: Item,
    ev: Oracle,
)
    ensures
        Clause::Relation(source).candidates(inputs, prefix, ev) == seq![
            ValueView::Relation(source.filtered(inputs, prefix)),
        ],
        Clause::Relation(source).candidates(inputs, prefix, ev).len() == 1,
{
}

/// A plan without clauses yields the empty item and nothing else.
pub proof fn law_empty_plan(s: Setting)
    requires
        s.clauses.len() == 0,
    ensures
        s.all_items() == seq![Seq::<ValueView>::empty()],
{
}

impl Setting {
    /// The test for a full result: one entry for each clause.
    pub open spec fn full(self) -> spec_fn(Item) -> bool {
        |item: Item| item.len() == self.clauses.len()
    }

    /// The combinations of candidates that extend `prefix` to a full result,
    /// in the order of the candidates.
    pub open spec fn joins(self, prefix: Item) -> Seq<Item>
        decreases self.clauses.len() - prefix.len(), 1int, 0int,
    {
        if prefix.len() >= self.clauses.len() {
            seq![prefix]
        } else {
            self.joins_from(prefix, 0)
        }
    }

    /// The combinations that extend `prefix` by its candidates from the `k`-th
    /// on to a full result.
    pub open spec fn joins_from(self, prefix: Item, k: int) -> Seq<Item>
        decreases self.clauses.len() - prefix.len(), 0int, self.options(prefix).len() - k,
    {
        if prefix.len() >= self.clauses.len() || k < 0 || k >= self.options(prefix).len() {
            Seq::empty()
        } else {
            self.joins(prefix.push(self.options(prefix)[k])) + self.joins_from(prefix, k + 1)
        }
    }

    /// The full results, in the order in which the walk yields them.
    pub open spec fn matches(self) -> Seq<Item> {
        self.all_items().filter(self.full())
    }

    /// The full items below `prefix` are the combinations that extend it.
    pub proof fn lemma_full_items(self, prefix: Item)
        requires
            prefix.len() <= self.clauses.len(),
        ensures
            self.items(prefix).filter(self.full()) == self.joins(prefix),
        decreases self.clauses.len() - prefix.len(), 1int, 0int,
    {
        if self.stops(prefix) {
            let none = Seq::<Item>::empty();
            assert(seq![prefix] =~= none.push(prefix));
            none.lemma_filter_push(prefix, self.full());
            assert(none.filter(self.full()) =~= none) by {
                reveal(Seq::filter);
            }
            if prefix.len() < self.clauses.len() {
                assert(self.joins_from(prefix, 0) =~= none);
            }
        } else {
            self.lemma_full_items_from(prefix, 0);
        }
    }

    /// The full items below the extensions of `prefix` from the `k`-th on are
    /// the combinations that extend it by those candidates.
    pub proof fn lemma_full_items_from(self, prefix: Item, k: int)
        requires
            prefix.len() < self.clauses.len(),
            0 <= k,
        ensures
            self.items_from(prefix, k).filter(self.full()) == self.joins_from(prefix, k),
        decreases self.clauses.len() - prefix.len(), 0int, self.options(prefix).len() - k,
    {
        if k >= self.options(prefix).len() {
            assert(Seq::<Item>::empty().filter(self.full()) =~= Seq::<Item>::empty()) by {
                reveal(Seq::filter);
            }
        } else {
            let child = prefix.push(self.options(prefix)[k]);
            self.lemma_full_items(child);
            self.lemma_full_items_from(prefix, k + 1);
            Seq::filter_distributes_over_add(
                self.items(child),
                self.items_from(prefix, k + 1),
                self.full(),
            );
        }
    }

    /// What is below one extension of `prefix` is below its extensions from any
    /// earlier one on.
    pub proof fn lemma_items_from_holds(self, prefix: Item, j: int, k: int, item: Item)
        requires
            prefix.len() < self.clauses.len(),
            0 <= j <= k < self.options(prefix).len(),
            self.items(prefix.push(self.options(prefix)[k])).contains(item),
        ensures
            self.items_from(prefix, j).contains(item),
        decreases k - j,
    {
        let first = self.items(prefix.push(self.options(prefix)[j]));
        let rest = self.items_from(prefix, j + 1);
        if j == k {
            let n: int = choose|n: int| 0 <= n < first.len() && first[n] == item;
            assert((first + rest)[n] == item);
        } else {
            self.lemma_items_from_holds(prefix, j + 1, k, item);
            let n: int = choose|n: int| 0 <= n < rest.len() && rest[n] == item;
            assert((first + rest)[first.len() + n] == item);
        }
    }

    /// The walk yields, below `prefix`, every extension of it by candidates at
    /// which it stops.
    pub proof fn lemma_items_complete(self, prefix: Item, item: Item)
        requires
            prefix.len() <= item.len() <= self.clauses.len(),
            item.take(prefix.len() as int) == prefix,
            self.chosen_from(item, prefix.len() as int),
            self.stops(item),
        ensures
            self.items(prefix).contains(item),
        decreases self.clauses.len() - prefix.len(),
    {
        if prefix.len() == item.len() {
            assert(item.take(prefix.len() as int) =~= item);
            assert(seq![prefix][0] == item);
        } else {
            let at: int = prefix.len() as int;
            let options = self.options(prefix);
            assert(item.take(at) == prefix);
            assert(options.contains(item[at]));
            let k: int = choose|k: int| 0 <= k < options.len() && options[k] == item[at];
            let child = prefix.push(options[k]);
            assert(item.take(at + 1) =~= child);
            self.lemma_items_complete(child, item);
            self.lemma_items_from_holds(prefix, 0, k, item);
        }
    }
}

/// The full results that a walk yields are the combinations of candidates, one
/// for each clause, each as often and in the order in which nested loops over
/// the candidates of the clauses reach it.
pub proof fn law_matches_are_joins(s: Setting)
    ensures
        s.matches() == s.joins(Seq::empty()),
{
    s.lemma_full_items(Seq::empty());
}

/// A full result is yielded exactly when it has one entry for each clause and
/// each entry is a candidate of its clause against the entries before it.
pub proof fn law_matches_are_the_combinations(s: Setting, item: Item)
    ensures
        s.matches().contains(item) <==> item.len() == s.clauses.len() && s.combines(item),
{
    let all = s.all_items();
    if s.matches().contains(item) {
        all.lemma_filter_contains_rev(s.full(), item);
        let m: int = choose|m: int| 0 <= m < s.matches().len() && s.matches()[m] == item;
        all.lemma_filter_pred(s.full(), m);
        let n: int = choose|n: int| 0 <= n < all.len() && all[n] == item;
        law_items_combine(s, n);
    }
    if item.len() == s.clauses.len() && s.combines(item) {
        assert(item.take(0) =~= Seq::<ValueView>::empty());
        s.lemma_items_complete(Seq::empty(), item);
        let n: int = choose|n: int| 0 <= n < all.len() && all[n] == item;
        all.lemma_filter_contains(s.full(), n);
    }
}

impl Setting {
    /// Whether every clause scans an input relation and has no constraint.
    pub open spec fn plain_scans(self) -> bool {
        forall|i: int|
            0 <= i < self.clauses.len() ==> {
                &&& #[trigger] self.clauses[i] matches Clause::Tuple(source)
                &&& source.constraints@.len() == 0
                &&& source.relation < self.inputs.len()
            }
    }

    /// Whether `item` takes, for each clause, one row of the relation that the
    /// clause scans.
    pub open spec fn in_product(self, item: Item) -> bool {
        &&& item.len() == self.clauses.len()
        &&& forall|i: int|
            0 <= i < item.len() ==> (#[trigger] item[i]) is Tuple
                && self.inputs[self.clauses[i]->Tuple_0.relation as int].contains(item[i]->Tuple_0)
    }

    /// The candidates of a scan without constraints are the rows of its
    /// relation.
    pub proof fn lemma_plain_options(self, prefix: Item, value: ValueView)
        requires
            self.plain_scans(),
            prefix.len() < self.clauses.len(),
        ensures
            self.options(prefix).contains(value) <==> value is Tuple
                && self.inputs[self.clauses[prefix.len() as int]->Tuple_0.relation as int].contains(
                value->Tuple_0,
            ),
    {
        let source = self.clauses[prefix.len() as int]->Tuple_0;
        let rows = self.inputs[source.relation as int];
        let kept = source.filtered(self.inputs, prefix);
        let options = self.options(prefix);
        if options.contains(value) {
            let j: int = choose|j: int| 0 <= j < options.len() && options[j] == value;
            assert(kept.contains(kept[j]));
            rows.lemma_filter_contains_rev(source.accepting(prefix), kept[j]);
        }
        if value is Tuple && rows.contains(value->Tuple_0) {
            let row = value->Tuple_0;
            let m: int = choose|m: int| 0 <= m < rows.len() && rows[m] == row;
            assert(source.accepts(row, prefix));
            rows.lemma_filter_contains(source.accepting(prefix), m);
            let j: int = choose|j: int| 0 <= j < kept.len() && kept[j] == row;
            assert(options[j] == value);
        }
    }
}

/// Where every clause scans an input relation without constraints, the set of
/// full results is the Cartesian product of the row sets of the scanned
/// relations.
pub proof fn law_product_of_plain_scans(s: Setting)
    requires
        s.plain_scans(),
    ensures
        s.matches().to_set() == Set::new(|item: Item| s.in_product(item)),
{
    assert forall|item: Item| s.matches().contains(item) <==> s.in_product(item) by {
        law_matches_are_the_combinations(s, item);
        if item.len() == s.clauses.len() {
            assert forall|i: int| 0 <= i < item.len() implies (s.options(item.take(i)).contains(
                #[trigger] item[i],
            ) <==> item[i] is Tuple && s.inputs[s.clauses[i]->Tuple_0.relation as int].contains(
                item[i]->Tuple_0,
            )) by {
                s.lemma_plain_options(item.take(i), item[i]);
            }
        }
    }
    assert(s.matches().to_set() =~= Set::new(|item: Item| s.in_product(item)));
}

/// A plan that is in order for its inputs, with calls that give scalars, can be
/// walked: the clause after every node of the tree can be evaluated against it.
pub proof fn law_plans_in_order_can_be_walked(query: Query, inputs: Seq<Rows>, ev: Oracle)
    requires
        query.admits(inputs),
        forall|fun: Seq<char>, args: Seq<ValueView>| (#[trigger] ev(fun, args)).is_scalar(),
    ensures
        query.setting(inputs, ev).passable(),
{
    let s = query.setting(inputs, ev);
    assert(s.sound());
    s.lemma_sound_is_passable();
}

/// The order on values is one order seen from both sides: a value is below
/// another exactly when the other is above it, and two values compare as equal
/// exactly when they are the same value.
pub proof fn law_order_is_consistent(a: ValueView, b: ValueView)
    ensures
        compare_values(b, a) == compare_values(a, b).flipped(),
        (compare_values(a, b) == Comparison::Equal) <==> a == b,
        ConstraintOp::GT.holds(a, b) <==> ConstraintOp::LT.holds(b, a),
        ConstraintOp::GTE.holds(a, b) <==> ConstraintOp::LTE.holds(b, a),
        ConstraintOp::NEQ.holds(a, b) <==> !ConstraintOp::EQ.holds(a, b),
{
    lemma_compare_values_flipped(a, b);
    lemma_compare_values_equal(a, b);
}

impl Setting {
    /// Whether no clause of the plan is a call.
    pub open spec fn without_calls(self) -> bool {
        forall|i: int| 0 <= i < self.clauses.len() ==> !(#[trigger] self.clauses[i] is Call)
    }

    /// Whether `other` has the same plan and the same inputs.
    pub open spec fn same_plan(self, other: Setting) -> bool {
        other.clauses == self.clauses && other.inputs == self.inputs
    }

    /// Without calls, the items below a prefix do not depend on what calls
    /// give.
    pub proof fn lemma_items_need_no_oracle(self, other: Setting, prefix: Item)
        requires
            self.without_calls(),
            self.same_plan(other),
        ensures
            self.items(prefix) == other.items(prefix),
        decreases self.clauses.len() - prefix.len(), 1int, 0int,
    {
        if prefix.len() < self.clauses.len() {
            assert(!(self.clauses[prefix.len() as int] is Call));
            assert(self.options(prefix) == other.options(prefix));
            if !self.stops(prefix) {
                self.lemma_items_from_need_no_oracle(other, prefix, 0);
            }
        }
    }

    /// Without calls, the items below the extensions of a prefix do not depend
    /// on what calls give.
    pub proof fn lemma_items_from_need_no_oracle(self, other: Setting, prefix: Item, k: int)
        requires
            self.without_calls(),
            self.same_plan(other),
            prefix.len() < self.clauses.len(),
            0 <= k,
        ensures
            self.items_from(prefix, k) == other.items_from(prefix, k),
        decreases self.clauses.len() - prefix.len(), 0int, self.options(prefix).len() - k,
    {
        assert(!(self.clauses[prefix.len() as int] is Call));
        assert(self.options(prefix) == other.options(prefix));
        if k < self.options(prefix).len() {
            self.lemma_items_need_no_oracle(other, prefix.push(self.options(prefix)[k]));
            self.lemma_items_from_need_no_oracle(other, prefix, k + 1);
        }
    }
}

/// What a plan without calls yields is fixed by the plan and the inputs alone:
/// whatever the evaluator, every walk over them yields the same items in the
/// same order.
pub proof fn law_plans_without_calls_need_no_oracle(
    query: Query,
    inputs: Seq<Rows>,
    one: Oracle,
    other: Oracle,
)
    requires
        query.setting(inputs, one).without_calls(),
    ensures
        query.setting(inputs, one).all_items() == query.setting(inputs, other).all_items(),
{
    query.setting(inputs, one).lemma_items_need_no_oracle(
        query.setting(inputs, other),
        Seq::empty(),
    );
}

/// Whether no input relation holds a row twice.
pub open spec fn no_row_repeats(inputs: Seq<Rows>) -> bool {
    forall|r: int| 0 <= r < inputs.len() ==> (#[trigger] inputs[r]).no_duplicates()
}

/// What is kept of a sequence without repeats has no repeats.
pub proof fn lemma_filter_keeps_distinct<A>(s: Seq<A>, p: spec_fn(A) -> bool)
    requires
        s.no_duplicates(),
    ensures
        s.filter(p).no_duplicates(),
    decreases s.len(),
{
    reveal(Seq::filter);
    if s.len() > 0 {
        let rest = s.drop_last();
        let last = s.last();
        assert forall|i: int, j: int|
            0 <= i < rest.len() && 0 <= j < rest.len() && i != j implies rest[i] != rest[j] by {
            assert(rest[i] == s[i] && rest[j] == s[j]);
        }
        lemma_filter_keeps_distinct(rest, p);
        if p(last) {
            let kept = rest.filter(p);
            assert forall|i: int| 0 <= i < kept.len() implies kept[i] != last by {
                if kept[i] == last {
                    assert(kept.contains(last));
                    rest.lemma_filter_contains_rev(p, last);
                    let m: int = choose|m: int| 0 <= m < rest.len() && rest[m] == last;
                    assert(s[m] == s[s.len() - 1]);
                }
            }
            assert(kept.push(last).no_duplicates());
        }
    }
}

impl Setting {
    /// Whether every clause that scans row by row names an input relation.
    pub open spec fn scans_in_range(self) -> bool {
        forall|i: int|
            0 <= i < self.clauses.len() ==> (#[trigger] self.clauses[i] matches Clause::Tuple(source)
                ==> source.relation < self.inputs.len())
    }

    /// Whether no clause has a candidate twice, against any prefix.
    pub open spec fn distinct_options(self) -> bool {
        forall|prefix: Item|
            prefix.len() < self.clauses.len() ==> (#[trigger] self.options(prefix)).no_duplicates()
    }

    /// Over relations without repeated rows no clause has a candidate twice.
    pub proof fn lemma_distinct_rows_give_distinct_options(self)
        requires
            no_row_repeats(self.inputs),
            self.scans_in_range(),
        ensures
            self.distinct_options(),
    {
        assert forall|prefix: Item| prefix.len() < self.clauses.len() implies (
        #[trigger] self.options(prefix)).no_duplicates() by {
            let options = self.options(prefix);
            match self.clauses[prefix.len() as int] {
                Clause::Tuple(source) => {
                    let rows = self.inputs[source.relation as int];
                    let kept = source.filtered(self.inputs, prefix);
                    lemma_filter_keeps_distinct(rows, source.accepting(prefix));
                    assert forall|i: int, j: int|
                        0 <= i < options.len() && 0 <= j < options.len() && i != j implies options[i]
                        != options[j] by {
                        assert(options[i] == ValueView::Tuple(kept[i]));
                        assert(options[j] == ValueView::Tuple(kept[j]));
                        assert(kept[i] != kept[j]);
                    }
                },
                Clause::Relation(source) => {},
                Clause::Call(call) => {},
            }
        }
    }

    /// Every item below the extensions of `prefix` from the `k`-th on goes
    /// through one of those candidates.
    pub proof fn lemma_items_from_mark(self, prefix: Item, k: int, n: int)
        requires
            prefix.len() < self.clauses.len(),
            0 <= k,
            0 <= n < self.items_from(prefix, k).len(),
        ensures
            self.items_from(prefix, k)[n].len() > prefix.len(),
            exists|j: int|
                k <= j < self.options(prefix).len() && self.items_from(prefix, k)[n][prefix.len() as int]
                    == #[trigger] self.options(prefix)[j],
        decreases self.options(prefix).len() - k,
    {
        let child = prefix.push(self.options(prefix)[k]);
        let below = self.items(child);
        if n < below.len() {
            self.lemma_items_extend(child, n);
            let item = below[n];
            assert(item == self.items_from(prefix, k)[n]);
            assert(item.take(child.len() as int)[prefix.len() as int] == item[prefix.len() as int]);
            assert(item[prefix.len() as int] == self.options(prefix)[k]);
        } else {
            self.lemma_items_from_mark(prefix, k + 1, n - below.len());
            let item = self.items_from(prefix, k + 1)[n - below.len()];
            assert(item == self.items_from(prefix, k)[n]);
            let j: int = choose|j: int|
                k + 1 <= j < self.options(prefix).len() && item[prefix.len() as int]
                    == #[trigger] self.options(prefix)[j];
            assert(k <= j < self.options(prefix).len() && item[prefix.len() as int] == self.options(
                prefix,
            )[j]);
        }
    }

    /// Where no clause has a candidate twice, no item below `prefix` repeats.
    pub proof fn lemma_items_distinct(self, prefix: Item)
        requires
            self.distinct_options(),
            prefix.len() <= self.clauses.len(),
        ensures
            self.items(prefix).no_duplicates(),
        decreases self.clauses.len() - prefix.len(), 1int, 0int,
    {
        if !self.stops(prefix) {
            self.lemma_items_from_distinct(prefix, 0);
        }
    }

    /// Where no clause has a candidate twice, no item below the extensions of
    /// `prefix` from the `k`-th on repeats.
    pub proof fn lemma_items_from_distinct(self, prefix: Item, k: int)
        requires
            self.distinct_options(),
            prefix.len() < self.clauses.len(),
            0 <= k,
        ensures
            self.items_from(prefix, k).no_duplicates(),
        decreases self.clauses.len() - prefix.len(), 0int, self.options(prefix).len() - k,
    {
        if k < self.options(prefix).len() {
            let options = self.options(prefix);
            let child = prefix.push(options[k]);
            let first = self.items(child);
            let rest = self.items_from(prefix, k + 1);
            self.lemma_items_distinct(child);
            self.lemma_items_from_distinct(prefix, k + 1);
            assert forall|i: int, j: int| 0 <= i < first.len() && 0 <= j < rest.len() implies first[i]
                != rest[j] by {
                self.lemma_items_extend(child, i);
                assert(first[i].take(child.len() as int)[prefix.len() as int] == first[i][prefix.len() as int]);
                assert(first[i][prefix.len() as int] == options[k]);
                self.lemma_items_from_mark(prefix, k + 1, j);
                let m: int = choose|m: int|
                    k + 1 <= m < options.len() && rest[j][prefix.len() as int] == #[trigger] options[m];
                assert(options[k] != options[m]);
            }
            lemma_no_dup_in_concat(first, rest);
        }
    }
}

/// Where no input relation holds a row twice, the walk yields no item twice:
/// each combination of candidates is a result once, and each dead end is marked
/// once.
pub proof fn law_distinct_rows_give_distinct_items(s: Setting)
    requires
        no_row_repeats(s.inputs),
        s.scans_in_range(),
    ensures
        s.all_items().no_duplicates(),
        s.matches().no_duplicates(),
{
    s.lemma_distinct_rows_give_distinct_options();
    s.lemma_items_distinct(Seq::empty());
    lemma_filter_keeps_distinct(s.all_items(), s.full());
}

/// Keys stand in the order of the numbers that their bits give by sign and
/// magnitude: among numbers that are not below zero the greater bits are the
/// greater number, every number below zero comes before those, and among
/// numbers below zero the greater magnitude is the lesser number. The key of a
/// key is the bits again, so two keys are equal only for the same bits.
pub proof fn law_keys_keep_the_order(a: i64, b: i64)
    ensures
        a >= 0 && b >= 0 ==> (order_key(a) < order_key(b) <==> a < b),
        a < 0 && b >= 0 ==> order_key(a) < order_key(b),
        a < 0 && b < 0 ==> (order_key(a) < order_key(b) <==> a > b),
        order_key(order_key(a)) == a,
        (order_key(a) == order_key(b)) <==> a == b,
{
    if a < 0 {
        lemma_flip_mirrors(a);
        lemma_flip_mirrors(order_key(a));
    }
    if b < 0 {
        lemma_flip_mirrors(b);
    }
}

} // verus!
