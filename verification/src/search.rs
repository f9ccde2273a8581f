//! The search tree of a plan: what a depth-first walk over it yields, and in
//! what order.

use vstd::prelude::*;
use crate::plan::{Clause, Oracle, Ref, Rows, Source};
use crate::value::ValueView;

verus! {

/// All that the results of a plan depend on: its clauses, the input relations
/// and what its calls give.
pub struct Setting {
    pub clauses: Seq<Clause>,
    pub inputs: Seq<Rows>,
    pub ev: Oracle,
}

/// One item of the walk: a value for each clause of a prefix of the plan.
pub type Item = Seq<ValueView>;

impl Setting {
    /// The number of clauses.
    pub open spec fn depth(self) -> nat {
        self.clauses.len()
    }

    /// Whether the plan is in order for the inputs, and calls give scalars.
    pub open spec fn sound(self) -> bool {
        &&& forall|i: int|
            0 <= i < self.clauses.len() ==> (#[trigger] self.clauses[i]).fits(
                i,
                self.clauses,
                self.inputs,
            )
        &&& forall|fun: Seq<char>, args: Seq<ValueView>| (#[trigger] (self.ev)(fun, args)).is_scalar()
    }

    /// Whether the walk can pass every node of the tree: the clause after each
    /// node can be evaluated against it.
    pub open spec fn passable(self) -> bool {
        forall|prefix: Item, choices: Seq<int>| #[trigger]
            self.on_path(prefix, choices) && prefix.len() < self.clauses.len()
                ==> self.clauses[prefix.len() as int].ready(self.inputs, prefix)
    }

    /// The candidates of the clause that follows `prefix`.
    pub open spec fn options(self, prefix: Item) -> Seq<ValueView> {
        self.clauses[prefix.len() as int].candidates(self.inputs, prefix, self.ev)
    }

    /// Whether the walk cannot go deeper than `prefix`: it is a full result or
    /// the next clause has no candidate.
    pub open spec fn stops(self, prefix: Item) -> bool {
        prefix.len() >= self.clauses.len() || self.options(prefix).len() == 0
    }

    /// The items that the walk yields below `prefix`, in order: `prefix` itself
    /// where the walk stops there, else the items below each of its extensions.
    pub open spec fn items(self, prefix: Item) -> Seq<Item>
        decreases self.clauses.len() - prefix.len(), 1int, 0int,
    {
        if self.stops(prefix) {
            seq![prefix]
        } else {
            self.items_from(prefix, 0)
        }
    }

    /// The items below the extensions of `prefix` by its candidates from the
    /// `k`-th on.
    pub open spec fn items_from(self, prefix: Item, k: int) -> Seq<Item>
        decreases self.clauses.len() - prefix.len(), 0int, self.options(prefix).len() - k,
    {
        if prefix.len() >= self.clauses.len() || k < 0 || k >= self.options(prefix).len() {
            Seq::empty()
        } else {
            self.items(prefix.push(self.options(prefix)[k])) + self.items_from(prefix, k + 1)
        }
    }

    /// The items that follow those below `prefix`, where `choices[i]` is the
    /// index of `prefix[i]` among the candidates of clause `i`.
    pub open spec fn after(self, prefix: Item, choices: Seq<int>) -> Seq<Item>
        decreases prefix.len(),
    {
        if prefix.len() == 0 || choices.len() != prefix.len() {
            Seq::empty()
        } else {
            self.items_from(prefix.drop_last(), choices.last() + 1) + self.after(
                prefix.drop_last(),
                choices.drop_last(),
            )
        }
    }

    /// The items below `prefix` and those that follow them.
    pub open spec fn pending(self, prefix: Item, choices: Seq<int>) -> Seq<Item> {
        self.items(prefix) + self.after(prefix, choices)
    }

    /// Everything that the walk yields, in order.
    pub open spec fn all_items(self) -> Seq<Item> {
        self.items(Seq::empty())
    }

    /// Whether `prefix` is a node of the tree, reached by `choices`: each entry
    /// is the candidate of its clause, against the entries before it, that has
    /// the chosen index.
    pub open spec fn on_path(self, prefix: Item, choices: Seq<int>) -> bool {
        &&& prefix.len() == choices.len()
        &&& prefix.len() <= self.clauses.len()
        &&& forall|i: int|
            0 <= i < prefix.len() ==> 0 <= #[trigger] choices[i] < self.options(prefix.take(i)).len()
                && prefix[i] == self.options(prefix.take(i))[choices[i]]
    }

    /// Going down to the first candidate leaves what is pending unchanged.
    pub proof fn lemma_descend(self, prefix: Item, choices: Seq<int>)
        requires
            self.on_path(prefix, choices),
            !self.stops(prefix),
        ensures
            self.on_path(prefix.push(self.options(prefix)[0]), choices.push(0)),
            self.pending(prefix.push(self.options(prefix)[0]), choices.push(0)) == self.pending(
                prefix,
                choices,
            ),
    {
        let first = self.options(prefix)[0];
        let deeper = prefix.push(first);
        let marks = choices.push(0);
        assert(deeper.drop_last() =~= prefix);
        assert(marks.drop_last() =~= choices);
        assert forall|i: int| 0 <= i < deeper.len() implies 0 <= #[trigger] marks[i] < self.options(
            deeper.take(i),
        ).len() && deeper[i] == self.options(deeper.take(i))[marks[i]] by {
            if i < prefix.len() {
                assert(deeper.take(i) =~= prefix.take(i));
            } else {
                assert(deeper.take(i) =~= prefix);
            }
        }
        assert(self.items(prefix) == self.items(deeper) + self.items_from(prefix, 1));
        assert(self.after(deeper, marks) == self.items_from(prefix, 1) + self.after(
            prefix,
            choices,
        ));
        assert(self.pending(deeper, marks) =~= self.pending(prefix, choices));
    }

    /// Where no candidate follows the chosen one, what comes after a node is
    /// what comes after its parent.
    pub proof fn lemma_climb(self, prefix: Item, choices: Seq<int>)
        requires
            self.on_path(prefix, choices),
            prefix.len() > 0,
            choices.last() + 1 >= self.options(prefix.drop_last()).len(),
        ensures
            self.after(prefix, choices) == self.after(prefix.drop_last(), choices.drop_last()),
    {
        assert(self.items_from(prefix.drop_last(), choices.last() + 1) =~= Seq::<Item>::empty());
        assert(self.after(prefix, choices) =~= self.after(
            prefix.drop_last(),
            choices.drop_last(),
        ));
    }

    /// Where a candidate follows the chosen one, what comes after a node is
    /// what is pending at the node of that candidate.
    pub proof fn lemma_sibling(self, prefix: Item, choices: Seq<int>)
        requires
            self.on_path(prefix, choices),
            prefix.len() > 0,
            choices.last() + 1 < self.options(prefix.drop_last()).len(),
        ensures
            self.on_path(
                prefix.drop_last().push(self.options(prefix.drop_last())[choices.last() + 1]),
                choices.drop_last().push(choices.last() + 1),
            ),
            self.after(prefix, choices) == self.pending(
                prefix.drop_last().push(self.options(prefix.drop_last())[choices.last() + 1]),
                choices.drop_last().push(choices.last() + 1),
            ),
    {
        let parent = prefix.drop_last();
        let k: int = choices.last() + 1;
        let next = parent.push(self.options(parent)[k]);
        let marks = choices.drop_last().push(k);
        assert(next.drop_last() =~= parent);
        assert(marks.drop_last() =~= choices.drop_last());
        assert(prefix.take(prefix.len() - 1) =~= parent);
        assert forall|i: int| 0 <= i < next.len() implies 0 <= #[trigger] marks[i] < self.options(
            next.take(i),
        ).len() && next[i] == self.options(next.take(i))[marks[i]] by {
            if i < parent.len() {
                assert(next.take(i) =~= prefix.take(i));
                assert(marks[i] == choices[i]);
                assert(next[i] == prefix[i]);
            } else {
                assert(next.take(i) =~= parent);
            }
        }
        assert(self.items_from(parent, k) == self.items(next) + self.items_from(parent, k + 1));
        assert(self.after(next, marks) == self.items_from(parent, k + 1) + self.after(
            parent,
            choices.drop_last(),
        ));
        assert(self.after(prefix, choices) =~= self.pending(next, marks));
    }

    /// A node's ancestors are nodes.
    pub proof fn lemma_on_path_take(self, prefix: Item, choices: Seq<int>, n: int)
        requires
            self.on_path(prefix, choices),
            0 <= n <= prefix.len(),
        ensures
            self.on_path(prefix.take(n), choices.take(n)),
    {
        assert forall|i: int| 0 <= i < n implies 0 <= #[trigger] choices.take(n)[i] < self.options(
            prefix.take(n).take(i),
        ).len() && prefix.take(n)[i] == self.options(prefix.take(n).take(i))[choices.take(n)[i]] by {
            assert(prefix.take(n).take(i) =~= prefix.take(i));
            assert(choices.take(n)[i] == choices[i]);
        }
    }
}

impl Setting {
    /// The walk yields something below every prefix.
    pub proof fn lemma_items_nonempty(self, prefix: Item)
        ensures
            self.items(prefix).len() > 0,
        decreases self.clauses.len() - prefix.len(),
    {
        if !self.stops(prefix) {
            self.lemma_items_nonempty(prefix.push(self.options(prefix)[0]));
            assert(self.items(prefix) == self.items(prefix.push(self.options(prefix)[0]))
                + self.items_from(prefix, 1));
        }
    }

    /// The entry of a node for clause `c` has the shape of that clause's
    /// candidates; for a scan it is a row of the scanned relation.
    pub proof fn lemma_entry_shape(self, prefix: Item, choices: Seq<int>, c: int)
        requires
            self.sound(),
            self.on_path(prefix, choices),
            0 <= c < prefix.len(),
        ensures
            match self.clauses[c] {
                Clause::Tuple(source) => prefix[c] is Tuple && self.inputs[source.relation as int].contains(
                    prefix[c]->Tuple_0,
                ),
                Clause::Relation(source) => prefix[c] is Relation,
                Clause::Call(call) => prefix[c].is_scalar(),
            },
    {
        let before = prefix.take(c);
        let k: int = choices[c];
        assert(prefix[c] == self.options(before)[k]);
        match self.clauses[c] {
            Clause::Tuple(source) => {
                let rows = source.filtered(self.inputs, before);
                assert(rows.contains(rows[k]));
                self.inputs[source.relation as int].lemma_filter_contains_rev(
                    source.accepting(before),
                    rows[k],
                );
            },
            Clause::Relation(source) => {},
            Clause::Call(call) => {},
        }
    }

    /// A reference that is in order for the clause after a node resolves
    /// against that node.
    pub proof fn lemma_ref_resolves(self, r: Ref, prefix: Item, choices: Seq<int>)
        requires
            self.sound(),
            self.on_path(prefix, choices),
            r.fits(prefix.len() as int, self.clauses, self.inputs),
        ensures
            r.resolves(prefix),
    {
        match r {
            Ref::Constant { value } => {},
            Ref::Value { clause, column } => {
                self.lemma_entry_shape(prefix, choices, clause as int);
                let source = self.clauses[clause as int]->Tuple_0;
                let row = prefix[clause as int]->Tuple_0;
                let j: int = choose|j: int|
                    0 <= j < self.inputs[source.relation as int].len()
                        && self.inputs[source.relation as int][j] == row;
                assert(column < self.inputs[source.relation as int][j].len());
            },
            Ref::Tuple { clause } => {
                self.lemma_entry_shape(prefix, choices, clause as int);
            },
            Ref::Relation { clause } => {
                self.lemma_entry_shape(prefix, choices, clause as int);
            },
            Ref::Call { clause } => {
                self.lemma_entry_shape(prefix, choices, clause as int);
            },
        }
    }

    proof fn lemma_source_scannable(self, source: Source, prefix: Item, choices: Seq<int>)
        requires
            self.sound(),
            self.on_path(prefix, choices),
            source.fits(prefix.len() as int, self.clauses, self.inputs),
        ensures
            source.scannable(self.inputs, prefix),
    {
        assert forall|k: int| 0 <= k < source.constraints@.len() implies (
        #[trigger] source.constraints@[k]).other_ref.resolves(prefix) by {
            self.lemma_ref_resolves(source.constraints@[k].other_ref, prefix, choices);
        }
        assert forall|j: int| 0 <= j < self.inputs[source.relation as int].len() implies source.readable(
            #[trigger] self.inputs[source.relation as int][j],
            prefix,
        ) by {
            let row = self.inputs[source.relation as int][j];
            assert forall|k: int| 0 <= k < source.constraints@.len() implies (
            #[trigger] source.constraints@[k]).my_column < row.len() by {}
        }
    }

    /// In a sound setting the walk can pass every node.
    pub proof fn lemma_sound_is_passable(self)
        requires
            self.sound(),
        ensures
            self.passable(),
    {
        assert forall|prefix: Item, choices: Seq<int>| #[trigger]
            self.on_path(prefix, choices) && prefix.len() < self.clauses.len()
                implies self.clauses[prefix.len() as int].ready(self.inputs, prefix) by {
            self.lemma_ready(prefix, choices);
        }
    }

    /// In a sound setting the clause after a node can be evaluated against it.
    pub proof fn lemma_ready(self, prefix: Item, choices: Seq<int>)
        requires
            self.sound(),
            self.on_path(prefix, choices),
            prefix.len() < self.clauses.len(),
        ensures
            self.clauses[prefix.len() as int].ready(self.inputs, prefix),
    {
        let clause = self.clauses[prefix.len() as int];
        assert(clause.fits(prefix.len() as int, self.clauses, self.inputs));
        match clause {
            Clause::Tuple(source) => {
                self.lemma_source_scannable(source, prefix, choices);
            },
            Clause::Relation(source) => {
                self.lemma_source_scannable(source, prefix, choices);
            },
            Clause::Call(call) => {
                assert forall|k: int| 0 <= k < call.arg_refs@.len() implies (
                #[trigger] call.arg_refs@[k]).resolves(prefix) by {
                    self.lemma_ref_resolves(call.arg_refs@[k], prefix, choices);
                }
            },
        }
    }
}

} // verus!
