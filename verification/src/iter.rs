//! The iterator over the results of a query: a depth-first walk of the plan
//! that can be resumed one item at a time.

use vstd::prelude::*;
use crate::plan::{computes, inputs_view, Oracle, Query, Rows};
use crate::search::{Item, Setting};
use crate::value::{tuple_view, value_view, Relation, Value};

verus! {

/// A walk over the results of a query. Each item is either a full result, with
/// one value for each clause, or a shorter one that marks a prefix which the
/// next clause could not extend.
pub struct QueryIter<'a, F> {
    query: &'a Query,
    inputs: Vec<&'a Relation>,
    eval: F,
    ev: Ghost<Oracle>,
    max_len: usize,
    now_len: usize,
    has_next: bool,
    ixes: Vec<usize>,
    values: Vec<Vec<Value>>,
}

impl<'a, F: Fn(&String, Vec<Value>) -> Value> QueryIter<'a, F> {
    /// The plan, the inputs and what calls give.
    pub closed spec fn setting(&self) -> Setting {
        Setting { clauses: self.query.clauses@, inputs: inputs_view(self.inputs@), ev: self.ev@ }
    }

    /// Whether an item is still to come.
    pub closed spec fn has_next(&self) -> bool {
        self.has_next
    }

    /// The length of the prefix that the next item starts from.
    pub closed spec fn now_len(&self) -> int {
        self.now_len as int
    }

    /// The index chosen among the candidates of clause `i`.
    pub closed spec fn ix(&self, i: int) -> int {
        self.ixes@[i] as int
    }

    /// The index that the next item has for clause `i`: the chosen one within
    /// the prefix, the first below it.
    pub open spec fn chosen(&self, i: int) -> int {
        if i < self.now_len() {
            self.ix(i)
        } else {
            0
        }
    }

    /// The prefix that the next item starts from.
    pub closed spec fn prefix(&self) -> Item {
        Seq::new(
            self.now_len as nat,
            |i: int| value_view(self.values@[i]@[self.ixes@[i] as int]),
        )
    }

    /// The indices chosen for the prefix.
    pub closed spec fn choices(&self) -> Seq<int> {
        Seq::new(self.now_len as nat, |i: int| self.ixes@[i] as int)
    }

    /// The invariant of the walk: it can pass every node of the tree, and each
    /// clause of the prefix holds its candidates against the entries before it.
    pub closed spec fn wf(&self) -> bool {
        &&& self.max_len == self.query.clauses@.len()
        &&& self.ixes@.len() == self.max_len
        &&& self.values@.len() == self.max_len
        &&& self.now_len <= self.max_len
        &&& computes(self.eval, self.ev@)
        &&& self.setting().passable()
        &&& forall|i: int|
            0 <= i < self.now_len ==> (#[trigger] self.ixes@[i]) < self.values@[i]@.len()
        &&& forall|i: int|
            0 <= i < self.now_len ==> tuple_view(#[trigger] self.values@[i]@)
                == self.setting().options(self.prefix().take(i))
    }

    /// The items still to come, in order.
    pub closed spec fn remaining(&self) -> Seq<Item> {
        if self.has_next {
            self.setting().pending(self.prefix(), self.choices())
        } else {
            Seq::empty()
        }
    }

    proof fn lemma_on_path(&self)
        requires
            self.wf(),
        ensures
            self.setting().on_path(self.prefix(), self.choices()),
    {
        let s = self.setting();
        let p = self.prefix();
        let x = self.choices();
        assert forall|i: int| 0 <= i < p.len() implies 0 <= #[trigger] x[i] < s.options(p.take(i)).len()
            && p[i] == s.options(p.take(i))[x[i]] by {
            assert(self.ixes@[i] < self.values@[i]@.len());
            assert(tuple_view(self.values@[i]@) == s.options(p.take(i)));
        }
    }

    /// Never gives a hint.
    pub fn size_hint(&self) -> (hint: (usize, Option<usize>))
        ensures
            hint == (0usize, None::<usize>),
    {
        (0, None)
    }

    /// Yields the next item, if there is one: the first of those that remain.
    ///
    /// The prefix is extended clause by clause with the first candidate of each,
    /// until the plan is at its end or a clause has no candidate. What was built
    /// is the item. Then the deepest clause that has a further candidate moves on
    /// to it, and the walk starts from there next time; where there is none, the
    /// walk is at its end.
    pub fn next(&mut self) -> (item: Option<Vec<Value>>)
        requires
            old(self).wf(),
        ensures
            final(self).wf(),
            final(self).setting() == old(self).setting(),
            final(self).has_next() == (final(self).remaining().len() > 0),
            match item {
                None => !old(self).has_next() && *final(self) == *old(self),
                Some(r) => {
                    &&& old(self).has_next()
                    &&& old(self).remaining() == seq![tuple_view(r@)] + final(self).remaining()
                    &&& tuple_view(r@) == old(self).remaining().first()
                    &&& final(self).remaining() == old(self).remaining().drop_first()
                    &&& old(self).now_len() <= r.len() <= old(self).setting().depth()
                    &&& old(self).setting().stops(tuple_view(r@))
                    &&& forall|j: int|
                        0 <= j < r.len() ==> {
                            &&& 0 <= old(self).chosen(j) < old(self).setting().options(
                                #[trigger] tuple_view(r@).take(j),
                            ).len()
                            &&& tuple_view(r@)[j] == old(self).setting().options(
                                tuple_view(r@).take(j),
                            )[old(self).chosen(j)]
                        }
                    &&& final(self).has_next() ==> {
                        &&& 1 <= final(self).now_len() <= r.len()
                        &&& final(self).ix(final(self).now_len() - 1) < old(self).setting().options(
                            tuple_view(r@).take(final(self).now_len() - 1),
                        ).len()
                        &&& forall|j: int|
                            0 <= j < final(self).now_len() - 1 ==> final(self).ix(j) == old(
                                self,
                            ).chosen(j)
                        &&& final(self).ix(final(self).now_len() - 1) == old(self).chosen(
                            final(self).now_len() - 1,
                        ) + 1
                    }
                    &&& forall|j: int|
                        (if final(self).has_next() {
                            final(self).now_len()
                        } else {
                            0
                        }) <= j < r.len() ==> old(self).chosen(j) + 1 >= old(self).setting().options(
                            #[trigger] tuple_view(r@).take(j),
                        ).len()
                },
            },
    {
        if !self.has_next {
            return None;
        }
        let ghost s = self.setting();
        let ghost start = self.prefix();
        let ghost start_choices = self.choices();
        let ghost start_len: usize = self.now_len;
        let ghost start_ixes = self.ixes@;
        assert(start_len <= start_ixes.len());

        let mut result: Vec<Value> = Vec::new();
        let mut i: usize = 0;
        while i < self.now_len
            invariant
                self.wf(),
                *self == *old(self),
                i <= self.now_len,
                result.len() == i,
                forall|j: int| 0 <= j < i ==> value_view(#[trigger] result@[j]) == self.prefix()[j],
            decreases self.now_len - i,
        {
            let known = self.values[i][self.ixes[i]].clone();
            result.push(known);
            i += 1;
        }
        assert(tuple_view(result@) =~= self.prefix());

        let mut i: usize = self.now_len;
        while i < self.max_len
            invariant
                self.wf(),
                self.setting() == s,
                self.has_next,
                i == self.now_len,
                start_len <= self.now_len,
                tuple_view(result@) == self.prefix(),
                s.pending(self.prefix(), self.choices()) == s.pending(start, start_choices),
                forall|j: int| 0 <= j < start_len ==> self.ixes@[j] == start_ixes[j],
                forall|j: int| start_len <= j < self.now_len ==> self.ixes@[j] == 0,
            ensures
                self.wf(),
                self.setting() == s,
                self.has_next,
                start_len <= self.now_len,
                tuple_view(result@) == self.prefix(),
                s.pending(self.prefix(), self.choices()) == s.pending(start, start_choices),
                forall|j: int| 0 <= j < start_len ==> self.ixes@[j] == start_ixes[j],
                forall|j: int| start_len <= j < self.now_len ==> self.ixes@[j] == 0,
                s.stops(self.prefix()),
            decreases self.max_len - i,
        {
            let ghost p = self.prefix();
            let ghost x = self.choices();
            proof {
                self.lemma_on_path();
                assert(s.on_path(p, x) && p.len() < s.clauses.len());
            }
            let values = self.query.clauses[i].constrained_to(&self.inputs, &result, &self.eval);
            assert(tuple_view(values@) == s.options(p));
            if values.len() == 0 {
                break;
            }
            proof {
                s.lemma_descend(p, x);
            }
            let first = values[0].clone();
            self.now_len = i + 1;
            result.push(first);
            self.values.set(i, values);
            self.ixes.set(i, 0);
            i += 1;
            proof {
                let deeper = p.push(s.options(p)[0]);
                assert(self.prefix() =~= deeper);
                assert(self.choices() =~= x.push(0));
                assert(tuple_view(result@) =~= deeper);
                assert forall|j: int| 0 <= j < self.now_len implies tuple_view(
                    #[trigger] self.values@[j]@,
                ) == s.options(self.prefix().take(j)) by {
                    if j < p.len() {
                        assert(deeper.take(j) =~= p.take(j));
                    } else {
                        assert(deeper.take(j) =~= p);
                    }
                }
            }
        }

        let ghost built = self.prefix();
        let ghost built_choices = self.choices();
        let ghost built_len: usize = self.now_len;
        let ghost built_ixes = self.ixes@;
        let ghost built_values = self.values@;
        proof {
            self.lemma_on_path();
            assert(built.take(built_len as int) =~= built);
            assert(built_choices.take(built_len as int) =~= built_choices);
        }

        self.has_next = false;
        let mut i: usize = self.now_len;
        while i > 0
            invariant_except_break
                self.wf(),
                self.setting() == s,
                !self.has_next,
                self.now_len == built_len,
                self.ixes@ == built_ixes,
                self.values@ == built_values,
                self.prefix() == built,
                self.choices() == built_choices,
                s.on_path(built, built_choices),
                i <= built_len,
                s.after(built, built_choices) == s.after(built.take(i as int), built_choices.take(i as int)),
                forall|j: int|
                    i <= j < built_len ==> built_ixes[j] + 1 >= s.options(#[trigger] built.take(j)).len(),
            ensures
                self.wf(),
                self.setting() == s,
                self.has_next ==> {
                    &&& s.after(built, built_choices) == s.pending(self.prefix(), self.choices())
                    &&& 1 <= self.now_len <= built_len
                    &&& forall|j: int| 0 <= j < self.now_len - 1 ==> self.ixes@[j] == built_ixes[j]
                    &&& self.ixes@[self.now_len - 1] == built_ixes[self.now_len - 1] + 1
                    &&& self.ixes@[self.now_len - 1] < s.options(built.take(self.now_len - 1)).len()
                },
                !self.has_next ==> s.after(built, built_choices) == Seq::<Item>::empty(),
                forall|j: int|
                    (if self.has_next {
                        self.now_len as int
                    } else {
                        0
                    }) <= j < built_len ==> built_ixes[j] + 1 >= s.options(#[trigger] built.take(j)).len(),
            decreases i,
        {
            let ghost node = built.take(i as int);
            let ghost marks = built_choices.take(i as int);
            i -= 1;
            proof {
                s.lemma_on_path_take(built, built_choices, i + 1);
                assert(node.drop_last() =~= built.take(i as int));
                assert(marks.drop_last() =~= built_choices.take(i as int));
                assert(marks.last() == self.ixes@[i as int]);
                assert(self.ixes@[i as int] < self.values@[i as int]@.len());
                assert(tuple_view(self.values@[i as int]@) == s.options(built.take(i as int)));
            }
            let width: usize = self.values[i].len();
            let ix: usize = self.ixes[i] + 1;
            if ix < width {
                proof {
                    s.lemma_sibling(node, marks);
                }
                self.ixes.set(i, ix);
                self.has_next = true;
                self.now_len = i + 1;
                proof {
                    let parent = built.take(i as int);
                    let next = parent.push(s.options(parent)[ix as int]);
                    assert(self.prefix() =~= next);
                    assert(self.choices() =~= built_choices.take(i as int).push(ix as int));
                    assert forall|j: int| 0 <= j < self.now_len implies tuple_view(
                        #[trigger] self.values@[j]@,
                    ) == s.options(self.prefix().take(j)) by {
                        assert(next.take(j) =~= built.take(j));
                    }
                }
                break;
            } else {
                proof {
                    s.lemma_climb(node, marks);
                }
            }
        }
        proof {
            assert(s.pending(built, built_choices) == seq![built] + s.after(built, built_choices));
            assert((seq![built] + s.after(built, built_choices)).drop_first() =~= s.after(
                built,
                built_choices,
            ));
            assert forall|j: int|
                (if self.has_next {
                    self.now_len as int
                } else {
                    0
                }) <= j < built_len implies old(self).chosen(j) + 1 >= s.options(
                #[trigger] tuple_view(result@).take(j),
            ).len() by {
                assert(built_ixes[j] + 1 >= s.options(built.take(j)).len());
                if j < start_len {
                    assert(built_ixes[j] == start_ixes[j]);
                } else {
                    assert(built_ixes[j] == 0);
                }
            }
            assert forall|j: int| 0 <= j < built_len implies 0 <= old(self).chosen(j) < s.options(
                #[trigger] tuple_view(result@).take(j),
            ).len() && tuple_view(result@)[j] == s.options(tuple_view(result@).take(j))[old(
                self,
            ).chosen(j)] by {
                assert(built_choices[j] == built_ixes[j]);
                assert(0 <= built_choices[j] < s.options(built.take(j)).len());
                assert(built[j] == s.options(built.take(j))[built_choices[j]]);
                if j < start_len {
                    assert(built_ixes[j] == start_ixes[j]);
                } else {
                    assert(built_ixes[j] == 0);
                }
            }
            if self.has_next {
                s.lemma_items_nonempty(self.prefix());
                assert forall|j: int| 0 <= j < self.now_len - 1 implies self.ix(j) == old(
                    self,
                ).chosen(j) by {
                    assert(self.ixes@[j] == built_ixes[j]);
                    if j < start_len {
                        assert(built_ixes[j] == start_ixes[j]);
                    } else {
                        assert(built_ixes[j] == 0);
                    }
                }
            }
        }
        Some(result)
    }
}

impl Query {
    /// The plan with its inputs and what its calls give.
    pub open spec fn setting(self, inputs: Seq<Rows>, ev: Oracle) -> Setting {
        Setting { clauses: self.clauses@, inputs, ev }
    }

    /// What the calls of a walk give. It is fixed by the evaluator, the plan and
    /// the inputs, so that two walks started on the same three have the same
    /// setting and yield the same items.
    pub open spec fn oracle<F: Fn(&String, Vec<Value>) -> Value>(
        self,
        inputs: Seq<Rows>,
        eval: F,
    ) -> Oracle {
        choose|ev: Oracle| computes(eval, ev) && (#[trigger] self.setting(inputs, ev)).passable()
    }

    /// Starts a walk over the results of the plan on `inputs`, with `eval` to
    /// answer its calls. The walk must be able to pass every node of the tree:
    /// a plan that is in order for the inputs, with calls that give scalars, is
    /// such a plan.
    pub fn iter<'a, F: Fn(&String, Vec<Value>) -> Value>(
        &'a self,
        inputs: Vec<&'a Relation>,
        eval: F,
    ) -> (it: QueryIter<'a, F>)
        requires
            exists|ev: Oracle|
                computes(eval, ev) && (#[trigger] self.setting(inputs_view(inputs@), ev)).passable(),
        ensures
            it.wf(),
            it.has_next(),
            it.now_len() == 0,
            it.setting() == self.setting(
                inputs_view(inputs@),
                self.oracle(inputs_view(inputs@), eval),
            ),
            computes(eval, it.setting().ev),
            it.setting().passable(),
            it.remaining() == it.setting().all_items(),
    {
        let ghost ev = self.oracle(inputs_view(inputs@), eval);
        let max_len: usize = self.clauses.len();
        let mut ixes: Vec<usize> = Vec::new();
        let mut values: Vec<Vec<Value>> = Vec::new();
        let mut i: usize = 0;
        while i < max_len
            invariant
                i <= max_len,
                ixes.len() == i,
                values.len() == i,
            decreases max_len - i,
        {
            ixes.push(0);
            values.push(Vec::new());
            i += 1;
        }
        let it = QueryIter {
            query: self,
            inputs,
            eval,
            ev: Ghost(ev),
            max_len,
            now_len: 0,
            has_next: true,
            ixes,
            values,
        };
        proof {
            let s = it.setting();
            assert(s == self.setting(inputs_view(inputs@), ev));
            assert(it.prefix() =~= Seq::<crate::value::ValueView>::empty());
            assert(s.after(it.prefix(), it.choices()) =~= Seq::<Item>::empty());
            assert(s.pending(it.prefix(), it.choices()) =~= s.all_items());
        }
        it
    }
}

} // verus!
