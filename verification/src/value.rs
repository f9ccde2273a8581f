//! Values that flow through a query: scalars, tuples and relations, with
//! structural equality and a partial order.

use vstd::prelude::*;
use vstd::std_specs::iter::IteratorSpec;

verus! {

/// The mathematical content of a [`Value`].
pub enum ValueView {
    Number(int),
    Text(Seq<char>),
    Tuple(Seq<ValueView>),
    Relation(Seq<Seq<ValueView>>),
}

/// A scalar (number or text), an ordered tuple of values, or a relation.
///
/// A relation is held as its rows in iteration order; two relations are equal
/// when they hold the same rows in the same order. A row that occurs twice is
/// two rows: whoever builds a relation as a set keeps its rows distinct and in
/// one order.
#[derive(Debug, PartialEq)]
pub enum Value {
    Number(i64),
    Text(String),
    Tuple(Vec<Value>),
    Relation(Vec<Vec<Value>>),
}

/// One row of a relation, or one result of a query.
pub type Tuple = Vec<Value>;

/// The rows of a relation, in iteration order.
pub type Relation = Vec<Tuple>;

/// How two values stand to each other under the partial order.
#[derive(Debug, Clone, Copy, PartialEq, Eq, Structural)]
pub enum Comparison {
    Less,
    Equal,
    Greater,
    Unordered,
}

/// The content of a value.
pub open spec fn value_view(v: Value) -> ValueView
    decreases v,
{
    match v {
        Value::Number(n) => ValueView::Number(n as int),
        Value::Text(s) => ValueView::Text(s@),
        Value::Tuple(t) => ValueView::Tuple(tuple_view(t@)),
        Value::Relation(r) => ValueView::Relation(rows_view(r@)),
    }
}

/// The contents of the values of a tuple, in order.
pub open spec fn tuple_view(t: Seq<Value>) -> Seq<ValueView>
    decreases t,
{
    Seq::new(
        t.len(),
        |i: int|
            if 0 <= i < t.len() {
                value_view(t[i])
            } else {
                ValueView::Number(0)
            },
    )
}

/// The contents of the rows of a relation, in order.
pub open spec fn rows_view(r: Seq<Vec<Value>>) -> Seq<Seq<ValueView>>
    decreases r,
{
    Seq::new(
        r.len(),
        |i: int|
            if 0 <= i < r.len() {
                tuple_view(r[i]@)
            } else {
                Seq::empty()
            },
    )
}

impl View for Value {
    type V = ValueView;

    open spec fn view(&self) -> ValueView {
        value_view(*self)
    }
}

impl ValueView {
    /// A number or a text.
    pub open spec fn is_scalar(self) -> bool {
        self is Number || self is Text
    }
}

impl Comparison {
    /// The same comparison with the two sides exchanged.
    pub open spec fn flipped(self) -> Comparison {
        match self {
            Comparison::Less => Comparison::Greater,
            Comparison::Equal => Comparison::Equal,
            Comparison::Greater => Comparison::Less,
            Comparison::Unordered => Comparison::Unordered,
        }
    }
}

/// Order of two integers.
pub open spec fn compare_ints(a: int, b: int) -> Comparison {
    if a < b {
        Comparison::Less
    } else if a == b {
        Comparison::Equal
    } else {
        Comparison::Greater
    }
}

/// Lexicographic order of two texts by code point.
pub open spec fn compare_texts(a: Seq<char>, b: Seq<char>) -> Comparison
    decreases a.len(),
{
    if a.len() == 0 {
        if b.len() == 0 {
            Comparison::Equal
        } else {
            Comparison::Less
        }
    } else if b.len() == 0 {
        Comparison::Greater
    } else if a[0] == b[0] {
        compare_texts(a.drop_first(), b.drop_first())
    } else if (a[0] as int) < (b[0] as int) {
        Comparison::Less
    } else {
        Comparison::Greater
    }
}

/// The partial order on values: two values of one shape are ordered by their
/// content, lexicographically where they are sequences; values of different
/// shapes are unordered.
pub open spec fn compare_values(a: ValueView, b: ValueView) -> Comparison
    decreases a,
{
    match (a, b) {
        (ValueView::Number(x), ValueView::Number(y)) => compare_ints(x, y),
        (ValueView::Text(x), ValueView::Text(y)) => compare_texts(x, y),
        (ValueView::Tuple(x), ValueView::Tuple(y)) => compare_tuples(x, y),
        (ValueView::Relation(x), ValueView::Relation(y)) => compare_relations(x, y),
        _ => Comparison::Unordered,
    }
}

/// Lexicographic order of two tuples; an unordered pair of items in the first
/// place where they differ leaves the tuples unordered.
pub open spec fn compare_tuples(a: Seq<ValueView>, b: Seq<ValueView>) -> Comparison
    decreases a,
{
    if a.len() == 0 {
        if b.len() == 0 {
            Comparison::Equal
        } else {
            Comparison::Less
        }
    } else if b.len() == 0 {
        Comparison::Greater
    } else {
        match compare_values(a[0], b[0]) {
            Comparison::Equal => compare_tuples(a.drop_first(), b.drop_first()),
            c => c,
        }
    }
}

/// Lexicographic order of two relations by their rows.
pub open spec fn compare_relations(a: Seq<Seq<ValueView>>, b: Seq<Seq<ValueView>>) -> Comparison
    decreases a,
{
    if a.len() == 0 {
        if b.len() == 0 {
            Comparison::Equal
        } else {
            Comparison::Less
        }
    } else if b.len() == 0 {
        Comparison::Greater
    } else {
        match compare_tuples(a[0], b[0]) {
            Comparison::Equal => compare_relations(a.drop_first(), b.drop_first()),
            c => c,
        }
    }
}

/// Two texts compare as equal exactly when they are the same text.
pub proof fn lemma_compare_texts_equal(a: Seq<char>, b: Seq<char>)
    ensures
        (compare_texts(a, b) == Comparison::Equal) <==> a == b,
    decreases a.len(),
{
    if a.len() > 0 && b.len() > 0 {
        lemma_compare_texts_equal(a.drop_first(), b.drop_first());
        if compare_texts(a, b) == Comparison::Equal {
            assert(a =~= seq![a[0]] + a.drop_first());
            assert(b =~= seq![b[0]] + b.drop_first());
        }
    } else if a.len() == 0 && b.len() == 0 {
        assert(a =~= b);
    }
}

/// Two values compare as equal exactly when they are the same value.
pub proof fn lemma_compare_values_equal(a: ValueView, b: ValueView)
    ensures
        (compare_values(a, b) == Comparison::Equal) <==> a == b,
    decreases a,
{
    match (a, b) {
        (ValueView::Number(x), ValueView::Number(y)) => {},
        (ValueView::Text(x), ValueView::Text(y)) => {
            lemma_compare_texts_equal(x, y);
        },
        (ValueView::Tuple(x), ValueView::Tuple(y)) => {
            lemma_compare_tuples_equal(x, y);
        },
        (ValueView::Relation(x), ValueView::Relation(y)) => {
            lemma_compare_relations_equal(x, y);
        },
        _ => {},
    }
}

/// Two tuples compare as equal exactly when they are the same tuple.
pub proof fn lemma_compare_tuples_equal(a: Seq<ValueView>, b: Seq<ValueView>)
    ensures
        (compare_tuples(a, b) == Comparison::Equal) <==> a == b,
    decreases a,
{
    if a.len() > 0 && b.len() > 0 {
        lemma_compare_values_equal(a[0], b[0]);
        lemma_compare_tuples_equal(a.drop_first(), b.drop_first());
        if compare_tuples(a, b) == Comparison::Equal {
            assert(a =~= seq![a[0]] + a.drop_first());
            assert(b =~= seq![b[0]] + b.drop_first());
        }
    } else if a.len() == 0 && b.len() == 0 {
        assert(a =~= b);
    }
}

/// Two relations compare as equal exactly when they hold the same rows in the
/// same order.
pub proof fn lemma_compare_relations_equal(a: Seq<Seq<ValueView>>, b: Seq<Seq<ValueView>>)
    ensures
        (compare_relations(a, b) == Comparison::Equal) <==> a == b,
    decreases a,
{
    if a.len() > 0 && b.len() > 0 {
        lemma_compare_tuples_equal(a[0], b[0]);
        lemma_compare_relations_equal(a.drop_first(), b.drop_first());
        if compare_relations(a, b) == Comparison::Equal {
            assert(a =~= seq![a[0]] + a.drop_first());
            assert(b =~= seq![b[0]] + b.drop_first());
        }
    } else if a.len() == 0 && b.len() == 0 {
        assert(a =~= b);
    }
}

/// Exchanging two texts exchanges less and greater.
pub proof fn lemma_compare_texts_flipped(a: Seq<char>, b: Seq<char>)
    ensures
        compare_texts(b, a) == compare_texts(a, b).flipped(),
    decreases a.len(),
{
    if a.len() > 0 && b.len() > 0 {
        lemma_compare_texts_flipped(a.drop_first(), b.drop_first());
    }
}

/// Exchanging two values exchanges less and greater: one value is below
/// another exactly when the other is above it.
pub proof fn lemma_compare_values_flipped(a: ValueView, b: ValueView)
    ensures
        compare_values(b, a) == compare_values(a, b).flipped(),
    decreases a,
{
    match (a, b) {
        (ValueView::Number(x), ValueView::Number(y)) => {},
        (ValueView::Text(x), ValueView::Text(y)) => {
            lemma_compare_texts_flipped(x, y);
        },
        (ValueView::Tuple(x), ValueView::Tuple(y)) => {
            lemma_compare_tuples_flipped(x, y);
        },
        (ValueView::Relation(x), ValueView::Relation(y)) => {
            lemma_compare_relations_flipped(x, y);
        },
        _ => {},
    }
}

/// Exchanging two tuples exchanges less and greater.
pub proof fn lemma_compare_tuples_flipped(a: Seq<ValueView>, b: Seq<ValueView>)
    ensures
        compare_tuples(b, a) == compare_tuples(a, b).flipped(),
    decreases a,
{
    if a.len() > 0 && b.len() > 0 {
        lemma_compare_values_flipped(a[0], b[0]);
        lemma_compare_tuples_flipped(a.drop_first(), b.drop_first());
    }
}

/// Exchanging two relations exchanges less and greater.
pub proof fn lemma_compare_relations_flipped(a: Seq<Seq<ValueView>>, b: Seq<Seq<ValueView>>)
    ensures
        compare_relations(b, a) == compare_relations(a, b).flipped(),
    decreases a,
{
    if a.len() > 0 && b.len() > 0 {
        lemma_compare_tuples_flipped(a[0], b[0]);
        lemma_compare_relations_flipped(a.drop_first(), b.drop_first());
    }
}

impl Clone for Value {
    fn clone(&self) -> (r: Value)
        ensures
            r@ == self@,
        decreases self,
    {
        match self {
            Value::Number(n) => Value::Number(*n),
            Value::Text(s) => Value::Text(s.clone()),
            Value::Tuple(t) => Value::Tuple(clone_tuple(t)),
            Value::Relation(r) => Value::Relation(clone_rows(r)),
        }
    }
}

/// A copy of a tuple, value by value.
pub fn clone_tuple(t: &Vec<Value>) -> (r: Vec<Value>)
    ensures
        tuple_view(r@) == tuple_view(t@),
    decreases t,
{
    let mut out: Vec<Value> = Vec::new();
    let mut i: usize = 0;
    while i < t.len()
        invariant
            i <= t.len(),
            out.len() == i,
            forall|k: int| 0 <= k < i ==> value_view(#[trigger] out@[k]) == value_view(t@[k]),
        decreases t.len() - i,
    {
        let v = t[i].clone();
        out.push(v);
        i += 1;
    }
    assert(tuple_view(out@) =~= tuple_view(t@));
    out
}

/// A copy of the rows of a relation, row by row.
pub fn clone_rows(r: &Vec<Vec<Value>>) -> (out: Vec<Vec<Value>>)
    ensures
        rows_view(out@) == rows_view(r@),
    decreases r,
{
    let mut out: Vec<Vec<Value>> = Vec::new();
    let mut i: usize = 0;
    while i < r.len()
        invariant
            i <= r.len(),
            out.len() == i,
            forall|k: int| 0 <= k < i ==> tuple_view(#[trigger] out@[k]@) == tuple_view(r@[k]@),
        decreases r.len() - i,
    {
        let row = clone_tuple(&r[i]);
        out.push(row);
        i += 1;
    }
    assert(rows_view(out@) =~= rows_view(r@));
    out
}

/// Compares two texts code point by code point, in one pass over both.
pub fn compare_text(a: &str, b: &str) -> (c: Comparison)
    ensures
        c == compare_texts(a@, b@),
{
    let mut xs = a.chars();
    let mut ys = b.chars();
    loop
        invariant
            xs.decrease() is Some,
            compare_texts(a@, b@) == compare_texts(xs.remaining(), ys.remaining()),
        decreases xs.decrease()->0,
    {
        let x = xs.next();
        let y = ys.next();
        match (x, y) {
            (None, None) => {
                return Comparison::Equal;
            },
            (None, Some(_)) => {
                return Comparison::Less;
            },
            (Some(_), None) => {
                return Comparison::Greater;
            },
            (Some(p), Some(q)) => {
                if p != q {
                    return if p < q {
                        Comparison::Less
                    } else {
                        Comparison::Greater
                    };
                }
            },
        }
    }
}

impl Value {
    /// Compares two values under the partial order.
    pub fn compare(&self, other: &Value) -> (c: Comparison)
        ensures
            c == compare_values(self@, other@),
        decreases self,
    {
        match (self, other) {
            (Value::Number(x), Value::Number(y)) => {
                if *x < *y {
                    Comparison::Less
                } else if *x == *y {
                    Comparison::Equal
                } else {
                    Comparison::Greater
                }
            },
            (Value::Text(x), Value::Text(y)) => compare_text(x.as_str(), y.as_str()),
            (Value::Tuple(x), Value::Tuple(y)) => compare_tuple(x, y),
            (Value::Relation(x), Value::Relation(y)) => compare_rows(x, y),
            _ => Comparison::Unordered,
        }
    }

    /// Whether two values are the same value.
    pub fn same(&self, other: &Value) -> (b: bool)
        ensures
            b == (self@ == other@),
    {
        proof {
            lemma_compare_values_equal(self@, other@);
        }
        match self.compare(other) {
            Comparison::Equal => true,
            _ => false,
        }
    }
}

/// Compares two tuples item by item.
pub fn compare_tuple(a: &Vec<Value>, b: &Vec<Value>) -> (c: Comparison)
    ensures
        c == compare_tuples(tuple_view(a@), tuple_view(b@)),
    decreases a,
{
    let ghost av = tuple_view(a@);
    let ghost bv = tuple_view(b@);
    let mut i: usize = 0;
    proof {
        assert(av.skip(0) =~= av);
        assert(bv.skip(0) =~= bv);
    }
    loop
        invariant
            av == tuple_view(a@),
            bv == tuple_view(b@),
            i <= a.len(),
            i <= b.len(),
            compare_tuples(av, bv) == compare_tuples(av.skip(i as int), bv.skip(i as int)),
        decreases a.len() - i,
    {
        if i == a.len() {
            return if i == b.len() {
                Comparison::Equal
            } else {
                Comparison::Less
            };
        }
        if i == b.len() {
            return Comparison::Greater;
        }
        let c = a[i].compare(&b[i]);
        match c {
            Comparison::Equal => {},
            _ => {
                return c;
            },
        }
        proof {
            assert(av.skip(i as int).drop_first() =~= av.skip(i + 1));
            assert(bv.skip(i as int).drop_first() =~= bv.skip(i + 1));
        }
        i += 1;
    }
}

/// Compares two relations row by row.
pub fn compare_rows(a: &Vec<Vec<Value>>, b: &Vec<Vec<Value>>) -> (c: Comparison)
    ensures
        c == compare_relations(rows_view(a@), rows_view(b@)),
    decreases a,
{
    let ghost av = rows_view(a@);
    let ghost bv = rows_view(b@);
    let mut i: usize = 0;
    proof {
        assert(av.skip(0) =~= av);
        assert(bv.skip(0) =~= bv);
    }
    loop
        invariant
            av == rows_view(a@),
            bv == rows_view(b@),
            i <= a.len(),
            i <= b.len(),
            compare_relations(av, bv) == compare_relations(av.skip(i as int), bv.skip(i as int)),
        decreases a.len() - i,
    {
        if i == a.len() {
            return if i == b.len() {
                Comparison::Equal
            } else {
                Comparison::Less
            };
        }
        if i == b.len() {
            return Comparison::Greater;
        }
        let c = compare_tuple(&a[i], &b[i]);
        match c {
            Comparison::Equal => {},
            _ => {
                return c;
            },
        }
        proof {
            assert(av.skip(i as int).drop_first() =~= av.skip(i + 1));
            assert(bv.skip(i as int).drop_first() =~= bv.skip(i + 1));
        }
        i += 1;
    }
}

} // verus!
