use join_query::convert::wrap_index;
use join_query::key::key_of_bits;
use join_query::validity::{rows_are_distinct, rows_have_column};
use join_query::value::{clone_rows, clone_tuple, compare_rows, compare_text, compare_tuple};
use join_query::{
    Call, Clause, Comparison, Constraint, ConstraintOp, Query, Ref, Relation, Source, ToClause, ToRef, Tuple, Value,
};

fn n(x: i64) -> Value {
    Value::Number(x)
}

fn t(s: &str) -> Value {
    Value::Text(s.to_string())
}

fn arithmetic(fun: &String, args: Vec<Value>) -> Value {
    match (fun.as_str(), args.as_slice()) {
        ("double", [Value::Number(x)]) => Value::Number(x * 2),
        ("sum", [Value::Number(x), Value::Number(y)]) => Value::Number(x + y),
        ("shout", [Value::Text(s)]) => Value::Text(s.to_uppercase()),
        _ => Value::Number(0),
    }
}

fn partial() -> Vec<Value> {
    vec![
        Value::Tuple(vec![n(7), t("seven")]),
        Value::Relation(vec![vec![n(1)], vec![n(2)]]),
        n(42),
        t("answer"),
    ]
}

#[test]
fn numbers_are_ordered_by_size() {
    assert_eq!(n(1).compare(&n(2)), Comparison::Less);
    assert_eq!(n(2).compare(&n(2)), Comparison::Equal);
    assert_eq!(n(3).compare(&n(2)), Comparison::Greater);
    assert_eq!(n(i64::MIN).compare(&n(i64::MAX)), Comparison::Less);
    assert_eq!(n(-1).compare(&n(0)), Comparison::Less);
}

#[test]
fn texts_are_ordered_lexicographically() {
    assert_eq!(compare_text("", ""), Comparison::Equal);
    assert_eq!(compare_text("", "a"), Comparison::Less);
    assert_eq!(compare_text("a", ""), Comparison::Greater);
    assert_eq!(compare_text("abc", "abd"), Comparison::Less);
    assert_eq!(compare_text("abc", "ab"), Comparison::Greater);
    assert_eq!(compare_text("b", "abc"), Comparison::Greater);
    assert_eq!(compare_text("same", "same"), Comparison::Equal);
    assert_eq!(compare_text("z", "\u{e9}"), Comparison::Less);
    assert_eq!(t("p").compare(&t("q")), Comparison::Less);
}

#[test]
fn text_order_agrees_with_the_order_of_strings() {
    let words = ["", "a", "ab", "b", "ba", "\u{e9}t\u{e9}", "z", "\u{1f600}", "Z"];
    for x in words {
        for y in words {
            let expected = if x < y {
                Comparison::Less
            } else if x == y {
                Comparison::Equal
            } else {
                Comparison::Greater
            };
            assert_eq!(compare_text(x, y), expected);
        }
    }
}

#[test]
fn tuples_are_ordered_item_by_item() {
    assert_eq!(compare_tuple(&vec![], &vec![]), Comparison::Equal);
    assert_eq!(compare_tuple(&vec![], &vec![n(1)]), Comparison::Less);
    assert_eq!(compare_tuple(&vec![n(1)], &vec![]), Comparison::Greater);
    assert_eq!(compare_tuple(&vec![n(1), n(2)], &vec![n(1), n(3)]), Comparison::Less);
    assert_eq!(compare_tuple(&vec![n(2), n(0)], &vec![n(1), n(3)]), Comparison::Greater);
    assert_eq!(compare_tuple(&vec![n(1), t("a")], &vec![n(1), t("a")]), Comparison::Equal);
    assert_eq!(compare_tuple(&vec![n(1), t("a")], &vec![n(1), n(5)]), Comparison::Unordered);
    assert_eq!(compare_tuple(&vec![n(0), t("a")], &vec![n(1), n(5)]), Comparison::Less);
    assert_eq!(
        Value::Tuple(vec![n(1), n(2)]).compare(&Value::Tuple(vec![n(1), n(2), n(0)])),
        Comparison::Less
    );
}

#[test]
fn relations_are_ordered_row_by_row() {
    let a: Relation = vec![vec![n(1)], vec![n(2)]];
    let b: Relation = vec![vec![n(1)], vec![n(3)]];
    assert_eq!(compare_rows(&a, &b), Comparison::Less);
    assert_eq!(compare_rows(&b, &a), Comparison::Greater);
    assert_eq!(compare_rows(&a, &a), Comparison::Equal);
    assert_eq!(compare_rows(&vec![], &a), Comparison::Less);
    assert_eq!(Value::Relation(a).compare(&Value::Relation(b)), Comparison::Less);
}

#[test]
fn values_of_different_shapes_are_unordered() {
    let values = vec![n(1), t("1"), Value::Tuple(vec![n(1)]), Value::Relation(vec![vec![n(1)]])];
    for (i, x) in values.iter().enumerate() {
        for (j, y) in values.iter().enumerate() {
            if i == j {
                assert_eq!(x.compare(y), Comparison::Equal);
                assert!(x.same(y));
            } else {
                assert_eq!(x.compare(y), Comparison::Unordered);
                assert!(!x.same(y));
            }
        }
    }
}

#[test]
fn copies_are_equal_to_what_they_copy() {
    let value = Value::Tuple(vec![n(1), t("a"), Value::Relation(vec![vec![n(2), t("b")], vec![]])]);
    let copy = value.clone();
    assert_eq!(copy, value);
    assert!(copy.same(&value));
    let row: Tuple = vec![n(1), t("x")];
    assert_eq!(clone_tuple(&row), row);
    let rows: Relation = vec![row, vec![], vec![Value::Tuple(vec![n(3)])]];
    assert_eq!(clone_rows(&rows), rows);
}

#[test]
fn operators_on_ordered_values() {
    let table = [
        (ConstraintOp::LT, [true, false, false]),
        (ConstraintOp::LTE, [true, true, false]),
        (ConstraintOp::EQ, [false, true, false]),
        (ConstraintOp::NEQ, [true, false, true]),
        (ConstraintOp::GT, [false, false, true]),
        (ConstraintOp::GTE, [false, true, true]),
    ];
    for (op, expected) in table {
        assert_eq!(op.apply(&n(1), &n(2)), expected[0]);
        assert_eq!(op.apply(&n(2), &n(2)), expected[1]);
        assert_eq!(op.apply(&n(3), &n(2)), expected[2]);
        assert_eq!(op.apply(&t("a"), &t("b")), expected[0]);
        assert_eq!(op.apply(&t("b"), &t("b")), expected[1]);
        assert_eq!(op.apply(&t("c"), &t("b")), expected[2]);
    }
}

#[test]
fn ordering_operators_are_false_on_unordered_values() {
    let left = n(1);
    let right = t("1");
    assert!(!ConstraintOp::LT.apply(&left, &right));
    assert!(!ConstraintOp::LTE.apply(&left, &right));
    assert!(!ConstraintOp::GT.apply(&left, &right));
    assert!(!ConstraintOp::GTE.apply(&left, &right));
    assert!(!ConstraintOp::EQ.apply(&left, &right));
    assert!(ConstraintOp::NEQ.apply(&left, &right));
}

#[test]
fn references_resolve_against_the_partial_result() {
    let result = partial();
    let constant = Ref::Constant { value: t("fixed") };
    assert_eq!(constant.resolve(&result), &t("fixed"));
    assert_eq!(Ref::Value { clause: 0, column: 0 }.resolve(&result), &n(7));
    assert_eq!(Ref::Value { clause: 0, column: 1 }.resolve(&result), &t("seven"));
    assert_eq!(Ref::Tuple { clause: 0 }.resolve(&result), &Value::Tuple(vec![n(7), t("seven")]));
    assert_eq!(
        Ref::Relation { clause: 1 }.resolve(&result),
        &Value::Relation(vec![vec![n(1)], vec![n(2)]])
    );
    assert_eq!(Ref::Call { clause: 2 }.resolve(&result), &n(42));
    assert_eq!(Ref::Call { clause: 3 }.resolve(&result), &t("answer"));
}

#[test]
fn constraint_reads_its_column_and_its_reference() {
    let result = partial();
    let constraint = Constraint { my_column: 1, op: ConstraintOp::LT, other_ref: Ref::Value { clause: 0, column: 0 } };
    assert_eq!(constraint.prepare(&result), &n(7));
    assert!(constraint.test(&vec![t("skipped"), n(6)], &n(7)));
    assert!(!constraint.test(&vec![n(0), n(7)], &n(7)));
    assert!(!constraint.test(&vec![n(0), t("six")], &n(7)));
}

#[test]
fn source_keeps_matching_rows_in_order() {
    let rows: Relation = vec![
        vec![n(9), t("i")],
        vec![n(3), t("c")],
        vec![n(8), t("h")],
        vec![n(7), t("g")],
        vec![n(3), t("again")],
    ];
    let other: Relation = vec![];
    let source = Source {
        relation: 1,
        constraints: vec![
            Constraint { my_column: 0, op: ConstraintOp::LTE, other_ref: Ref::Value { clause: 0, column: 0 } },
            Constraint { my_column: 1, op: ConstraintOp::NEQ, other_ref: Ref::Constant { value: t("c") } },
        ],
    };
    let kept = source.constrained_to(&vec![&other, &rows], &partial());
    assert_eq!(kept, vec![vec![n(7), t("g")], vec![n(3), t("again")]]);
    let all = Source { relation: 1, constraints: vec![] };
    assert_eq!(all.constrained_to(&vec![&other, &rows], &partial()), rows);
    assert_eq!(all.constrained_to(&vec![&rows, &other], &vec![]), other);
}

#[test]
fn call_hands_the_resolved_arguments_to_the_evaluator() {
    let result = partial();
    let sum = Call {
        fun: "sum".to_string(),
        arg_refs: vec![Ref::Value { clause: 0, column: 0 }, Ref::Call { clause: 2 }],
    };
    assert_eq!(sum.eval(&result, &arithmetic), n(49));
    let shout = Call { fun: "shout".to_string(), arg_refs: vec![Ref::Call { clause: 3 }] };
    assert_eq!(shout.eval(&result, &arithmetic), t("ANSWER"));
    let seen = |fun: &String, args: Vec<Value>| Value::Tuple(vec![Value::Text(fun.clone()), Value::Tuple(args)]);
    let probe = Call {
        fun: "probe".to_string(),
        arg_refs: vec![Ref::Constant { value: n(1) }, Ref::Tuple { clause: 0 }],
    };
    assert_eq!(
        probe.eval(&result, &seen),
        Value::Tuple(vec![t("probe"), Value::Tuple(vec![n(1), Value::Tuple(vec![n(7), t("seven")])])])
    );
}

#[test]
fn clause_candidates_by_kind() {
    let rows: Relation = vec![vec![n(1)], vec![n(2)], vec![n(3)]];
    let inputs = vec![&rows];
    let odd_one_out = Source {
        relation: 0,
        constraints: vec![Constraint { my_column: 0, op: ConstraintOp::NEQ, other_ref: Ref::Constant { value: n(2) } }],
    };
    let none = Source {
        relation: 0,
        constraints: vec![Constraint { my_column: 0, op: ConstraintOp::GT, other_ref: Ref::Constant { value: n(3) } }],
    };
    assert_eq!(
        Clause::Tuple(odd_one_out.clone()).constrained_to(&inputs, &vec![], &arithmetic),
        vec![Value::Tuple(vec![n(1)]), Value::Tuple(vec![n(3)])]
    );
    assert_eq!(Clause::Tuple(none.clone()).constrained_to(&inputs, &vec![], &arithmetic), vec![]);
    assert_eq!(
        Clause::Relation(odd_one_out).constrained_to(&inputs, &vec![], &arithmetic),
        vec![Value::Relation(vec![vec![n(1)], vec![n(3)]])]
    );
    assert_eq!(
        Clause::Relation(none).constrained_to(&inputs, &vec![], &arithmetic),
        vec![Value::Relation(vec![])]
    );
    let call = Call { fun: "double".to_string(), arg_refs: vec![Ref::Constant { value: n(21) }] };
    assert_eq!(Clause::Call(call).constrained_to(&inputs, &vec![], &arithmetic), vec![n(42)]);
}

#[test]
fn plain_values_as_references() {
    assert!(matches!("x".to_constref(), Ref::Constant { value: Value::Text(s) } if s == "x"));
    assert!(matches!(5i32.to_constref(), Ref::Constant { value: Value::Number(5) }));
    assert!(matches!((-5i32).to_constref(), Ref::Constant { value: Value::Number(-5) }));
    assert!(matches!(3i32.to_callref(), Ref::Call { clause: 3 }));
    assert!(matches!((2i32, 4i32).to_valref(), Ref::Value { clause: 2, column: 4 }));
    assert!(matches!((6usize, 1usize).to_valref(), Ref::Value { clause: 6, column: 1 }));
    assert!(matches!(n(9).to_constref(), Ref::Constant { value: Value::Number(9) }));
}

#[test]
fn clauses_and_calls_as_clauses() {
    let call = Call { fun: "double".to_string(), arg_refs: vec![] };
    assert!(matches!(call.to_clause(), Clause::Call(Call { fun, arg_refs }) if fun == "double" && arg_refs.is_empty()));
    let scan = Clause::Tuple(Source { relation: 3, constraints: vec![] });
    assert!(matches!(scan.to_clause(), Clause::Tuple(Source { relation: 3, .. })));
}

#[test]
fn columns_of_rows() {
    let rows: Relation = vec![vec![n(1), n(2)], vec![n(3)], vec![n(4), n(5), n(6)]];
    assert!(rows_have_column(&rows, 0));
    assert!(!rows_have_column(&rows, 1));
    assert!(!rows_have_column(&rows, 2));
    assert!(rows_have_column(&vec![], 100));
}

fn one_scan(constraints: Vec<Constraint>) -> Clause {
    Clause::Tuple(Source { relation: 0, constraints })
}

fn reads(other_ref: Ref) -> Clause {
    one_scan(vec![Constraint { my_column: 0, op: ConstraintOp::EQ, other_ref }])
}

#[test]
fn plans_in_order() {
    let rows: Relation = vec![vec![n(1), n(2)], vec![n(3), n(4)]];
    let inputs = vec![&rows];
    let call = Clause::Call(Call { fun: "double".to_string(), arg_refs: vec![Ref::Value { clause: 0, column: 1 }] });
    let gather = Clause::Relation(Source { relation: 0, constraints: vec![] });
    let query = Query {
        clauses: vec![
            one_scan(vec![]),
            call,
            gather,
            reads(Ref::Value { clause: 0, column: 1 }),
            reads(Ref::Tuple { clause: 3 }),
            reads(Ref::Relation { clause: 2 }),
            reads(Ref::Call { clause: 1 }),
            reads(Ref::Constant { value: n(0) }),
        ],
    };
    assert!(query.accepts(&inputs));
    assert!(Query { clauses: vec![] }.accepts(&inputs));
    assert!(Query { clauses: vec![] }.accepts(&vec![]));
}

#[test]
fn plans_out_of_order() {
    let rows: Relation = vec![vec![n(1), n(2)], vec![n(3)]];
    let inputs = vec![&rows];
    let rejected = |clauses: Vec<Clause>| !Query { clauses }.accepts(&inputs);
    let call = || Clause::Call(Call { fun: "double".to_string(), arg_refs: vec![] });
    let gather = || Clause::Relation(Source { relation: 0, constraints: vec![] });
    // a relation that is not among the inputs
    assert!(rejected(vec![Clause::Tuple(Source { relation: 1, constraints: vec![] })]));
    assert!(rejected(vec![Clause::Relation(Source { relation: 1, constraints: vec![] })]));
    // a column that some row lacks
    assert!(rejected(vec![one_scan(vec![Constraint {
        my_column: 1,
        op: ConstraintOp::EQ,
        other_ref: Ref::Constant { value: n(0) },
    }])]));
    assert!(rejected(vec![one_scan(vec![]), reads(Ref::Value { clause: 0, column: 1 })]));
    // a clause that does not come before
    assert!(rejected(vec![reads(Ref::Value { clause: 0, column: 0 })]));
    assert!(rejected(vec![one_scan(vec![]), reads(Ref::Tuple { clause: 1 })]));
    assert!(rejected(vec![one_scan(vec![]), reads(Ref::Tuple { clause: 2 }), one_scan(vec![])]));
    assert!(rejected(vec![Clause::Call(Call { fun: "f".to_string(), arg_refs: vec![Ref::Call { clause: 0 }] })]));
    // a clause of another kind
    assert!(rejected(vec![gather(), reads(Ref::Value { clause: 0, column: 0 })]));
    assert!(rejected(vec![call(), reads(Ref::Tuple { clause: 0 })]));
    assert!(rejected(vec![one_scan(vec![]), reads(Ref::Relation { clause: 0 })]));
    assert!(rejected(vec![one_scan(vec![]), reads(Ref::Call { clause: 0 })]));
    assert!(rejected(vec![gather(), reads(Ref::Call { clause: 0 })]));
    // the same references, in order
    assert!(!rejected(vec![one_scan(vec![]), reads(Ref::Value { clause: 0, column: 0 })]));
    assert!(!rejected(vec![call(), reads(Ref::Call { clause: 0 })]));
    assert!(!rejected(vec![gather(), reads(Ref::Relation { clause: 0 })]));
}

#[test]
fn negative_numbers_name_indices_from_the_top() {
    assert_eq!(wrap_index(0), 0);
    assert_eq!(wrap_index(7), 7);
    assert_eq!(wrap_index(i32::MAX), i32::MAX as usize);
    assert_eq!(wrap_index(-1), usize::MAX);
    assert_eq!(wrap_index(-2), usize::MAX - 1);
    assert_eq!(wrap_index(i32::MIN), usize::MAX - (i32::MAX as usize));
    for n in [i32::MIN, -1000, -2, -1, 0, 1, 2, 1000, i32::MAX] {
        assert_eq!(wrap_index(n), n as usize);
    }
    assert!(matches!((-1i32).to_callref(), Ref::Call { clause: usize::MAX }));
    assert!(matches!((-1i32, 3i32).to_valref(), Ref::Value { clause: usize::MAX, column: 3 }));
    assert!(matches!((3i32, -3i32).to_valref(), Ref::Value { clause: 3, column } if column == usize::MAX - 2));
}

#[test]
fn a_reference_from_a_negative_number_is_out_of_order() {
    let rows: Relation = vec![vec![n(1)]];
    let call = Clause::Call(Call { fun: "double".to_string(), arg_refs: vec![] });
    let later = Clause::Call(Call { fun: "double".to_string(), arg_refs: vec![(-1i32).to_callref()] });
    assert!(!Query { clauses: vec![call, later] }.accepts(&vec![&rows]));
}

#[test]
fn keys_of_bits() {
    assert_eq!(key_of_bits(0), 0);
    assert_eq!(key_of_bits(5), 5);
    assert_eq!(key_of_bits(i64::MAX), i64::MAX);
    assert_eq!(key_of_bits(-1), i64::MIN);
    assert_eq!(key_of_bits(-2), i64::MIN + 1);
    assert_eq!(key_of_bits(i64::MIN), -1);
    assert_eq!(key_of_bits(i64::MIN + 1), -2);
    assert_eq!(key_of_bits(-1), -1 ^ i64::MAX);
    for bits in [i64::MIN, i64::MIN + 1, -77, -1, 0, 1, 77, i64::MAX] {
        assert_eq!(key_of_bits(key_of_bits(bits)), bits);
        assert_eq!(key_of_bits(bits) < 0, bits < 0);
    }
}

#[test]
fn keys_stand_in_the_order_of_the_numbers() {
    let numbers: [f64; 13] = [
        f64::NEG_INFINITY,
        -1e300,
        -2.5,
        -1.0,
        -0.5,
        -1e-300,
        0.0,
        1e-300,
        0.5,
        1.0,
        2.5,
        1e300,
        f64::INFINITY,
    ];
    let key = |x: f64| key_of_bits(x.to_bits() as i64);
    for i in 0..numbers.len() {
        assert_eq!(f64::from_bits(key_of_bits(key(numbers[i])) as u64), numbers[i]);
        for j in 0..numbers.len() {
            assert_eq!(key(numbers[i]) < key(numbers[j]), numbers[i] < numbers[j]);
            assert_eq!(
                Value::Number(key(numbers[i])).compare(&Value::Number(key(numbers[j]))) == Comparison::Less,
                numbers[i] < numbers[j]
            );
        }
    }
    assert_eq!(key(1.0), 1.0f64.to_bits() as i64);
    assert!(key(-0.0) < key(0.0));
}

#[test]
fn relations_with_and_without_repeated_rows() {
    assert!(rows_are_distinct(&vec![]));
    assert!(rows_are_distinct(&vec![vec![n(1)]]));
    assert!(rows_are_distinct(&vec![vec![n(1)], vec![n(2)], vec![n(1), n(1)], vec![t("1")]]));
    assert!(!rows_are_distinct(&vec![vec![n(1)], vec![n(1)]]));
    assert!(!rows_are_distinct(&vec![vec![n(1), t("a")], vec![n(2)], vec![n(3)], vec![n(1), t("a")]]));
    assert!(!rows_are_distinct(&vec![vec![], vec![n(2)], vec![]]));
}
