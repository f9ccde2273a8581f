use join_query::validity::rows_are_distinct;
use join_query::{Call, Clause, Constraint, ConstraintOp, Query, QueryIter, Ref, Relation, Source, Tuple, Value};

fn num(n: i64) -> Value {
    Value::Number(n)
}

fn text(s: &str) -> Value {
    Value::Text(s.to_string())
}

fn row1(n: i64) -> Tuple {
    vec![num(n)]
}

fn no_calls(_fun: &String, _args: Vec<Value>) -> Value {
    Value::Number(0)
}

fn arithmetic(fun: &String, args: Vec<Value>) -> Value {
    match (fun.as_str(), args.as_slice()) {
        ("double", [Value::Number(x)]) => Value::Number(x * 2),
        ("sum", [Value::Number(x), Value::Number(y)]) => Value::Number(x + y),
        _ => Value::Number(0),
    }
}

fn drain<F: Fn(&String, Vec<Value>) -> Value>(mut it: QueryIter<F>) -> Vec<Tuple> {
    let mut items = Vec::new();
    loop {
        match it.next() {
            Some(item) => items.push(item),
            None => break,
        }
        assert!(items.len() < 10_000);
    }
    assert_eq!(it.next(), None);
    assert_eq!(it.next(), None);
    items
}

fn full(items: &Vec<Tuple>, len: usize) -> Vec<Tuple> {
    let mut out = Vec::new();
    for item in items {
        if item.len() == len {
            out.push(item.clone());
        }
    }
    out
}

fn scan(relation: usize) -> Clause {
    Clause::Tuple(Source { relation, constraints: vec![] })
}

fn on_first_column(op: ConstraintOp, clause: usize) -> Constraint {
    Constraint { my_column: 0, op, other_ref: Ref::Value { clause, column: 0 } }
}

fn relation_a() -> Relation {
    vec![vec![num(1), text("x")], vec![num(2), text("y")]]
}

fn relation_b() -> Relation {
    vec![vec![num(1), text("p")], vec![num(2), text("q")]]
}

#[test]
fn join_on_equal_keys() {
    let a = relation_a();
    let b = relation_b();
    let query = Query {
        clauses: vec![
            scan(0),
            Clause::Tuple(Source { relation: 1, constraints: vec![on_first_column(ConstraintOp::EQ, 0)] }),
        ],
    };
    assert!(query.accepts(&vec![&a, &b]));
    let items = drain(query.iter(vec![&a, &b], no_calls));
    let matches = full(&items, 2);
    assert_eq!(
        matches,
        vec![
            vec![Value::Tuple(vec![num(1), text("x")]), Value::Tuple(vec![num(1), text("p")])],
            vec![Value::Tuple(vec![num(2), text("y")]), Value::Tuple(vec![num(2), text("q")])],
        ]
    );
    assert_eq!(items, matches);
}

#[test]
fn call_on_scanned_column() {
    let a: Relation = vec![vec![num(3), text("z")]];
    let query = Query {
        clauses: vec![
            scan(0),
            Clause::Call(Call {
                fun: "double".to_string(),
                arg_refs: vec![Ref::Value { clause: 0, column: 0 }],
            }),
        ],
    };
    assert!(query.accepts(&vec![&a]));
    let items = drain(query.iter(vec![&a], arithmetic));
    assert_eq!(items, vec![vec![Value::Tuple(vec![num(3), text("z")]), num(6)]]);
}

#[test]
fn empty_plan_yields_one_empty_result() {
    let query = Query { clauses: vec![] };
    let mut it = query.iter(vec![], no_calls);
    assert_eq!(it.next(), Some(vec![]));
    assert_eq!(it.next(), None);
    assert_eq!(it.next(), None);
    assert_eq!(it.size_hint(), (0, None));
}

#[test]
fn plain_scans_yield_the_product() {
    let a: Relation = vec![row1(1), row1(2)];
    let b: Relation = vec![row1(10), row1(20), row1(30)];
    let query = Query { clauses: vec![scan(0), scan(1)] };
    let items = drain(query.iter(vec![&a, &b], no_calls));
    let mut expected = Vec::new();
    for x in [1, 2] {
        for y in [10, 20, 30] {
            expected.push(vec![Value::Tuple(row1(x)), Value::Tuple(row1(y))]);
        }
    }
    assert_eq!(items, expected);
    assert_eq!(items.len(), 6);
}

#[test]
fn product_of_three_scans_over_one_relation() {
    let a: Relation = vec![row1(0), row1(1)];
    let query = Query { clauses: vec![scan(0), scan(0), scan(0)] };
    let items = drain(query.iter(vec![&a], no_calls));
    assert_eq!(items.len(), 8);
    assert_eq!(
        items[5],
        vec![Value::Tuple(row1(1)), Value::Tuple(row1(0)), Value::Tuple(row1(1))]
    );
    for item in &items {
        assert_eq!(item.len(), 3);
    }
}

#[test]
fn short_items_mark_dead_ends() {
    let a: Relation = vec![row1(1), row1(2), row1(3)];
    let b: Relation = vec![row1(2)];
    let query = Query {
        clauses: vec![
            scan(0),
            Clause::Tuple(Source { relation: 1, constraints: vec![on_first_column(ConstraintOp::EQ, 0)] }),
        ],
    };
    let items = drain(query.iter(vec![&a, &b], no_calls));
    assert_eq!(
        items,
        vec![
            vec![Value::Tuple(row1(1))],
            vec![Value::Tuple(row1(2)), Value::Tuple(row1(2))],
            vec![Value::Tuple(row1(3))],
        ]
    );
    assert_eq!(full(&items, 2).len(), 1);
}

#[test]
fn scan_of_empty_relation_yields_the_empty_marker() {
    let a: Relation = vec![];
    let b: Relation = vec![row1(1)];
    let query = Query { clauses: vec![scan(0), scan(1)] };
    let mut it = query.iter(vec![&a, &b], no_calls);
    assert_eq!(it.next(), Some(vec![]));
    assert_eq!(it.next(), None);
}

#[test]
fn dead_end_in_the_last_clause_backtracks_to_the_first() {
    let a: Relation = vec![row1(1), row1(2)];
    let b: Relation = vec![row1(5), row1(6)];
    let c: Relation = vec![row1(2)];
    let query = Query {
        clauses: vec![
            scan(0),
            scan(1),
            Clause::Tuple(Source { relation: 2, constraints: vec![on_first_column(ConstraintOp::EQ, 0)] }),
        ],
    };
    let items = drain(query.iter(vec![&a, &b, &c], no_calls));
    let t = |n: i64| Value::Tuple(row1(n));
    assert_eq!(
        items,
        vec![
            vec![t(1), t(5)],
            vec![t(1), t(6)],
            vec![t(2), t(5), t(2)],
            vec![t(2), t(6), t(2)],
        ]
    );
}

#[test]
fn full_results_meet_every_constraint() {
    let a: Relation = vec![row1(1), row1(2), row1(3), row1(4)];
    let query = Query {
        clauses: vec![
            scan(0),
            Clause::Tuple(Source {
                relation: 0,
                constraints: vec![
                    on_first_column(ConstraintOp::GT, 0),
                    Constraint { my_column: 0, op: ConstraintOp::NEQ, other_ref: Ref::Constant { value: num(3) } },
                ],
            }),
        ],
    };
    let items = drain(query.iter(vec![&a], no_calls));
    let matches = full(&items, 2);
    let t = |n: i64| Value::Tuple(row1(n));
    assert_eq!(
        matches,
        vec![vec![t(1), t(2)], vec![t(1), t(4)], vec![t(2), t(4)], vec![t(3), t(4)]]
    );
    assert_eq!(items.len(), 5);
    assert_eq!(items[4], vec![t(4)]);
}

#[test]
fn relation_clause_with_nothing_kept_still_yields_one_candidate() {
    let a: Relation = vec![row1(1), row1(2)];
    let b: Relation = vec![row1(2), row1(2)];
    let query = Query {
        clauses: vec![
            scan(0),
            Clause::Relation(Source { relation: 1, constraints: vec![on_first_column(ConstraintOp::EQ, 0)] }),
        ],
    };
    let items = drain(query.iter(vec![&a, &b], no_calls));
    assert_eq!(
        items,
        vec![
            vec![Value::Tuple(row1(1)), Value::Relation(vec![])],
            vec![Value::Tuple(row1(2)), Value::Relation(vec![row1(2), row1(2)])],
        ]
    );
}

#[test]
fn relation_value_can_be_compared_by_a_later_clause() {
    let a: Relation = vec![row1(1)];
    let b: Relation = vec![vec![Value::Relation(vec![row1(1)])], vec![Value::Relation(vec![])]];
    let query = Query {
        clauses: vec![
            Clause::Relation(Source { relation: 0, constraints: vec![] }),
            Clause::Tuple(Source {
                relation: 1,
                constraints: vec![Constraint {
                    my_column: 0,
                    op: ConstraintOp::EQ,
                    other_ref: Ref::Relation { clause: 0 },
                }],
            }),
        ],
    };
    assert!(query.accepts(&vec![&a, &b]));
    let items = drain(query.iter(vec![&a, &b], no_calls));
    assert_eq!(
        items,
        vec![vec![
            Value::Relation(vec![row1(1)]),
            Value::Tuple(vec![Value::Relation(vec![row1(1)])]),
        ]]
    );
}

#[test]
fn calls_can_read_call_results_and_constants() {
    let query = Query {
        clauses: vec![
            Clause::Call(Call { fun: "double".to_string(), arg_refs: vec![Ref::Constant { value: num(4) }] }),
            Clause::Call(Call {
                fun: "sum".to_string(),
                arg_refs: vec![Ref::Call { clause: 0 }, Ref::Constant { value: num(1) }],
            }),
        ],
    };
    assert!(query.accepts(&vec![]));
    let items = drain(query.iter(vec![], arithmetic));
    assert_eq!(items, vec![vec![num(8), num(9)]]);
}

#[test]
fn whole_tuple_reference() {
    let a: Relation = vec![row1(1), row1(2)];
    let b: Relation = vec![vec![Value::Tuple(row1(2)), text("hit")]];
    let query = Query {
        clauses: vec![
            scan(0),
            Clause::Tuple(Source {
                relation: 1,
                constraints: vec![Constraint {
                    my_column: 0,
                    op: ConstraintOp::EQ,
                    other_ref: Ref::Tuple { clause: 0 },
                }],
            }),
        ],
    };
    assert!(query.accepts(&vec![&a, &b]));
    let items = drain(query.iter(vec![&a, &b], no_calls));
    assert_eq!(
        full(&items, 2),
        vec![vec![Value::Tuple(row1(2)), Value::Tuple(vec![Value::Tuple(row1(2)), text("hit")])]]
    );
    assert_eq!(items.len(), 2);
}

#[test]
fn two_walks_over_one_plan_agree() {
    let a = relation_a();
    let b = relation_b();
    let query = Query { clauses: vec![scan(0), scan(1)] };
    let first = drain(query.iter(vec![&a, &b], no_calls));
    let second = drain(query.iter(vec![&a, &b], no_calls));
    assert_eq!(first, second);
    assert_eq!(first.len(), 4);
}

#[test]
fn distinct_rows_give_distinct_items() {
    let a: Relation = vec![row1(1), row1(2), row1(3)];
    let b: Relation = vec![row1(2), row1(3), row1(4)];
    assert!(rows_are_distinct(&a) && rows_are_distinct(&b));
    let query = Query {
        clauses: vec![
            scan(0),
            Clause::Tuple(Source { relation: 1, constraints: vec![on_first_column(ConstraintOp::GT, 0)] }),
            Clause::Relation(Source { relation: 0, constraints: vec![on_first_column(ConstraintOp::LT, 1)] }),
        ],
    };
    let items = drain(query.iter(vec![&a, &b], no_calls));
    assert_eq!(items.len(), 6);
    for i in 0..items.len() {
        for j in 0..items.len() {
            assert_eq!(items[i] == items[j], i == j);
        }
    }
}

#[test]
fn a_repeated_row_is_a_candidate_twice() {
    let a: Relation = vec![row1(1), row1(1)];
    assert!(!rows_are_distinct(&a));
    let query = Query { clauses: vec![scan(0)] };
    let items = drain(query.iter(vec![&a], no_calls));
    assert_eq!(items, vec![vec![Value::Tuple(row1(1))], vec![Value::Tuple(row1(1))]]);
}
