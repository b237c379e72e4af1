use eir_core::hir::{
    AVariable, AliasedClosure, AtomicLiteral, Clause, Closure, Expression, FunctionDefinition,
    Pattern, SingleExpression, SingleExpressionKind,
};
use eir_core::scope_tracker::{LambdaEnvIdx, ScopeDefinition, ScopeTracker};
use eir_core::ssa_model::SsaError;
use eir_core::ssa_pass::{assign_ssa_expression, assign_ssa_single_expression};
use eir_core::ssa_variable::{SSAVariable, SSAVariableGenerator};

fn node(kind: SingleExpressionKind) -> SingleExpression {
    SingleExpression { ssa: SSAVariable(0), kind }
}

fn boxed(kind: SingleExpressionKind) -> Box<SingleExpression> {
    Box::new(node(kind))
}

fn avar(name: &str) -> AVariable {
    AVariable { var: name.to_string(), ssa: SSAVariable(0) }
}

fn var_ref(name: &str) -> SingleExpressionKind {
    SingleExpressionKind::Variable(avar(name))
}

fn literal(n: i64) -> SingleExpressionKind {
    SingleExpressionKind::Atomic(AtomicLiteral::Integer(n))
}

fn tracker_with(bindings: Vec<(ScopeDefinition, SSAVariable)>, first: u64) -> ScopeTracker {
    let mut env = ScopeTracker::with_generator(SSAVariableGenerator::starting_at(first));
    env.push_scope(bindings);
    env
}

fn ssa_of_variable(e: &SingleExpression) -> SSAVariable {
    match &e.kind {
        SingleExpressionKind::Variable(v) => {
            assert_eq!(v.ssa, e.ssa);
            v.ssa
        }
        other => panic!("not a variable: {:?}", other),
    }
}

#[test]
fn generator_issues_each_name_once() {
    let mut g = SSAVariableGenerator::initial();
    let a = g.next().unwrap();
    let b = g.next().unwrap();
    let c = g.next().unwrap();
    assert_eq!(a, SSAVariable(1));
    assert_eq!(b, SSAVariable(2));
    assert_eq!(c, SSAVariable(3));
    assert_ne!(a, SSAVariable::invalid());
}

#[test]
fn generator_ends_at_the_last_name() {
    let mut g = SSAVariableGenerator::starting_at(u64::MAX - 1);
    assert_eq!(g.next(), Some(SSAVariable(u64::MAX - 1)));
    assert_eq!(g.next(), None);
    assert_eq!(g.next(), None);
}

#[test]
fn lookup_finds_the_innermost_binding() {
    let mut env = ScopeTracker::new();
    env.push_scope(vec![(ScopeDefinition::Variable("x".to_string()), SSAVariable(10))]);
    env.push_scope(vec![
        (ScopeDefinition::Variable("x".to_string()), SSAVariable(20)),
        (ScopeDefinition::Variable("x".to_string()), SSAVariable(21)),
    ]);
    assert_eq!(env.get(&ScopeDefinition::Variable("x".to_string())), Some(SSAVariable(21)));
    env.pop_scope();
    assert_eq!(env.get(&ScopeDefinition::Variable("x".to_string())), Some(SSAVariable(10)));
    assert_eq!(env.get(&ScopeDefinition::Function("x".to_string())), None);
    assert_eq!(env.get(&ScopeDefinition::Variable("y".to_string())), None);
}

#[test]
fn tracking_records_each_outer_variable_once() {
    let mut env = ScopeTracker::new();
    env.push_scope(vec![
        (ScopeDefinition::Variable("a".to_string()), SSAVariable(1)),
        (ScopeDefinition::Variable("b".to_string()), SSAVariable(2)),
        (ScopeDefinition::Function("f".to_string()), SSAVariable(3)),
    ]);
    env.push_tracking();
    env.push_scope(vec![(ScopeDefinition::Variable("c".to_string()), SSAVariable(4))]);
    assert_eq!(env.get(&ScopeDefinition::Variable("b".to_string())), Some(SSAVariable(2)));
    assert_eq!(env.get(&ScopeDefinition::Variable("c".to_string())), Some(SSAVariable(4)));
    assert_eq!(env.get(&ScopeDefinition::Variable("a".to_string())), Some(SSAVariable(1)));
    assert_eq!(env.get(&ScopeDefinition::Variable("b".to_string())), Some(SSAVariable(2)));
    assert_eq!(env.get(&ScopeDefinition::Function("f".to_string())), Some(SSAVariable(3)));
    env.pop_scope();
    let captures = env.pop_tracking();
    assert_eq!(
        captures,
        vec![("b".to_string(), SSAVariable(2), 0), ("a".to_string(), SSAVariable(1), 1)]
    );
}

#[test]
fn nested_tracking_keeps_inner_bindings_out_of_the_outer_frame() {
    let mut env = ScopeTracker::new();
    env.push_scope(vec![(ScopeDefinition::Variable("far".to_string()), SSAVariable(1))]);
    env.push_tracking();
    env.push_scope(vec![(ScopeDefinition::Variable("near".to_string()), SSAVariable(2))]);
    env.push_tracking();
    env.push_scope(vec![]);
    assert_eq!(env.get(&ScopeDefinition::Variable("near".to_string())), Some(SSAVariable(2)));
    assert_eq!(env.get(&ScopeDefinition::Variable("far".to_string())), Some(SSAVariable(1)));
    env.pop_scope();
    let inner = env.pop_tracking();
    env.pop_scope();
    let outer = env.pop_tracking();
    assert_eq!(
        inner,
        vec![("near".to_string(), SSAVariable(2), 0), ("far".to_string(), SSAVariable(1), 1)]
    );
    assert_eq!(outer, vec![("far".to_string(), SSAVariable(1), 0)]);
}

#[test]
fn lambda_envs_are_numbered_densely() {
    let mut env = ScopeTracker::new();
    let a = env.add_lambda_env(eir_core::scope_tracker::LambdaEnv {
        captures: vec![],
        meta_binds: vec![],
    });
    let b = env.add_lambda_env(eir_core::scope_tracker::LambdaEnv {
        captures: vec![("v".to_string(), SSAVariable(7), 0)],
        meta_binds: vec![],
    });
    assert_eq!(a, LambdaEnvIdx(0));
    assert_eq!(b, LambdaEnvIdx(1));
    assert_eq!(env.lambda_env_count(), 2);
    assert_eq!(env.lambda_env(b).unwrap().captures.len(), 1);
    assert!(env.lambda_env(LambdaEnvIdx(2)).is_none());
}

#[test]
fn let_chain_takes_the_name_of_the_bound_value() {
    // let x = 1 in let y = x in y
    let mut expr = node(SingleExpressionKind::Let {
        val: Expression { values: vec![node(literal(1))] },
        vars: vec![avar("x")],
        body: boxed(SingleExpressionKind::Let {
            val: Expression { values: vec![node(var_ref("x"))] },
            vars: vec![avar("y")],
            body: boxed(var_ref("y")),
        }),
    });
    let mut env = ScopeTracker::new();
    assert_eq!(assign_ssa_single_expression(&mut env, &mut expr), Ok(()));
    let n1 = SSAVariable(1);
    assert_eq!(expr.ssa, n1);
    match &expr.kind {
        SingleExpressionKind::Let { val, vars, body } => {
            assert_eq!(val.values[0].ssa, n1);
            assert_eq!(vars[0].ssa, n1);
            assert_eq!(body.ssa, n1);
            match &body.kind {
                SingleExpressionKind::Let { val, vars, body } => {
                    assert_eq!(ssa_of_variable(&val.values[0]), n1);
                    assert_eq!(vars[0].ssa, n1);
                    assert_eq!(ssa_of_variable(body), n1);
                }
                other => panic!("not a let: {:?}", other),
            }
        }
        other => panic!("not a let: {:?}", other),
    }
    // One name was issued: that of the literal.
    assert_eq!(env.new_ssa(), Some(SSAVariable(2)));
}

#[test]
fn closure_captures_the_outer_variable() {
    // fun(x) -> let a = y in a, where y is bound outside
    let ny = SSAVariable(40);
    let mut env = tracker_with(vec![(ScopeDefinition::Variable("y".to_string()), ny)], 41);
    let mut expr = node(SingleExpressionKind::BindClosure {
        closure: Closure {
            fun: FunctionDefinition {
                args: vec![avar("x")],
                body: boxed(SingleExpressionKind::Let {
                    val: Expression { values: vec![node(var_ref("y"))] },
                    vars: vec![avar("a")],
                    body: boxed(var_ref("a")),
                }),
            },
            env: None,
        },
        lambda_env: None,
        env_ssa: SSAVariable(0),
    });
    assert_eq!(assign_ssa_single_expression(&mut env, &mut expr), Ok(()));
    match &expr.kind {
        SingleExpressionKind::BindClosure { closure, lambda_env, env_ssa } => {
            assert_eq!(closure.fun.args[0].ssa, SSAVariable(41));
            assert_eq!(*lambda_env, Some(LambdaEnvIdx(0)));
            assert_eq!(closure.env, Some(LambdaEnvIdx(0)));
            assert_eq!(*env_ssa, SSAVariable(42));
            match &closure.fun.body.kind {
                SingleExpressionKind::Let { val, vars, body } => {
                    assert_eq!(ssa_of_variable(&val.values[0]), ny);
                    assert_eq!(vars[0].ssa, ny);
                    assert_eq!(ssa_of_variable(body), ny);
                }
                other => panic!("not a let: {:?}", other),
            }
        }
        other => panic!("not a closure: {:?}", other),
    }
    assert_eq!(expr.ssa, SSAVariable(43));
    let record = env.lambda_env(LambdaEnvIdx(0)).unwrap();
    assert_eq!(record.captures, vec![("y".to_string(), ny, 0)]);
    assert!(record.meta_binds.is_empty());
}

fn recursive_group() -> SingleExpression {
    // letrec f = fun(a) -> g, g = fun(b) -> apply f(b, out) in f
    node(SingleExpressionKind::BindClosures {
        closures: vec![
            AliasedClosure {
                alias: avar("f"),
                closure: Closure {
                    fun: FunctionDefinition {
                        args: vec![avar("a")],
                        body: boxed(SingleExpressionKind::NamedFunction {
                            name: "g".to_string(),
                            is_lambda: false,
                        }),
                    },
                    env: None,
                },
            },
            AliasedClosure {
                alias: avar("g"),
                closure: Closure {
                    fun: FunctionDefinition {
                        args: vec![avar("b")],
                        body: boxed(SingleExpressionKind::ApplyCall {
                            fun: boxed(SingleExpressionKind::NamedFunction {
                                name: "f".to_string(),
                                is_lambda: false,
                            }),
                            args: vec![node(var_ref("b")), node(var_ref("out"))],
                        }),
                    },
                    env: None,
                },
            },
        ],
        body: boxed(SingleExpressionKind::NamedFunction {
            name: "f".to_string(),
            is_lambda: false,
        }),
        lambda_env: None,
        env_ssa: SSAVariable(0),
    })
}

#[test]
fn mutually_recursive_closures_do_not_capture_each_other() {
    let out = SSAVariable(5);
    let mut env = tracker_with(vec![(ScopeDefinition::Variable("out".to_string()), out)], 6);
    let mut expr = recursive_group();
    assert_eq!(assign_ssa_single_expression(&mut env, &mut expr), Ok(()));
    let (f, g) = (SSAVariable(6), SSAVariable(7));
    match &expr.kind {
        SingleExpressionKind::BindClosures { closures, body, lambda_env, env_ssa } => {
            assert_eq!(closures[0].alias.ssa, f);
            assert_eq!(closures[1].alias.ssa, g);
            assert_eq!(*lambda_env, Some(LambdaEnvIdx(0)));
            assert_eq!(closures[0].closure.env, Some(LambdaEnvIdx(0)));
            assert_eq!(closures[1].closure.env, Some(LambdaEnvIdx(0)));
            // a = 8, the reference to g resolves to the alias
            assert_eq!(closures[0].closure.fun.args[0].ssa, SSAVariable(8));
            assert_eq!(closures[0].closure.fun.body.ssa, g);
            match &closures[0].closure.fun.body.kind {
                SingleExpressionKind::NamedFunction { is_lambda, .. } => assert!(*is_lambda),
                other => panic!("not a function reference: {:?}", other),
            }
            // b = 9; the arguments come before the function operand
            assert_eq!(closures[1].closure.fun.args[0].ssa, SSAVariable(9));
            match &closures[1].closure.fun.body.kind {
                SingleExpressionKind::ApplyCall { fun, args } => {
                    assert_eq!(ssa_of_variable(&args[0]), SSAVariable(9));
                    assert_eq!(ssa_of_variable(&args[1]), out);
                    assert_eq!(fun.ssa, f);
                }
                other => panic!("not a call: {:?}", other),
            }
            assert_eq!(closures[1].closure.fun.body.ssa, SSAVariable(10));
            assert_eq!(body.ssa, f);
            assert_eq!(*env_ssa, SSAVariable(11));
        }
        other => panic!("not a group: {:?}", other),
    }
    assert_eq!(expr.ssa, SSAVariable(12));
    let record = env.lambda_env(LambdaEnvIdx(0)).unwrap();
    assert_eq!(record.captures, vec![("out".to_string(), out, 0)]);
    for capture in &record.captures {
        assert_ne!(capture.1, f);
        assert_ne!(capture.1, g);
    }
}

#[test]
fn top_level_function_reference_gets_a_fresh_name() {
    let mut env = ScopeTracker::new();
    let mut expr = node(SingleExpressionKind::NamedFunction {
        name: "main".to_string(),
        is_lambda: true,
    });
    assert_eq!(assign_ssa_single_expression(&mut env, &mut expr), Ok(()));
    assert_eq!(expr.ssa, SSAVariable(1));
    match &expr.kind {
        SingleExpressionKind::NamedFunction { is_lambda, .. } => assert!(!*is_lambda),
        other => panic!("not a function reference: {:?}", other),
    }
}

#[test]
fn unbound_variable_is_an_error() {
    let mut env = ScopeTracker::new();
    let mut expr = node(SingleExpressionKind::Tuple(vec![node(literal(1)), node(var_ref("nowhere"))]));
    assert_eq!(
        assign_ssa_single_expression(&mut env, &mut expr),
        Err(SsaError::UnboundVariable)
    );
}

#[test]
fn a_binding_is_not_seen_by_its_sibling() {
    // { let x = 1 in x, x }: the second x stands outside the let
    let mut env = ScopeTracker::new();
    let mut expr = node(SingleExpressionKind::Tuple(vec![
        node(SingleExpressionKind::Let {
            val: Expression { values: vec![node(literal(1))] },
            vars: vec![avar("x")],
            body: boxed(var_ref("x")),
        }),
        node(var_ref("x")),
    ]));
    assert_eq!(
        assign_ssa_single_expression(&mut env, &mut expr),
        Err(SsaError::UnboundVariable)
    );
}

#[test]
fn let_with_more_variables_than_values_is_an_error() {
    let mut env = ScopeTracker::new();
    let mut expr = node(SingleExpressionKind::Let {
        val: Expression { values: vec![node(literal(1))] },
        vars: vec![avar("x"), avar("y")],
        body: boxed(var_ref("x")),
    });
    assert_eq!(assign_ssa_single_expression(&mut env, &mut expr), Err(SsaError::ArityMismatch));
}

#[test]
fn try_binds_values_and_fresh_catch_names() {
    // try {1, 2} of a, b -> b catch k, r -> r
    let mut env = ScopeTracker::new();
    let mut expr = node(SingleExpressionKind::Try {
        body: Expression { values: vec![node(literal(1)), node(literal(2))] },
        then_vars: vec![avar("a"), avar("b")],
        then: boxed(var_ref("b")),
        catch_vars: vec![avar("k"), avar("r")],
        catch: boxed(var_ref("r")),
    });
    assert_eq!(assign_ssa_single_expression(&mut env, &mut expr), Ok(()));
    match &expr.kind {
        SingleExpressionKind::Try { body, then_vars, then, catch_vars, catch } => {
            assert_eq!(body.values[0].ssa, SSAVariable(1));
            assert_eq!(body.values[1].ssa, SSAVariable(2));
            assert_eq!(then_vars[0].ssa, SSAVariable(1));
            assert_eq!(then_vars[1].ssa, SSAVariable(2));
            assert_eq!(ssa_of_variable(then), SSAVariable(2));
            assert_eq!(catch_vars[0].ssa, SSAVariable(3));
            assert_eq!(catch_vars[1].ssa, SSAVariable(4));
            assert_eq!(ssa_of_variable(catch), SSAVariable(4));
        }
        other => panic!("not a try: {:?}", other),
    }
    assert_eq!(expr.ssa, SSAVariable(5));
}

#[test]
fn try_with_wrong_arity_is_an_error() {
    let mut env = ScopeTracker::new();
    let mut expr = node(SingleExpressionKind::Try {
        body: Expression { values: vec![node(literal(1)), node(literal(2))] },
        then_vars: vec![avar("a")],
        then: boxed(var_ref("a")),
        catch_vars: vec![],
        catch: boxed(literal(0)),
    });
    assert_eq!(assign_ssa_single_expression(&mut env, &mut expr), Err(SsaError::ArityMismatch));
}

#[test]
fn case_clause_binds_pattern_variables_in_one_scope() {
    // One clause with the patterns p and q, the guard q and the body p.
    let mut env = ScopeTracker::new();
    let mut expr = node(SingleExpressionKind::Case {
        val: Expression { values: vec![node(literal(7))] },
        clauses: vec![Clause {
            patterns: vec![
                Pattern { binds: vec![("p".to_string(), SSAVariable(0))] },
                Pattern { binds: vec![("q".to_string(), SSAVariable(0))] },
            ],
            guard: node(var_ref("q")),
            body: node(var_ref("p")),
        }],
        values: vec![node(literal(9))],
    });
    assert_eq!(assign_ssa_single_expression(&mut env, &mut expr), Ok(()));
    match &expr.kind {
        SingleExpressionKind::Case { val, clauses, values } => {
            assert_eq!(val.values[0].ssa, SSAVariable(1));
            assert_eq!(values[0].ssa, SSAVariable(2));
            assert_eq!(clauses[0].patterns[0].binds[0].1, SSAVariable(3));
            assert_eq!(clauses[0].patterns[1].binds[0].1, SSAVariable(4));
            assert_eq!(ssa_of_variable(&clauses[0].guard), SSAVariable(4));
            assert_eq!(ssa_of_variable(&clauses[0].body), SSAVariable(3));
        }
        other => panic!("not a case: {:?}", other),
    }
    assert_eq!(expr.ssa, SSAVariable(5));
}

#[test]
fn sequence_takes_the_name_of_its_last_part() {
    let mut env = ScopeTracker::new();
    let mut expr = node(SingleExpressionKind::Do(
        Expression { values: vec![node(literal(1))] },
        boxed(literal(2)),
    ));
    assert_eq!(assign_ssa_single_expression(&mut env, &mut expr), Ok(()));
    assert_eq!(expr.ssa, SSAVariable(2));
}

#[test]
fn expression_names_every_member() {
    let mut env = ScopeTracker::new();
    let mut expr = Expression { values: vec![node(literal(1)), node(literal(2)), node(literal(3))] };
    assert_eq!(assign_ssa_expression(&mut env, &mut expr), Ok(()));
    let names: Vec<SSAVariable> = expr.values.iter().map(|v| v.ssa).collect();
    assert_eq!(names, vec![SSAVariable(1), SSAVariable(2), SSAVariable(3)]);
}

#[test]
fn names_run_out() {
    let mut env = ScopeTracker::with_generator(SSAVariableGenerator::starting_at(u64::MAX - 1));
    let mut expr = node(SingleExpressionKind::Tuple(vec![node(literal(1))]));
    assert_eq!(
        assign_ssa_single_expression(&mut env, &mut expr),
        Err(SsaError::NamesExhausted)
    );
}

#[test]
fn calls_visit_operands_in_their_order() {
    // m:f(a1) names module, name, argument, result
    let mut env = ScopeTracker::new();
    let mut expr = node(SingleExpressionKind::InterModuleCall {
        module: boxed(literal(1)),
        name: boxed(literal(2)),
        args: vec![node(literal(3))],
    });
    assert_eq!(assign_ssa_single_expression(&mut env, &mut expr), Ok(()));
    match &expr.kind {
        SingleExpressionKind::InterModuleCall { module, name, args } => {
            assert_eq!(module.ssa, SSAVariable(1));
            assert_eq!(name.ssa, SSAVariable(2));
            assert_eq!(args[0].ssa, SSAVariable(3));
        }
        other => panic!("not a call: {:?}", other),
    }
    assert_eq!(expr.ssa, SSAVariable(4));

    // an apply names its arguments before the function
    let mut expr = node(SingleExpressionKind::ApplyCall {
        fun: boxed(literal(0)),
        args: vec![node(literal(1)), node(literal(2))],
    });
    assert_eq!(assign_ssa_single_expression(&mut env, &mut expr), Ok(()));
    match &expr.kind {
        SingleExpressionKind::ApplyCall { fun, args } => {
            assert_eq!(args[0].ssa, SSAVariable(5));
            assert_eq!(args[1].ssa, SSAVariable(6));
            assert_eq!(fun.ssa, SSAVariable(7));
        }
        other => panic!("not a call: {:?}", other),
    }
    assert_eq!(expr.ssa, SSAVariable(8));
}

#[test]
fn constructors_name_members_then_themselves() {
    let mut env = ScopeTracker::new();
    let mut expr = node(SingleExpressionKind::MakeMap {
        values: vec![(node(literal(1)), node(literal(2))), (node(literal(3)), node(literal(4)))],
        merge: Some(boxed(SingleExpressionKind::List {
            head: vec![node(literal(5))],
            tail: boxed(SingleExpressionKind::Binary(vec![(
                node(literal(6)),
                vec![node(literal(7)), node(literal(8))],
            )])),
        })),
    });
    assert_eq!(assign_ssa_single_expression(&mut env, &mut expr), Ok(()));
    match &expr.kind {
        SingleExpressionKind::MakeMap { values, merge } => {
            assert_eq!(values[0].0.ssa, SSAVariable(1));
            assert_eq!(values[0].1.ssa, SSAVariable(2));
            assert_eq!(values[1].0.ssa, SSAVariable(3));
            assert_eq!(values[1].1.ssa, SSAVariable(4));
            let list = merge.as_ref().unwrap();
            match &list.kind {
                SingleExpressionKind::List { head, tail } => {
                    assert_eq!(head[0].ssa, SSAVariable(5));
                    match &tail.kind {
                        SingleExpressionKind::Binary(segments) => {
                            assert_eq!(segments[0].0.ssa, SSAVariable(6));
                            assert_eq!(segments[0].1[0].ssa, SSAVariable(7));
                            assert_eq!(segments[0].1[1].ssa, SSAVariable(8));
                        }
                        other => panic!("not a binary: {:?}", other),
                    }
                    assert_eq!(tail.ssa, SSAVariable(9));
                }
                other => panic!("not a list: {:?}", other),
            }
            assert_eq!(list.ssa, SSAVariable(10));
        }
        other => panic!("not a map: {:?}", other),
    }
    assert_eq!(expr.ssa, SSAVariable(11));
}

#[test]
fn receive_walks_clauses_then_the_timeout() {
    // receive <m> when true -> m after 10 -> 0
    let mut env = ScopeTracker::new();
    let mut expr = node(SingleExpressionKind::Receive {
        clauses: vec![Clause {
            patterns: vec![Pattern { binds: vec![("m".to_string(), SSAVariable(0))] }],
            guard: node(literal(1)),
            body: node(var_ref("m")),
        }],
        pattern_values: vec![node(literal(5))],
        timeout_time: boxed(literal(10)),
        timeout_body: boxed(literal(0)),
    });
    assert_eq!(assign_ssa_single_expression(&mut env, &mut expr), Ok(()));
    match &expr.kind {
        SingleExpressionKind::Receive { clauses, pattern_values, timeout_time, timeout_body } => {
            assert_eq!(pattern_values[0].ssa, SSAVariable(1));
            assert_eq!(clauses[0].patterns[0].binds[0].1, SSAVariable(2));
            assert_eq!(clauses[0].guard.ssa, SSAVariable(3));
            assert_eq!(ssa_of_variable(&clauses[0].body), SSAVariable(2));
            assert_eq!(timeout_time.ssa, SSAVariable(4));
            assert_eq!(timeout_body.ssa, SSAVariable(5));
        }
        other => panic!("not a receive: {:?}", other),
    }
    assert_eq!(expr.ssa, SSAVariable(6));
}

#[test]
fn nested_closures_capture_through_each_other() {
    // fun(a) -> fun(b) -> {a, b, far}, where far is bound outside
    let far = SSAVariable(1);
    let mut env = tracker_with(vec![(ScopeDefinition::Variable("far".to_string()), far)], 2);
    let inner = SingleExpressionKind::BindClosure {
        closure: Closure {
            fun: FunctionDefinition {
                args: vec![avar("b")],
                body: boxed(SingleExpressionKind::Tuple(vec![
                    node(var_ref("a")),
                    node(var_ref("b")),
                    node(var_ref("far")),
                    node(var_ref("a")),
                ])),
            },
            env: None,
        },
        lambda_env: None,
        env_ssa: SSAVariable(0),
    };
    let mut expr = node(SingleExpressionKind::BindClosure {
        closure: Closure {
            fun: FunctionDefinition { args: vec![avar("a")], body: boxed(inner) },
            env: None,
        },
        lambda_env: None,
        env_ssa: SSAVariable(0),
    });
    assert_eq!(assign_ssa_single_expression(&mut env, &mut expr), Ok(()));
    // a = 2, b = 3; the inner closure is closed first
    let inner_env = env.lambda_env(LambdaEnvIdx(0)).unwrap();
    assert_eq!(
        inner_env.captures,
        vec![("a".to_string(), SSAVariable(2), 0), ("far".to_string(), far, 1)]
    );
    let outer_env = env.lambda_env(LambdaEnvIdx(1)).unwrap();
    assert_eq!(outer_env.captures, vec![("far".to_string(), far, 0)]);
    match &expr.kind {
        SingleExpressionKind::BindClosure { lambda_env, .. } => {
            assert_eq!(*lambda_env, Some(LambdaEnvIdx(1)));
        }
        other => panic!("not a closure: {:?}", other),
    }
}
