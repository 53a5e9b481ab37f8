use lox::ast::{Binop, Expression, FunctionDecl, Program, Statement, Variable};
use lox::resolver::{Resolver, Scope};
use lox::scoping::ResolutionError;

fn name(text: &str) -> Variable {
    Variable::Unresolved(text.to_string())
}

fn var(text: &str) -> Expression {
    Expression::Variable(name(text))
}

fn num(value: f64) -> Expression {
    Expression::Literal(value.to_bits())
}

fn assign(target: Expression, value: Expression) -> Expression {
    Expression::Binop(Binop::Assignment, Box::new(target), Box::new(value))
}

fn add(lhs: Expression, rhs: Expression) -> Expression {
    Expression::Binop(Binop::Add, Box::new(lhs), Box::new(rhs))
}

fn declare(text: &str, init: Option<Expression>) -> Statement {
    Statement::Var(name(text), init)
}

fn fun(text: &str, params: &[&str], body: Vec<Statement>) -> Statement {
    Statement::Fun(FunctionDecl::new(
        text.to_string(),
        params.iter().map(|p| p.to_string()).collect(),
        body,
    ))
}

fn resolve(statements: Vec<Statement>) -> Vec<Statement> {
    let mut resolver = Resolver::new();
    let resolved = resolver.run(Program::new(statements)).unwrap();
    resolved.into_statements()
}

fn scoped(depth: usize, slot: usize) -> Expression {
    Expression::Variable(Variable::Scoped(depth, slot))
}

#[test]
fn scope_slots_follow_declaration_order() {
    let mut scope = Scope::default();
    assert_eq!(scope.get(&"a".to_string()), None);
    assert_eq!(scope.add(&"a".to_string()), 0);
    assert_eq!(scope.add(&"b".to_string()), 1);
    assert_eq!(scope.get(&"a".to_string()), Some(0));
    assert_eq!(scope.get(&"b".to_string()), Some(1));
    assert_eq!(scope.get(&"c".to_string()), None);
}

#[test]
fn scope_redeclaration_takes_a_new_slot() {
    let mut scope = Scope::default();
    assert_eq!(scope.add(&"a".to_string()), 0);
    assert_eq!(scope.add(&"b".to_string()), 1);
    assert_eq!(scope.add(&"a".to_string()), 2);
    assert_eq!(scope.get(&"a".to_string()), Some(2));
    assert_eq!(scope.add(&"c".to_string()), 3);
}

#[test]
fn scope_has_no_fixed_capacity() {
    let mut scope = Scope::default();
    for i in 0..300usize {
        assert_eq!(scope.add(&format!("v{}", i)), i);
    }
    assert_eq!(scope.get(&"v299".to_string()), Some(299));
    assert_eq!(scope.get(&"v256".to_string()), Some(256));
}

#[test]
fn resolver_starts_at_top_level() {
    let mut resolver = Resolver::new();
    assert!(resolver.is_root());
    resolver.enter_scope();
    assert!(!resolver.is_root());
    resolver.leave_scope();
    assert!(resolver.is_root());
    resolver.leave_scope();
    assert!(resolver.is_root());
}

#[test]
fn define_var_at_top_level_is_global() {
    let mut resolver = Resolver::new();
    assert_eq!(
        resolver.define_var(&"x".to_string()),
        Variable::Global("x".to_string())
    );
}

#[test]
fn define_var_in_a_scope_takes_the_next_slot() {
    let mut resolver = Resolver::new();
    resolver.enter_scope();
    assert_eq!(resolver.define_var(&"x".to_string()), Variable::Scoped(0, 0));
    assert_eq!(resolver.define_var(&"y".to_string()), Variable::Scoped(0, 1));
    assert_eq!(resolver.current_scope().add(&"z".to_string()), 2);
    assert_eq!(resolver.lookup_scope(&"y".to_string()), Some((0, 1)));
    resolver.enter_scope();
    assert_eq!(resolver.lookup_scope(&"y".to_string()), Some((1, 1)));
    assert_eq!(resolver.lookup_scope(&"nope".to_string()), None);
    assert_eq!(resolver.resolve_var(&"z".to_string()), Variable::Scoped(1, 2));
    assert_eq!(
        resolver.resolve_var(&"nope".to_string()),
        Variable::Global("nope".to_string())
    );
}

#[test]
fn unknown_name_resolves_to_global() {
    let out = resolve(vec![Statement::Print(var("y"))]);
    assert_eq!(
        out,
        vec![Statement::Print(Expression::Variable(Variable::Global(
            "y".to_string()
        )))]
    );
}

#[test]
fn top_level_declaration_is_global() {
    let out = resolve(vec![declare("x", Some(num(1.0))), Statement::Print(var("x"))]);
    assert_eq!(
        out,
        vec![
            Statement::Var(Variable::Global("x".to_string()), Some(num(1.0))),
            Statement::Print(Expression::Variable(Variable::Global("x".to_string()))),
        ]
    );
}

#[test]
fn shadowing_resolves_to_the_innermost_declaration() {
    // { var x = 1; { var x = 2; print x; } print x; }
    let out = resolve(vec![Statement::Block(vec![
        declare("x", Some(num(1.0))),
        Statement::Block(vec![declare("x", Some(num(2.0))), Statement::Print(var("x"))]),
        Statement::Print(var("x")),
    ])]);
    assert_eq!(
        out,
        vec![Statement::Block(vec![
            Statement::Var(Variable::Scoped(0, 0), Some(num(1.0))),
            Statement::Block(vec![
                Statement::Var(Variable::Scoped(0, 0), Some(num(2.0))),
                Statement::Print(scoped(0, 0)),
            ]),
            Statement::Print(scoped(0, 0)),
        ])]
    );
}

#[test]
fn depth_counts_the_blocks_crossed() {
    // { var a; var b; { { print b; } } }
    let out = resolve(vec![Statement::Block(vec![
        declare("a", None),
        declare("b", None),
        Statement::Block(vec![Statement::Block(vec![Statement::Print(var("b"))])]),
    ])]);
    assert_eq!(
        out,
        vec![Statement::Block(vec![
            Statement::Var(Variable::Scoped(0, 0), None),
            Statement::Var(Variable::Scoped(0, 1), None),
            Statement::Block(vec![Statement::Block(vec![Statement::Print(scoped(2, 1))])]),
        ])]
    );
}

#[test]
fn initializer_is_resolved_before_the_name_is_declared() {
    // { var a = 1; { var a = a; } }
    let out = resolve(vec![Statement::Block(vec![
        declare("a", Some(num(1.0))),
        Statement::Block(vec![declare("a", Some(var("a")))]),
    ])]);
    assert_eq!(
        out,
        vec![Statement::Block(vec![
            Statement::Var(Variable::Scoped(0, 0), Some(num(1.0))),
            Statement::Block(vec![Statement::Var(
                Variable::Scoped(0, 0),
                Some(scoped(1, 0))
            )]),
        ])]
    );
}

#[test]
fn parameters_take_the_first_slots() {
    // fun f(a, b) { var c; print b; { print a; } }
    let out = resolve(vec![fun(
        "f",
        &["a", "b"],
        vec![
            declare("c", None),
            Statement::Print(var("b")),
            Statement::Block(vec![Statement::Print(var("a"))]),
        ],
    )]);
    assert_eq!(
        out,
        vec![Statement::Fun(FunctionDecl {
            name: "f".to_string(),
            params: vec!["a".to_string(), "b".to_string()],
            body: vec![
                Statement::Var(Variable::Scoped(0, 2), None),
                Statement::Print(scoped(0, 1)),
                Statement::Block(vec![Statement::Print(scoped(1, 0))]),
            ],
            binding: Variable::Global("f".to_string()),
            upvalues: vec![],
        })]
    );
}

#[test]
fn use_across_a_function_boundary_is_a_capture() {
    // fun make() { var n = 0; fun inc() { n = n + 1; return n; } return inc; }
    let out = resolve(vec![fun(
        "make",
        &[],
        vec![
            declare("n", Some(num(0.0))),
            fun(
                "inc",
                &[],
                vec![
                    Statement::Expression(assign(var("n"), add(var("n"), num(1.0)))),
                    Statement::Return(Some(var("n"))),
                ],
            ),
            Statement::Return(Some(var("inc"))),
        ],
    )]);
    let closure = |slot: usize| Expression::Variable(Variable::Closure(slot));
    assert_eq!(
        out,
        vec![Statement::Fun(FunctionDecl {
            name: "make".to_string(),
            params: vec![],
            body: vec![
                Statement::Var(Variable::Scoped(0, 0), Some(num(0.0))),
                Statement::Fun(FunctionDecl {
                    name: "inc".to_string(),
                    params: vec![],
                    body: vec![
                        Statement::Expression(assign(closure(1), add(closure(0), num(1.0)))),
                        Statement::Return(Some(closure(2))),
                    ],
                    binding: Variable::Scoped(0, 1),
                    upvalues: vec![
                        Variable::Scoped(0, 0),
                        Variable::Scoped(0, 0),
                        Variable::Scoped(0, 0)
                    ],
                }),
                Statement::Return(Some(scoped(0, 1))),
            ],
            binding: Variable::Global("make".to_string()),
            upvalues: vec![],
        })]
    );
}

#[test]
fn capture_through_two_functions_is_transitive() {
    // { var x; fun outer() { { fun inner() { print x; } } } }
    let out = resolve(vec![Statement::Block(vec![
        declare("x", None),
        fun(
            "outer",
            &[],
            vec![Statement::Block(vec![fun(
                "inner",
                &[],
                vec![Statement::Print(var("x"))],
            )])],
        ),
    ])]);
    assert_eq!(
        out,
        vec![Statement::Block(vec![
            Statement::Var(Variable::Scoped(0, 0), None),
            Statement::Fun(FunctionDecl {
                name: "outer".to_string(),
                params: vec![],
                body: vec![Statement::Block(vec![Statement::Fun(FunctionDecl {
                    name: "inner".to_string(),
                    params: vec![],
                    body: vec![Statement::Print(Expression::Variable(Variable::Closure(0)))],
                    binding: Variable::Scoped(0, 0),
                    upvalues: vec![Variable::Closure(0)],
                })])],
                binding: Variable::Scoped(0, 1),
                upvalues: vec![Variable::Scoped(0, 0)],
            }),
        ])]
    );
}

#[test]
fn local_function_can_refer_to_itself() {
    // { fun f() { return f; } }
    let out = resolve(vec![Statement::Block(vec![fun(
        "f",
        &[],
        vec![Statement::Return(Some(var("f")))],
    )])]);
    assert_eq!(
        out,
        vec![Statement::Block(vec![Statement::Fun(FunctionDecl {
            name: "f".to_string(),
            params: vec![],
            body: vec![Statement::Return(Some(Expression::Variable(
                Variable::Closure(0)
            )))],
            binding: Variable::Scoped(0, 0),
            upvalues: vec![Variable::Scoped(0, 0)],
        })])]
    );
}

#[test]
fn assignment_resolves_its_right_side_first() {
    // { var a; fun f() { a = a; } }: the right side takes the first upvalue.
    let out = resolve(vec![Statement::Block(vec![
        declare("a", None),
        fun("f", &[], vec![Statement::Expression(assign(var("a"), var("a")))]),
    ])]);
    match &out[0] {
        Statement::Block(body) => match &body[1] {
            Statement::Fun(decl) => assert_eq!(
                decl.body,
                vec![Statement::Expression(assign(
                    Expression::Variable(Variable::Closure(1)),
                    Expression::Variable(Variable::Closure(0))
                ))]
            ),
            other => panic!("unexpected {:?}", other),
        },
        other => panic!("unexpected {:?}", other),
    }
}

#[test]
fn invalid_assignment_target_is_collected() {
    let mut resolver = Resolver::new();
    let program = Program::new(vec![Statement::Expression(assign(num(1.0), num(2.0)))]);
    assert_eq!(
        resolver.run(program),
        Err(vec![ResolutionError::InvalidAssignmentTarget])
    );
}

#[test]
fn resolution_continues_past_an_error() {
    let mut resolver = Resolver::new();
    let program = Program::new(vec![
        Statement::Expression(assign(num(1.0), num(2.0))),
        Statement::Print(assign(add(var("a"), var("b")), assign(num(3.0), num(4.0)))),
        declare("x", None),
    ]);
    assert_eq!(
        resolver.run(program),
        Err(vec![
            ResolutionError::InvalidAssignmentTarget,
            ResolutionError::InvalidAssignmentTarget,
            ResolutionError::InvalidAssignmentTarget,
        ])
    );
    // The errors of one program are not carried over to the next.
    let again = resolver.run(Program::new(vec![Statement::Print(var("x"))]));
    assert!(again.is_ok());
}

#[test]
fn resolving_a_resolved_program_changes_nothing() {
    let source = vec![
        declare("g", Some(num(1.0))),
        Statement::Block(vec![
            declare("x", Some(num(1.0))),
            fun(
                "f",
                &["p"],
                vec![
                    Statement::While(
                        var("p"),
                        Box::new(Statement::Block(vec![Statement::Expression(assign(
                            var("x"),
                            add(var("x"), var("g")),
                        ))])),
                    ),
                    Statement::If(
                        var("x"),
                        Box::new(Statement::Return(Some(var("f")))),
                        Box::new(Some(Statement::Return(None))),
                    ),
                ],
            ),
            Statement::Print(Expression::Call(Box::new(var("f")), vec![var("x")])),
        ]),
    ];
    let mut resolver = Resolver::new();
    let once = resolver.run(Program::new(source)).unwrap();
    let twice = resolver.run(once.clone()).unwrap();
    assert_eq!(once, twice);
    let mut other = Resolver::new();
    assert_eq!(other.run(once.clone()).unwrap(), once);
    assert!(other.is_root());
}

#[test]
fn globals_of_earlier_programs_stay_global() {
    let mut resolver = Resolver::new();
    resolver
        .run(Program::new(vec![declare("x", Some(num(1.0)))]))
        .unwrap();
    let out = resolver
        .run(Program::new(vec![Statement::Block(vec![Statement::Print(
            var("x"),
        )])]))
        .unwrap();
    assert_eq!(
        out.into_statements(),
        vec![Statement::Block(vec![Statement::Print(
            Expression::Variable(Variable::Global("x".to_string()))
        )])]
    );
}

#[test]
fn program_keeps_its_statements_in_order() {
    let statements = vec![Statement::Print(num(1.0)), Statement::Return(None)];
    let program = Program::new(statements.clone());
    assert_eq!(program.statements(), &statements);
}

#[test]
fn parsed_program_is_not_resolved_and_resolved_program_is() {
    let source = vec![
        declare("x", Some(num(1.0))),
        fun("f", &["a"], vec![Statement::Return(Some(add(var("a"), var("x"))))]),
        Statement::Block(vec![Statement::Expression(assign(var("x"), num(2.0)))]),
    ];
    let program = Program::new(source);
    assert!(!program.is_resolved());
    let resolved = Resolver::new().run(program).unwrap();
    assert!(resolved.is_resolved());
    for statement in resolved.statements() {
        assert!(statement.is_resolved());
    }
}

#[test]
fn assignment_to_a_literal_is_not_resolved() {
    let bad = assign(num(1.0), num(2.0));
    assert!(!bad.is_resolved());
    let good = assign(scoped(0, 0), num(2.0));
    assert!(good.is_resolved());
    assert!(!assign(var("x"), num(2.0)).is_resolved());
    assert!(add(num(1.0), num(2.0)).is_resolved());
}

#[test]
fn new_function_declaration_is_bound_by_name_and_captures_nothing() {
    let decl = FunctionDecl::new("f".to_string(), vec!["a".to_string()], vec![]);
    assert_eq!(decl.name, "f");
    assert_eq!(decl.params, vec!["a".to_string()]);
    assert_eq!(decl.binding, Variable::Unresolved("f".to_string()));
    assert!(decl.upvalues.is_empty());
    assert!(!decl.is_resolved());
}

#[test]
fn copies_are_equal_to_what_they_copy() {
    let statement = Statement::If(
        Expression::Call(Box::new(var("f")), vec![num(1.0), scoped(1, 2)]),
        Box::new(fun("g", &["a", "b"], vec![Statement::Return(Some(var("a")))])),
        Box::new(Some(Statement::While(
            num(0.0),
            Box::new(Statement::Block(vec![declare("x", None)])),
        ))),
    );
    assert_eq!(statement.duplicate(), statement);
    assert_eq!(statement.clone(), statement);
    let program = Program::new(vec![statement]);
    assert_eq!(program.duplicate(), program);
    let name = Variable::Global("g".to_string());
    assert_eq!(name.duplicate(), name);
    assert!(name.is_resolved());
    assert!(!Variable::Unresolved("g".to_string()).is_resolved());
}

#[test]
fn listed_upvalues_are_kept_and_new_ones_follow_them() {
    // A declaration that lists an upvalue already, with a body that still
    // holds a bare name: the new capture takes the next index.
    let decl = FunctionDecl {
        name: "f".to_string(),
        params: vec![],
        body: vec![
            Statement::Print(Expression::Variable(Variable::Closure(0))),
            Statement::Print(var("y")),
        ],
        binding: Variable::Scoped(0, 2),
        upvalues: vec![Variable::Scoped(0, 0)],
    };
    let out = resolve(vec![Statement::Block(vec![
        declare("x", None),
        declare("y", None),
        Statement::Fun(decl),
    ])]);
    match &out[0] {
        Statement::Block(body) => match &body[2] {
            Statement::Fun(decl) => {
                assert_eq!(decl.binding, Variable::Scoped(0, 2));
                assert_eq!(
                    decl.upvalues,
                    vec![Variable::Scoped(0, 0), Variable::Scoped(0, 1)]
                );
                assert_eq!(
                    decl.body[1],
                    Statement::Print(Expression::Variable(Variable::Closure(1)))
                );
            }
            other => panic!("unexpected {:?}", other),
        },
        other => panic!("unexpected {:?}", other),
    }
}
