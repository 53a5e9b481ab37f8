use lox::ast::{Binop, Expression, FunctionDecl, Program, Statement, Variable};
use lox::interpreter::{apply_binop, Action, Applied, Interpreter, RuntimeError};
use lox::object::{Kind, Value};
use lox::resolver::Resolver;

fn name(text: &str) -> Variable {
    Variable::Unresolved(text.to_string())
}

fn var(text: &str) -> Expression {
    Expression::Variable(name(text))
}

fn num(value: f64) -> Expression {
    Expression::Literal(value.to_bits())
}

fn number(value: f64) -> Value {
    Value::Number(value.to_bits())
}

fn binop(op: Binop, lhs: Expression, rhs: Expression) -> Expression {
    Expression::Binop(op, Box::new(lhs), Box::new(rhs))
}

fn assign(target: &str, value: Expression) -> Expression {
    binop(Binop::Assignment, var(target), value)
}

fn call(callee: Expression, args: Vec<Expression>) -> Expression {
    Expression::Call(Box::new(callee), args)
}

fn declare(text: &str, init: Option<Expression>) -> Statement {
    Statement::Var(name(text), init)
}

fn fun(text: &str, params: &[&str], body: Vec<Statement>) -> Statement {
    Statement::Fun(FunctionDecl::new(
        text.to_string(),
        params.iter().map(|p| p.to_string()).collect(),
        body,
    ))
}

fn numeric(op: Binop, a: u64, b: u64) -> Value {
    let (a, b) = (f64::from_bits(a), f64::from_bits(b));
    match op {
        Binop::Add => number(a + b),
        Binop::Sub => number(a - b),
        Binop::Mul => number(a * b),
        Binop::Div => number(a / b),
        Binop::Equal => Value::Bool(a == b),
        Binop::NotEqual => Value::Bool(a != b),
        Binop::Greater => Value::Bool(a > b),
        Binop::GreaterEqual => Value::Bool(a >= b),
        Binop::Less => Value::Bool(a < b),
        Binop::LessEqual => Value::Bool(a <= b),
        Binop::Assignment => unreachable!(),
    }
}

struct Session {
    resolver: Resolver,
    interpreter: Interpreter,
    printed: Vec<Value>,
}

fn session() -> Session {
    Session {
        resolver: Resolver::new(),
        interpreter: Interpreter::new(),
        printed: Vec::new(),
    }
}

fn submit(session: &mut Session, statements: Vec<Statement>) -> Result<Option<Value>, RuntimeError> {
    let program = session.resolver.run(Program::new(statements)).unwrap();
    session.interpreter.run(program);
    for _ in 0..1_000_000 {
        match session.interpreter.step() {
            Action::Continue => {}
            Action::Print(value) => session.printed.push(value),
            Action::Numeric(op, a, b) => session.interpreter.resume(numeric(op, a, b)),
            Action::Native(_) => session.interpreter.resume(Value::Nil),
            Action::Finished(value) => return Ok(value),
            Action::Failed(error) => return Err(error),
        }
    }
    panic!("the program did not end");
}

fn make_counter() -> Statement {
    // fun make() { var n = 0; fun inc() { n = n + 1; return n; } return inc; }
    fun(
        "make",
        &[],
        vec![
            declare("n", Some(num(0.0))),
            fun(
                "inc",
                &[],
                vec![
                    Statement::Expression(assign("n", binop(Binop::Add, var("n"), num(1.0)))),
                    Statement::Return(Some(var("n"))),
                ],
            ),
            Statement::Return(Some(var("inc"))),
        ],
    )
}

#[test]
fn shadowing_prints_inner_then_outer() {
    let mut s = session();
    let result = submit(
        &mut s,
        vec![Statement::Block(vec![
            declare("x", Some(num(1.0))),
            Statement::Block(vec![declare("x", Some(num(2.0))), Statement::Print(var("x"))]),
            Statement::Print(var("x")),
        ])],
    );
    assert_eq!(result, Ok(None));
    assert_eq!(s.printed, vec![number(2.0), number(1.0)]);
}

#[test]
fn closure_sees_its_own_writes() {
    let mut s = session();
    let result = submit(
        &mut s,
        vec![
            make_counter(),
            declare("c", Some(call(var("make"), vec![]))),
            Statement::Print(call(var("c"), vec![])),
            Statement::Print(call(var("c"), vec![])),
        ],
    );
    assert_eq!(result, Ok(None));
    assert_eq!(s.printed, vec![number(1.0), number(2.0)]);
}

#[test]
fn counters_of_two_invocations_are_independent() {
    let mut s = session();
    let result = submit(
        &mut s,
        vec![
            make_counter(),
            declare("a", Some(call(var("make"), vec![]))),
            declare("b", Some(call(var("make"), vec![]))),
            Statement::Print(call(var("a"), vec![])),
            Statement::Print(call(var("a"), vec![])),
            Statement::Print(call(var("a"), vec![])),
            Statement::Print(call(var("b"), vec![])),
            Statement::Print(call(var("a"), vec![])),
            Statement::Print(call(var("b"), vec![])),
        ],
    );
    assert_eq!(result, Ok(None));
    assert_eq!(
        s.printed,
        vec![
            number(1.0),
            number(2.0),
            number(3.0),
            number(1.0),
            number(4.0),
            number(2.0)
        ]
    );
}

#[test]
fn two_closures_over_one_variable_share_it() {
    // { var n = 0; fun inc() { n = n + 1; } fun get() { return n; }
    //   inc(); inc(); print get(); n = 10; print get(); }
    let mut s = session();
    let result = submit(
        &mut s,
        vec![Statement::Block(vec![
            declare("n", Some(num(0.0))),
            fun(
                "inc",
                &[],
                vec![Statement::Expression(assign(
                    "n",
                    binop(Binop::Add, var("n"), num(1.0)),
                ))],
            ),
            fun("get", &[], vec![Statement::Return(Some(var("n")))]),
            Statement::Expression(call(var("inc"), vec![])),
            Statement::Expression(call(var("inc"), vec![])),
            Statement::Print(call(var("get"), vec![])),
            Statement::Expression(assign("n", num(10.0))),
            Statement::Print(call(var("get"), vec![])),
        ])],
    );
    assert_eq!(result, Ok(None));
    assert_eq!(s.printed, vec![number(2.0), number(10.0)]);
}

#[test]
fn assignment_is_an_expression() {
    let mut s = session();
    let result = submit(
        &mut s,
        vec![declare("x", None), Statement::Print(assign("x", num(5.0)))],
    );
    assert_eq!(result, Ok(None));
    assert_eq!(s.printed, vec![number(5.0)]);
    assert_eq!(s.interpreter.global(&"x".to_string()), Some(number(5.0)));
}

#[test]
fn declaration_without_initializer_binds_nil() {
    let mut s = session();
    assert_eq!(submit(&mut s, vec![declare("x", None)]), Ok(None));
    assert_eq!(s.interpreter.global(&"x".to_string()), Some(Value::Nil));
    assert_eq!(s.interpreter.global(&"y".to_string()), None);
}

#[test]
fn zero_is_truthy() {
    // if (0) print 1; else print 2;
    let mut s = session();
    let result = submit(
        &mut s,
        vec![Statement::If(
            num(0.0),
            Box::new(Statement::Print(num(1.0))),
            Box::new(Some(Statement::Print(num(2.0)))),
        )],
    );
    assert_eq!(result, Ok(None));
    assert_eq!(s.printed, vec![number(1.0)]);
}

#[test]
fn only_false_and_nil_are_falsy() {
    assert!(!Value::Nil.is_truthy());
    assert!(!Value::Bool(false).is_truthy());
    assert!(Value::Bool(true).is_truthy());
    assert!(number(0.0).is_truthy());
    assert!(number(f64::NAN).is_truthy());
    assert!(Value::String(String::new()).is_truthy());
    assert!(Value::NativeFunction.is_truthy());
    let f = Value::Function { name: "f".to_string(), code: 0, captures: vec![] };
    assert!(f.is_truthy());
}

#[test]
fn nil_and_false_take_the_else_branch() {
    // var n; if (n) print 1; else print 2; if (1 == 2) print 3; else print 4;
    let mut s = session();
    let result = submit(
        &mut s,
        vec![
            declare("n", None),
            Statement::If(
                var("n"),
                Box::new(Statement::Print(num(1.0))),
                Box::new(Some(Statement::Print(num(2.0)))),
            ),
            Statement::If(
                binop(Binop::Equal, num(1.0), num(2.0)),
                Box::new(Statement::Print(num(3.0))),
                Box::new(Some(Statement::Print(num(4.0)))),
            ),
            Statement::If(var("n"), Box::new(Statement::Print(num(5.0))), Box::new(None)),
        ],
    );
    assert_eq!(result, Ok(None));
    assert_eq!(s.printed, vec![number(2.0), number(4.0)]);
}

#[test]
fn arity_mismatch_executes_none_of_the_body() {
    // fun f(a, b) { print a; } f(1);
    let mut s = session();
    let result = submit(
        &mut s,
        vec![
            fun("f", &["a", "b"], vec![Statement::Print(var("a"))]),
            Statement::Print(num(7.0)),
            Statement::Expression(call(var("f"), vec![num(1.0)])),
            Statement::Print(num(8.0)),
        ],
    );
    assert_eq!(result, Err(RuntimeError::ArityMismatch(2, 1)));
    assert_eq!(s.printed, vec![number(7.0)]);
}

#[test]
fn too_many_arguments_are_an_arity_mismatch() {
    let mut s = session();
    let result = submit(
        &mut s,
        vec![
            fun("f", &[], vec![Statement::Print(num(1.0))]),
            Statement::Expression(call(var("f"), vec![num(1.0), num(2.0)])),
        ],
    );
    assert_eq!(result, Err(RuntimeError::ArityMismatch(0, 2)));
    assert_eq!(s.printed, vec![]);
}

#[test]
fn undefined_global_is_an_error() {
    let mut s = session();
    let result = submit(&mut s, vec![Statement::Print(var("y"))]);
    assert_eq!(result, Err(RuntimeError::UndefinedVariable("y".to_string())));
    assert_eq!(s.printed, vec![]);
}

#[test]
fn error_keeps_what_was_done_before_it() {
    // var x = 1; print x; x = 2; print y; x = 3;
    let mut s = session();
    let result = submit(
        &mut s,
        vec![
            declare("x", Some(num(1.0))),
            Statement::Print(var("x")),
            Statement::Expression(assign("x", num(2.0))),
            Statement::Print(var("y")),
            Statement::Expression(assign("x", num(3.0))),
        ],
    );
    assert_eq!(result, Err(RuntimeError::UndefinedVariable("y".to_string())));
    assert_eq!(s.printed, vec![number(1.0)]);
    assert_eq!(s.interpreter.global(&"x".to_string()), Some(number(2.0)));
    // The session goes on with the next program.
    assert_eq!(
        submit(&mut s, vec![Statement::Expression(var("x"))]),
        Ok(Some(number(2.0)))
    );
}

#[test]
fn arithmetic_on_a_non_number_is_a_type_mismatch() {
    let mut s = session();
    let result = submit(
        &mut s,
        vec![
            declare("n", None),
            Statement::Print(binop(Binop::Add, num(1.0), var("n"))),
        ],
    );
    assert_eq!(
        result,
        Err(RuntimeError::TypeMismatch(Binop::Add, Kind::Number, Kind::Nil))
    );
}

#[test]
fn relational_operator_wants_one_kind() {
    let mut s = session();
    let result = submit(
        &mut s,
        vec![Statement::Print(binop(
            Binop::Less,
            binop(Binop::Equal, num(1.0), num(1.0)),
            num(1.0),
        ))],
    );
    assert_eq!(
        result,
        Err(RuntimeError::TypeMismatch(Binop::Less, Kind::Bool, Kind::Number))
    );
}

#[test]
fn calling_a_number_is_not_callable() {
    let mut s = session();
    let result = submit(
        &mut s,
        vec![Statement::Expression(call(
            num(1.0),
            vec![call(var("undefined"), vec![])],
        ))],
    );
    assert_eq!(result, Err(RuntimeError::NotCallable(Kind::Number)));
}

#[test]
fn operands_are_evaluated_left_to_right() {
    // fun say(n) { print n; return n; }  print say(1) - say(2) * say(3);
    let mut s = session();
    let say = |n: f64| call(var("say"), vec![num(n)]);
    let result = submit(
        &mut s,
        vec![
            fun(
                "say",
                &["n"],
                vec![Statement::Print(var("n")), Statement::Return(Some(var("n")))],
            ),
            Statement::Print(binop(
                Binop::Sub,
                say(1.0),
                binop(Binop::Mul, say(2.0), say(3.0)),
            )),
        ],
    );
    assert_eq!(result, Ok(None));
    assert_eq!(
        s.printed,
        vec![number(1.0), number(2.0), number(3.0), number(-5.0)]
    );
}

#[test]
fn arguments_are_evaluated_left_to_right() {
    // fun say(n) { print n; return n; } fun f(a, b, c) { return a / b - c; }
    let mut s = session();
    let say = |n: f64| call(var("say"), vec![num(n)]);
    let result = submit(
        &mut s,
        vec![
            fun(
                "say",
                &["n"],
                vec![Statement::Print(var("n")), Statement::Return(Some(var("n")))],
            ),
            fun(
                "f",
                &["a", "b", "c"],
                vec![Statement::Return(Some(binop(
                    Binop::Sub,
                    binop(Binop::Div, var("a"), var("b")),
                    var("c"),
                )))],
            ),
            Statement::Expression(call(var("f"), vec![say(9.0), say(2.0), say(1.0)])),
        ],
    );
    assert_eq!(result, Ok(Some(number(3.5))));
    assert_eq!(s.printed, vec![number(9.0), number(2.0), number(1.0)]);
}

#[test]
fn while_runs_until_the_condition_is_falsy() {
    // var i = 0; var sum = 0; while (i < 5) { i = i + 1; sum = sum + i; } sum;
    let mut s = session();
    let result = submit(
        &mut s,
        vec![
            declare("i", Some(num(0.0))),
            declare("sum", Some(num(0.0))),
            Statement::While(
                binop(Binop::Less, var("i"), num(5.0)),
                Box::new(Statement::Block(vec![
                    Statement::Expression(assign("i", binop(Binop::Add, var("i"), num(1.0)))),
                    Statement::Expression(assign("sum", binop(Binop::Add, var("sum"), var("i")))),
                ])),
            ),
            Statement::Expression(var("sum")),
        ],
    );
    assert_eq!(result, Ok(Some(number(15.0))));
}

#[test]
fn return_leaves_loops_and_blocks() {
    // fun first(limit) {
    //   var i = 0;
    //   while (i < limit) { { if (i == 3) return i; } i = i + 1; }
    //   return 0 - 1;
    // }
    let mut s = session();
    let result = submit(
        &mut s,
        vec![
            fun(
                "first",
                &["limit"],
                vec![
                    declare("i", Some(num(0.0))),
                    Statement::While(
                        binop(Binop::Less, var("i"), var("limit")),
                        Box::new(Statement::Block(vec![
                            Statement::Block(vec![Statement::If(
                                binop(Binop::Equal, var("i"), num(3.0)),
                                Box::new(Statement::Return(Some(var("i")))),
                                Box::new(None),
                            )]),
                            Statement::Expression(assign(
                                "i",
                                binop(Binop::Add, var("i"), num(1.0)),
                            )),
                        ])),
                    ),
                    Statement::Return(Some(binop(Binop::Sub, num(0.0), num(1.0)))),
                ],
            ),
            Statement::Block(vec![
                declare("keep", Some(num(42.0))),
                Statement::Print(call(var("first"), vec![num(10.0)])),
                Statement::Print(call(var("first"), vec![num(2.0)])),
                Statement::Print(var("keep")),
            ]),
        ],
    );
    assert_eq!(result, Ok(None));
    assert_eq!(s.printed, vec![number(3.0), number(-1.0), number(42.0)]);
}

#[test]
fn function_without_return_yields_nil() {
    let mut s = session();
    let result = submit(
        &mut s,
        vec![
            fun("f", &[], vec![Statement::Expression(num(1.0))]),
            fun("g", &[], vec![Statement::Return(None)]),
            Statement::Print(call(var("f"), vec![])),
            Statement::Expression(call(var("g"), vec![])),
        ],
    );
    assert_eq!(result, Ok(Some(Value::Nil)));
    assert_eq!(s.printed, vec![Value::Nil]);
}

#[test]
fn call_frames_do_not_see_the_callers_locals() {
    // fun get() { return x; }  { var x = 1; print get(); }
    let mut s = session();
    let result = submit(
        &mut s,
        vec![
            fun("get", &[], vec![Statement::Return(Some(var("x")))]),
            Statement::Block(vec![
                declare("x", Some(num(1.0))),
                Statement::Print(call(var("get"), vec![])),
            ]),
        ],
    );
    assert_eq!(result, Err(RuntimeError::UndefinedVariable("x".to_string())));
}

#[test]
fn recursion_through_a_global() {
    // fun fib(n) { if (n < 2) return n; return fib(n - 1) + fib(n - 2); } fib(10);
    let mut s = session();
    let fib = |e: Expression| call(var("fib"), vec![e]);
    let result = submit(
        &mut s,
        vec![
            fun(
                "fib",
                &["n"],
                vec![
                    Statement::If(
                        binop(Binop::Less, var("n"), num(2.0)),
                        Box::new(Statement::Return(Some(var("n")))),
                        Box::new(None),
                    ),
                    Statement::Return(Some(binop(
                        Binop::Add,
                        fib(binop(Binop::Sub, var("n"), num(1.0))),
                        fib(binop(Binop::Sub, var("n"), num(2.0))),
                    ))),
                ],
            ),
            Statement::Expression(fib(num(10.0))),
        ],
    );
    assert_eq!(result, Ok(Some(number(55.0))));
}

#[test]
fn recursion_of_a_local_function() {
    // { fun down(n) { if (n > 0) { print n; down(n - 1); } } down(3); }
    let mut s = session();
    let result = submit(
        &mut s,
        vec![Statement::Block(vec![
            fun(
                "down",
                &["n"],
                vec![Statement::If(
                    binop(Binop::Greater, var("n"), num(0.0)),
                    Box::new(Statement::Block(vec![
                        Statement::Print(var("n")),
                        Statement::Expression(call(
                            var("down"),
                            vec![binop(Binop::Sub, var("n"), num(1.0))],
                        )),
                    ])),
                    Box::new(None),
                )],
            ),
            Statement::Expression(call(var("down"), vec![num(3.0)])),
        ])],
    );
    assert_eq!(result, Ok(None));
    assert_eq!(s.printed, vec![number(3.0), number(2.0), number(1.0)]);
}

#[test]
fn capture_through_two_functions_reaches_the_variable() {
    // { var x = 1; fun outer() { fun inner() { x = x + 1; return x; } return inner(); }
    //   print outer(); print x; }
    let mut s = session();
    let result = submit(
        &mut s,
        vec![Statement::Block(vec![
            declare("x", Some(num(1.0))),
            fun(
                "outer",
                &[],
                vec![
                    fun(
                        "inner",
                        &[],
                        vec![
                            Statement::Expression(assign(
                                "x",
                                binop(Binop::Add, var("x"), num(1.0)),
                            )),
                            Statement::Return(Some(var("x"))),
                        ],
                    ),
                    Statement::Return(Some(call(var("inner"), vec![]))),
                ],
            ),
            Statement::Print(call(var("outer"), vec![])),
            Statement::Print(var("x")),
        ])],
    );
    assert_eq!(result, Ok(None));
    assert_eq!(s.printed, vec![number(2.0), number(2.0)]);
}

#[test]
fn last_value_is_that_of_the_last_statement() {
    let mut s = session();
    assert_eq!(
        submit(
            &mut s,
            vec![Statement::Expression(num(1.0)), Statement::Expression(num(2.0))]
        ),
        Ok(Some(number(2.0)))
    );
    assert_eq!(
        submit(
            &mut s,
            vec![Statement::Expression(num(1.0)), Statement::Print(num(2.0))]
        ),
        Ok(None)
    );
    assert_eq!(
        submit(
            &mut s,
            vec![Statement::Block(vec![Statement::Expression(num(1.0))])]
        ),
        Ok(None)
    );
    assert_eq!(
        submit(
            &mut s,
            vec![Statement::If(
                num(1.0),
                Box::new(Statement::Expression(num(1.0))),
                Box::new(None)
            )]
        ),
        Ok(None)
    );
    assert_eq!(submit(&mut s, vec![]), Ok(None));
}

#[test]
fn globals_live_across_programs() {
    let mut s = session();
    assert_eq!(submit(&mut s, vec![declare("x", Some(num(1.0)))]), Ok(None));
    assert_eq!(
        submit(
            &mut s,
            vec![Statement::Expression(assign(
                "x",
                binop(Binop::Add, var("x"), num(1.0))
            ))]
        ),
        Ok(Some(number(2.0)))
    );
    assert_eq!(
        submit(&mut s, vec![Statement::Expression(var("x"))]),
        Ok(Some(number(2.0)))
    );
}

#[test]
fn closures_live_across_programs() {
    let mut s = session();
    assert_eq!(
        submit(
            &mut s,
            vec![make_counter(), declare("c", Some(call(var("make"), vec![])))]
        ),
        Ok(None)
    );
    assert_eq!(
        submit(&mut s, vec![Statement::Expression(call(var("c"), vec![]))]),
        Ok(Some(number(1.0)))
    );
    assert_eq!(
        submit(&mut s, vec![Statement::Expression(call(var("c"), vec![]))]),
        Ok(Some(number(2.0)))
    );
}

#[test]
fn equality_never_fails() {
    let f = Value::Function { name: "f".to_string(), code: 0, captures: vec![1, 2] };
    let g = Value::Function { name: "f".to_string(), code: 1, captures: vec![1, 2] };
    let values = vec![
        Value::Nil,
        Value::Bool(false),
        Value::Bool(true),
        number(0.0),
        Value::String("a".to_string()),
        Value::NativeFunction,
        f.clone(),
        g,
    ];
    for (i, a) in values.iter().enumerate() {
        for (j, b) in values.iter().enumerate() {
            if a.kind() == Kind::Number && b.kind() == Kind::Number {
                continue;
            }
            assert_eq!(
                apply_binop(Binop::Equal, a, b),
                Applied::Value(Value::Bool(i == j))
            );
            assert_eq!(
                apply_binop(Binop::NotEqual, a, b),
                Applied::Value(Value::Bool(i != j))
            );
        }
    }
    assert_eq!(
        apply_binop(Binop::Equal, &f, &f.clone()),
        Applied::Value(Value::Bool(true))
    );
}

#[test]
fn two_numbers_are_left_to_the_driver() {
    let (a, b) = (1.5f64.to_bits(), 2.5f64.to_bits());
    for op in [
        Binop::Add,
        Binop::Sub,
        Binop::Mul,
        Binop::Div,
        Binop::Equal,
        Binop::NotEqual,
        Binop::Greater,
        Binop::GreaterEqual,
        Binop::Less,
        Binop::LessEqual,
    ] {
        assert_eq!(
            apply_binop(op, &Value::Number(a), &Value::Number(b)),
            Applied::Numeric(op, a, b)
        );
    }
}

#[test]
fn relational_operators_within_one_kind() {
    let t = Value::Bool(true);
    let f = Value::Bool(false);
    let yes = Applied::Value(Value::Bool(true));
    let no = Applied::Value(Value::Bool(false));
    assert_eq!(apply_binop(Binop::Less, &f, &t), yes);
    assert_eq!(apply_binop(Binop::Less, &t, &f), no);
    assert_eq!(apply_binop(Binop::Less, &t, &t), no);
    assert_eq!(apply_binop(Binop::LessEqual, &t, &t), yes);
    assert_eq!(apply_binop(Binop::Greater, &t, &f), yes);
    assert_eq!(apply_binop(Binop::GreaterEqual, &f, &t), no);
    assert_eq!(apply_binop(Binop::GreaterEqual, &f, &f), yes);
    let s = |text: &str| Value::String(text.to_string());
    assert_eq!(apply_binop(Binop::Less, &s("abc"), &s("abd")), yes);
    assert_eq!(apply_binop(Binop::Less, &s("ab"), &s("abc")), yes);
    assert_eq!(apply_binop(Binop::Less, &s("abc"), &s("ab")), no);
    assert_eq!(apply_binop(Binop::Less, &s("b"), &s("abc")), no);
    assert_eq!(apply_binop(Binop::Greater, &s("b"), &s("abc")), yes);
    assert_eq!(apply_binop(Binop::LessEqual, &s("abc"), &s("abc")), yes);
    assert_eq!(apply_binop(Binop::Less, &s(""), &s("")), no);
    assert_eq!(apply_binop(Binop::LessEqual, &Value::Nil, &Value::Nil), yes);
    assert_eq!(apply_binop(Binop::Less, &Value::Nil, &Value::Nil), no);
    assert_eq!(
        apply_binop(Binop::Less, &Value::Nil, &t),
        Applied::Fail(RuntimeError::TypeMismatch(Binop::Less, Kind::Nil, Kind::Bool))
    );
    assert_eq!(
        apply_binop(Binop::Mul, &s("a"), &s("b")),
        Applied::Fail(RuntimeError::TypeMismatch(
            Binop::Mul,
            Kind::String,
            Kind::String
        ))
    );
}

#[test]
fn native_function_is_the_drivers_to_call() {
    let mut interpreter = Interpreter::new();
    let args = vec![number(1.0), Value::Nil];
    assert_eq!(
        interpreter.invoke(Value::NativeFunction, args.clone()),
        Action::Native(args.clone())
    );
    assert!(interpreter.is_waiting());
    assert_eq!(interpreter.step(), Action::Native(args));
    interpreter.resume(number(3.0));
    assert!(!interpreter.is_waiting());
    assert_eq!(interpreter.step(), Action::Finished(Some(number(3.0))));
}

#[test]
fn idle_machine_has_finished() {
    let mut interpreter = Interpreter::new();
    assert_eq!(interpreter.step(), Action::Finished(None));
    interpreter.resume(number(1.0));
    assert_eq!(interpreter.step(), Action::Finished(None));
}

#[test]
fn unbound_local_reads_nil_and_write_then_read_agrees() {
    let mut interpreter = Interpreter::new();
    let far = Variable::Scoped(2, 3);
    assert_eq!(interpreter.read(&far), Ok(Value::Nil));
    interpreter.write(&far, number(4.0));
    assert_eq!(interpreter.read(&far), Ok(number(4.0)));
    assert_eq!(interpreter.read(&Variable::Scoped(2, 2)), Ok(Value::Nil));
    let captured = Variable::Closure(1);
    interpreter.write(&captured, Value::Bool(true));
    assert_eq!(interpreter.read(&captured), Ok(Value::Bool(true)));
    assert_eq!(interpreter.read(&far), Ok(number(4.0)));
}

#[test]
fn return_outside_a_function_ends_the_program() {
    let mut s = session();
    let result = submit(
        &mut s,
        vec![
            Statement::Block(vec![Statement::Return(Some(num(1.0)))]),
            Statement::Print(num(2.0)),
        ],
    );
    assert_eq!(result, Ok(Some(number(1.0))));
    assert_eq!(s.printed, vec![]);
}

#[test]
fn values_have_their_kinds() {
    assert_eq!(Value::Nil.kind(), Kind::Nil);
    assert_eq!(Value::Bool(true).kind(), Kind::Bool);
    assert_eq!(number(1.0).kind(), Kind::Number);
    assert_eq!(Value::String("s".to_string()).kind(), Kind::String);
    assert_eq!(Value::NativeFunction.kind(), Kind::NativeFunction);
    let f = Value::Function { name: "f".to_string(), code: 0, captures: vec![] };
    assert_eq!(f.kind(), Kind::Function);
    assert!(f.is_callable());
    assert!(Value::NativeFunction.is_callable());
    assert!(!Value::Nil.is_callable());
}

#[test]
fn literal_evaluates_to_its_number() {
    let mut interpreter = Interpreter::new();
    assert_eq!(interpreter.evaluate(num(2.5)), Action::Continue);
    assert_eq!(interpreter.step(), Action::Finished(Some(number(2.5))));
}

#[test]
fn numbers_are_asked_of_the_driver_left_operand_first() {
    let mut interpreter = Interpreter::new();
    let program = Program::new(vec![Statement::Expression(binop(
        Binop::Sub,
        num(7.0),
        num(2.0),
    ))]);
    interpreter.run(Resolver::new().run(program).unwrap());
    let mut asked = None;
    for _ in 0..100 {
        match interpreter.step() {
            Action::Continue => {}
            Action::Numeric(op, a, b) => {
                asked = Some((op, a, b));
                break;
            }
            other => panic!("unexpected {:?}", other),
        }
    }
    assert_eq!(asked, Some((Binop::Sub, 7.0f64.to_bits(), 2.0f64.to_bits())));
    assert!(interpreter.is_waiting());
    interpreter.resume(number(5.0));
    let mut result = None;
    for _ in 0..100 {
        match interpreter.step() {
            Action::Continue => {}
            Action::Finished(value) => {
                result = value;
                break;
            }
            other => panic!("unexpected {:?}", other),
        }
    }
    assert_eq!(result, Some(number(5.0)));
}

#[test]
fn function_value_refers_to_its_declaration_and_its_cells() {
    // { var a; var b; fun f() { return b; } f; }
    let mut s = session();
    let result = submit(
        &mut s,
        vec![
            fun("g", &[], vec![]),
            Statement::Block(vec![
                declare("a", None),
                declare("b", None),
                fun("f", &[], vec![Statement::Return(Some(var("b")))]),
                Statement::Return(Some(var("f"))),
            ]),
        ],
    );
    assert_eq!(
        result,
        Ok(Some(Value::Function { name: "f".to_string(), code: 1, captures: vec![1] }))
    );
    assert_eq!(
        s.interpreter.global(&"g".to_string()),
        Some(Value::Function { name: "g".to_string(), code: 0, captures: vec![] })
    );
}

#[test]
fn loading_a_program_drops_what_was_pending() {
    let mut s = session();
    let first = s
        .resolver
        .run(Program::new(vec![
            declare("x", Some(num(1.0))),
            Statement::Print(var("x")),
        ]))
        .unwrap();
    s.interpreter.run(first);
    for _ in 0..4 {
        s.interpreter.step();
    }
    assert_eq!(
        submit(&mut s, vec![Statement::Expression(var("x"))]),
        Ok(Some(number(1.0)))
    );
    assert_eq!(s.printed, vec![]);
}
