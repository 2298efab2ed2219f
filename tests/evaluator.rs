use reef::ast::{BinaryExprOperator, Boolean, ComparisonOperator, Expr, Stmt};
use reef::eval::{float_equal, Answer, Evaluator, Halt, Query, RuntimeError, RuntimeType};
use reef::lex::Scanner;
use reef::parse::Parser;

fn answer(q: &Query) -> Answer {
    match q {
        Query::Literal(t) => Answer::Number(t.parse::<f64>().unwrap().to_bits()),
        Query::Arithmetic(op, a, b) => {
            let x = f64::from_bits(*a);
            let y = f64::from_bits(*b);
            let z = match op {
                BinaryExprOperator::Plus => x + y,
                BinaryExprOperator::Minus => x - y,
                BinaryExprOperator::Multiply => x * y,
                BinaryExprOperator::Divide => x / y,
                BinaryExprOperator::Modulus => x % y,
            };
            Answer::Number(z.to_bits())
        }
        Query::Render(b) => Answer::Text(format!("{}", f64::from_bits(*b))),
    }
}

fn run_program(program: Vec<Stmt>) -> (Vec<String>, Option<RuntimeError>) {
    let mut ev = Evaluator::new(program, 0);
    let mut answers: Vec<Answer> = Vec::new();
    loop {
        let out = ev.evaluate_program(&answers);
        match out.halt {
            None => return (out.lines, None),
            Some(Halt::Failed(e)) => return (out.lines, Some(e)),
            Some(Halt::Asked(q)) => answers.push(answer(&q)),
        }
    }
}

fn run(src: &str) -> (Vec<String>, Option<RuntimeError>) {
    let mut s = Scanner::new(src, 0);
    s.scan().unwrap();
    let (program, r) = Parser::parse(s.into_tokens());
    r.unwrap();
    run_program(program)
}

#[test]
fn log_of_sum() {
    assert_eq!(run("log 1 + 2;"), (vec!["3".to_string()], None));
}

#[test]
fn variables_flow_into_log() {
    assert_eq!(
        run("var x = 5; var y = x + 1; log y;"),
        (vec!["6".to_string()], None)
    );
}

#[test]
fn empty_log_prints_empty_line() {
    assert_eq!(run("log;"), (vec![String::new()], None));
    let program = vec![Stmt::LogStatement(Vec::new())];
    assert_eq!(run_program(program), (vec![String::new()], None));
}

#[test]
fn if_true_runs_body() {
    assert_eq!(run("if (true) then { log 1; }"), (vec!["1".to_string()], None));
}

#[test]
fn if_false_skips_body() {
    assert_eq!(run("if (false) then { log 1; }"), (Vec::<String>::new(), None));
}

#[test]
fn reassigning_undeclared_variable_fails() {
    let (lines, err) = run("x = 5;");
    assert!(lines.is_empty());
    match err {
        Some(RuntimeError::UndeclaredReassignment(n)) => assert_eq!(n, "x"),
        other => panic!("unexpected {:?}", other),
    }
}

#[test]
fn declaring_twice_fails() {
    let (lines, err) = run("var x = 1; log x; var x = 2; log x;");
    assert_eq!(lines, vec!["1".to_string()]);
    match err {
        Some(RuntimeError::Redeclaration(n)) => assert_eq!(n, "x"),
        other => panic!("unexpected {:?}", other),
    }
}

#[test]
fn same_source_runs_the_same_twice() {
    let src = "var a = 0.1; var b = 0.2; log a + b, \"s\", true; a = a * 3; log a; a;";
    let first = run(src);
    let second = run(src);
    assert_eq!(first, second);
    assert_eq!(
        first.0,
        vec![
            "0.30000000000000004 s true".to_string(),
            "0.30000000000000004".to_string(),
            "[expr_stmt] 0.30000000000000004".to_string(),
        ]
    );
}

#[test]
fn reassignment_updates_value() {
    assert_eq!(run("var a = 1; a = a + 1; log a;"), (vec!["2".to_string()], None));
}

#[test]
fn expression_statement_prints_diagnostic() {
    assert_eq!(run("\"hi\";"), (vec!["[expr_stmt] hi".to_string()], None));
}

#[test]
fn right_grouping_shows_in_result() {
    assert_eq!(run("log 2 * 3 - 1;"), (vec!["4".to_string()], None));
    assert_eq!(run("log 10 - 2 - 3;"), (vec!["11".to_string()], None));
}

#[test]
fn unary_minus_negates() {
    assert_eq!(run("log -2;"), (vec!["-2".to_string()], None));
    assert_eq!(run("log -(1 + 2);"), (vec!["-3".to_string()], None));
}

#[test]
fn division_by_zero_is_infinite() {
    assert_eq!(run("log 1 / 0;"), (vec!["inf".to_string()], None));
}

#[test]
fn undefined_variable_fails() {
    let (_, err) = run("log y;");
    match err {
        Some(RuntimeError::UndefinedVariable(n)) => assert_eq!(n, "y"),
        other => panic!("unexpected {:?}", other),
    }
}

#[test]
fn ordering_comparison_is_unsupported() {
    let (_, err) = run("log 1 < 2;");
    assert!(matches!(err, Some(RuntimeError::OrderingUnsupported(_))));
}

#[test]
fn arithmetic_on_string_fails() {
    let (_, err) = run("log \"a\" + 1;");
    assert!(matches!(err, Some(RuntimeError::BinaryOperandNotNumber)));
}

#[test]
fn negating_string_fails() {
    let (_, err) = run("log -x;");
    assert!(matches!(err, Some(RuntimeError::UndefinedVariable(_))));
    let program = vec![Stmt::ExpressionStatement(Expr::UnaryExpression(
        reef::ast::UnaryOperation::Minus,
        Box::new(Expr::StringLiteral("s".to_string())),
    ))];
    let (_, err) = run_program(program);
    assert!(matches!(err, Some(RuntimeError::UnaryOperandNotNumber)));
}

#[test]
fn non_boolean_condition_fails() {
    let (_, err) = run("if (1) then { log 1; }");
    assert!(matches!(err, Some(RuntimeError::NonBooleanCondition)));
}

#[test]
fn if_body_must_be_block() {
    let program = vec![Stmt::IfStatement {
        condition: Expr::Boolean(Boolean::True),
        body: Box::new(Stmt::EmptyStatement),
    }];
    let (_, err) = run_program(program);
    assert!(matches!(err, Some(RuntimeError::IfBodyNotBlock)));
}

fn compare(op: ComparisonOperator, l: Expr, r: Expr) -> (Vec<String>, Option<RuntimeError>) {
    run_program(vec![Stmt::LogStatement(vec![Expr::ComparisonExpression {
        lhs: Box::new(l),
        rhs: Box::new(r),
        operator: op,
    }])])
}

fn num(t: &str) -> Expr {
    Expr::NumberLiteral(t.to_string())
}

#[test]
fn equality_and_logic() {
    assert_eq!(compare(ComparisonOperator::EqualTo, num("1"), num("1.0")).0, vec!["true"]);
    assert_eq!(compare(ComparisonOperator::NotEqualTo, num("1"), num("2")).0, vec!["true"]);
    assert_eq!(
        compare(ComparisonOperator::EqualTo, num("1"), Expr::StringLiteral("1".to_string())).0,
        vec!["false"]
    );
    assert_eq!(compare(ComparisonOperator::EqualTo, Expr::NilLiteral, Expr::NilLiteral).0, vec!["true"]);
    let t = || Expr::Boolean(Boolean::True);
    let f = || Expr::Boolean(Boolean::False);
    assert_eq!(compare(ComparisonOperator::And, t(), f()).0, vec!["false"]);
    assert_eq!(compare(ComparisonOperator::Or, t(), f()).0, vec!["true"]);
    assert!(matches!(
        compare(ComparisonOperator::And, t(), num("1")).1,
        Some(RuntimeError::LogicalOperandNotBoolean)
    ));
}

#[test]
fn float_equality_on_bits() {
    let nan = f64::NAN.to_bits();
    assert!(!float_equal(nan, nan));
    assert!(float_equal(0.0f64.to_bits(), (-0.0f64).to_bits()));
    assert!(float_equal(1.5f64.to_bits(), 1.5f64.to_bits()));
    assert!(!float_equal(1.5f64.to_bits(), 2.5f64.to_bits()));
}

#[test]
fn unsupported_statement_fails() {
    let program = vec![Stmt::ReturnStatement(Expr::NilLiteral)];
    let (_, err) = run_program(program);
    assert!(matches!(err, Some(RuntimeError::UnsupportedStatement)));
}

#[test]
fn wrong_answer_kind_fails() {
    let mut ev = Evaluator::new(vec![Stmt::LogStatement(vec![num("1")])], 0);
    let out = ev.evaluate_program(&vec![Answer::Text("1".to_string())]);
    assert!(matches!(out.halt, Some(Halt::Failed(RuntimeError::AnswerMismatch))));
}

#[test]
fn run_stops_at_first_question() {
    let mut ev = Evaluator::new(vec![Stmt::LogStatement(vec![num("7")])], 0);
    let out = ev.evaluate_program(&Vec::new());
    assert!(out.lines.is_empty());
    match out.halt {
        Some(Halt::Asked(Query::Literal(t))) => assert_eq!(t, "7"),
        other => panic!("unexpected {:?}", other),
    }
}

#[test]
fn scope_holds_declared_values() {
    let mut ev = Evaluator::new(
        vec![Stmt::VariableDeclaration {
            name: "s".to_string(),
            value: Expr::StringLiteral("v".to_string()),
        }],
        0,
    );
    let out = ev.evaluate_program(&Vec::new());
    assert!(out.halt.is_none());
    let scope = ev.get_main_scope();
    assert_eq!(scope.len(), 1);
    assert_eq!(scope[0].name, "s");
    assert!(matches!(&scope[0].value, RuntimeType::String(v) if v == "v"));
}

#[test]
fn modulus_follows_float_remainder() {
    let program = vec![Stmt::LogStatement(vec![Expr::BinaryExpression {
        left_side: Box::new(num("7.5")),
        right_side: Box::new(num("2")),
        operator: BinaryExprOperator::Modulus,
    }])];
    assert_eq!(run_program(program), (vec!["1.5".to_string()], None));
}

#[test]
fn function_call_is_unsupported() {
    let program = vec![Stmt::ExpressionStatement(Expr::FunctionCall {
        func_name: "f".to_string(),
        arguments: Vec::new(),
    })];
    let (_, err) = run_program(program);
    assert!(matches!(err, Some(RuntimeError::UnsupportedExpression)));
}

#[test]
fn lines_before_a_failure_are_kept() {
    let (lines, err) = run("log \"a\"; log 1 + 2; log z;");
    assert_eq!(lines, vec!["a".to_string(), "3".to_string()]);
    assert!(matches!(err, Some(RuntimeError::UndefinedVariable(_))));
}

#[test]
fn more_answers_extend_the_output() {
    let mut s = Scanner::new("log \"a\"; log 1; log \"b\";", 0);
    s.scan().unwrap();
    let (program, _) = Parser::parse(s.into_tokens());
    let mut ev = Evaluator::new(program, 0);
    let short = ev.evaluate_program(&Vec::new());
    assert_eq!(short.lines, vec!["a".to_string()]);
    let long = ev.evaluate_program(&vec![
        Answer::Number(1.0f64.to_bits()),
        Answer::Text("1".to_string()),
    ]);
    assert_eq!(
        long.lines,
        vec!["a".to_string(), "1".to_string(), "b".to_string()]
    );
    assert!(long.halt.is_none());
}
