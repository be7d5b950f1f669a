use zkflat::ast::{Condition, Definition, Expression, Parameter, Program};
use zkflat::flatten::{flatten_condition, flatten_expression, flatten_program, is_flattened, is_linear, FlattenError};
use zkflat::names::{make_bit_name, make_sym_name};
use zkflat::parser::{parse_program, ParseError};

fn show(e: &Expression) -> String {
    match e {
        Expression::NumberLiteral(n) => format!("{}", n),
        Expression::VariableReference(v) => v.clone(),
        Expression::Add(l, r) => format!("({} + {})", show(l), show(r)),
        Expression::Sub(l, r) => format!("({} - {})", show(l), show(r)),
        Expression::Mult(l, r) => format!("({} * {})", show(l), show(r)),
        Expression::Div(l, r) => format!("({} / {})", show(l), show(r)),
        Expression::Pow(l, r) => format!("({} ** {})", show(l), show(r)),
        Expression::IfElse(c, t, f) => match &**c {
            Condition::LessThan(a, b) => format!("({} < {} ? {} : {})", show(a), show(b), show(t), show(f)),
        },
    }
}

fn show_def(d: &Definition) -> String {
    match d {
        Definition::Assignment(n, e) => format!("{} = {}", n, show(e)),
        Definition::Return(e) => format!("return {}", show(e)),
    }
}

fn show_defs(p: &Program) -> Vec<String> {
    p.defs.iter().map(show_def).collect()
}

fn lines(ls: &[&str]) -> Vec<String> {
    ls.iter().map(|l| l.to_string()).collect()
}

fn var(n: &str) -> Expression {
    Expression::VariableReference(n.to_string())
}

fn num(n: i32) -> Expression {
    Expression::NumberLiteral(n)
}

fn program(defs: Vec<Definition>) -> Program {
    Program { id: "f".to_string(), args: vec![Parameter { id: "x".to_string() }], defs }
}

fn parse(ls: &[&str]) -> Program {
    match parse_program(&lines(ls)) {
        Ok(p) => p,
        Err(e) => panic!("parse failed: {:?}", e),
    }
}

#[test]
fn flat_program_is_unchanged() {
    let p = parse(&["def f(a, b):", "c = a + b", "return c * c"]);
    assert_eq!(show_defs(&p), vec!["c = (a + b)", "return (c * c)"]);
    let q = flatten_program(p).unwrap();
    assert_eq!(q.id, "f");
    assert_eq!(q.args.len(), 2);
    assert_eq!(q.args[0].id, "a");
    assert_eq!(q.args[1].id, "b");
    assert_eq!(show_defs(&q), vec!["c = (a + b)", "return (c * c)"]);
}

#[test]
fn cube_expands_to_two_multiplications() {
    let p = parse(&["def g(x):", "return x ** 3"]);
    assert_eq!(show_defs(&p), vec!["return (x ** 3)"]);
    let q = flatten_program(p).unwrap();
    assert_eq!(show_defs(&q), vec!["sym_0 = (x * x)", "return (sym_0 * x)"]);
}

#[test]
fn nested_right_operand_gets_a_temporary() {
    let p = parse(&["def f(a, b):", "return a + b * a"]);
    assert_eq!(show_defs(&p), vec!["return (a + (b * a))"]);
    let q = flatten_program(p).unwrap();
    assert_eq!(show_defs(&q), vec!["sym_0 = (b * a)", "return (a + sym_0)"]);
}

#[test]
fn assignment_after_return_is_rejected() {
    let r = parse_program(&lines(&["def f(a, b):", "return a", "c = a + b"]));
    assert_eq!(r.unwrap_err().kind, ParseError::LastStatementNotReturn);
}

#[test]
fn power_of_four_costs_two_temporaries() {
    let p = program(vec![Definition::Return(Expression::Pow(Box::new(var("x")), Box::new(num(4))))]);
    let q = flatten_program(p).unwrap();
    assert_eq!(show_defs(&q), vec!["sym_0 = (x * x)", "sym_1 = (sym_0 * x)", "return (sym_1 * x)"]);
}

#[test]
fn square_needs_no_temporary() {
    let p = program(vec![Definition::Return(Expression::Pow(Box::new(var("x")), Box::new(num(2))))]);
    let q = flatten_program(p).unwrap();
    assert_eq!(show_defs(&q), vec!["return (x * x)"]);
}

#[test]
fn literal_base_is_squared_whatever_the_exponent() {
    let p = program(vec![Definition::Return(Expression::Pow(Box::new(num(2)), Box::new(num(5))))]);
    let q = flatten_program(p).unwrap();
    assert_eq!(show_defs(&q), vec!["return (2 * 2)"]);
}

#[test]
fn exponent_one_is_rejected() {
    let p = program(vec![Definition::Return(Expression::Pow(Box::new(var("x")), Box::new(num(1))))]);
    assert_eq!(flatten_program(p).unwrap_err(), FlattenError::UnsupportedPowExponent);
}

#[test]
fn variable_exponent_is_rejected() {
    let p = program(vec![Definition::Return(Expression::Pow(Box::new(var("x")), Box::new(var("y"))))]);
    assert_eq!(flatten_program(p).unwrap_err(), FlattenError::UnsupportedPowExponent);
}

#[test]
fn compound_base_is_rejected() {
    let base = Expression::Add(Box::new(var("x")), Box::new(num(1)));
    let p = program(vec![Definition::Return(Expression::Pow(Box::new(base), Box::new(num(3))))]);
    assert_eq!(flatten_program(p).unwrap_err(), FlattenError::UnsupportedPowBase);
}

#[test]
fn condition_lowering_shape() {
    let p = parse(&["def f(a, b):", "c = a < b ? a : b", "return c"]);
    assert_eq!(show_defs(&p), vec!["c = (a < b ? a : b)", "return c"]);
    let q = flatten_program(p).unwrap();
    let expected = vec![
        "sym_0 = a",
        "sym_1 = b",
        "sym_2 = (sym_0 - sym_1)",
        "sym_2_b0 = (sym_2_b0 * sym_2_b0)",
        "sym_2_b1 = (sym_2_b1 * sym_2_b1)",
        "sym_2_b2 = (sym_2_b2 * sym_2_b2)",
        "sym_2_b3 = (sym_2_b3 * sym_2_b3)",
        "sym_2_b4 = (sym_2_b4 * sym_2_b4)",
        "sym_2_b5 = (sym_2_b5 * sym_2_b5)",
        "sym_2_b6 = (sym_2_b6 * sym_2_b6)",
        "sym_2_b7 = (sym_2_b7 * sym_2_b7)",
        "sym_2 = ((sym_2_b7 * 128) + ((sym_2_b6 * 64) + ((sym_2_b5 * 32) + ((sym_2_b4 * 16) + ((sym_2_b3 * 8) + ((sym_2_b2 * 4) + ((sym_2_b1 * 2) + sym_2_b0)))))))",
        "sym_3 = (1 - sym_2_b7)",
        "sym_4 = (sym_2_b7 * a)",
        "sym_5 = (sym_3 * b)",
        "c = (sym_4 + sym_5)",
        "return c",
    ];
    assert_eq!(show_defs(&q), expected);
}

#[test]
fn temporaries_are_numbered_across_definitions() {
    let p = parse(&["def f(a, b):", "c = a + b * a", "d = c * a - b", "return d + a * a"]);
    let q = flatten_program(p).unwrap();
    assert_eq!(
        show_defs(&q),
        vec![
            "sym_0 = (b * a)",
            "c = (a + sym_0)",
            "sym_1 = (a - b)",
            "d = (c * sym_1)",
            "sym_2 = (a * a)",
            "return (d + sym_2)",
        ]
    );
}

#[test]
fn user_names_are_kept_once() {
    let p = parse(&["def f(x):", "y = x ** 3", "z = y + x * y", "return z"]);
    let q = flatten_program(p).unwrap();
    let defs = show_defs(&q);
    assert_eq!(defs.iter().filter(|d| d.starts_with("y = ")).count(), 1);
    assert_eq!(defs.iter().filter(|d| d.starts_with("z = ")).count(), 1);
    assert_eq!(defs.last().unwrap(), "return z");
}

#[test]
fn division_and_subtraction_are_flattened() {
    let p = parse(&["def f(a, b):", "return a / b - 3"]);
    let q = flatten_program(p).unwrap();
    assert_eq!(show_defs(&q), vec!["sym_0 = (b - 3)", "return (a / sym_0)"]);
}

#[test]
fn predicates_on_expressions() {
    assert!(is_linear(&num(3)));
    assert!(is_linear(&var("a")));
    let flat = Expression::Add(Box::new(var("a")), Box::new(num(1)));
    assert!(!is_linear(&flat));
    assert!(is_flattened(&flat));
    let nested = Expression::Add(Box::new(var("a")), Box::new(flat));
    assert!(!is_flattened(&nested));
}

#[test]
fn synthesized_names() {
    assert_eq!(make_sym_name(0), "sym_0");
    assert_eq!(make_sym_name(12), "sym_12");
    assert_eq!(make_sym_name(305), "sym_305");
    assert_eq!(make_bit_name(7, 3), "sym_7_b3");
}

#[test]
fn comments_and_blank_lines_are_skipped() {
    let p = parse(&["// header comment", "", "def f(a):", "", "  // inner", "b = a * 2", "return b"]);
    assert_eq!(p.id, "f");
    assert_eq!(show_defs(&p), vec!["b = (a * 2)", "return b"]);
}

#[test]
fn whitespace_inside_expressions_is_ignored() {
    let p = parse(&["def f(a,  b):", "\tc =  a\t+ b ", "return   c"]);
    assert_eq!(p.args.len(), 2);
    assert_eq!(show_defs(&p), vec!["c = (a + b)", "return c"]);
}

#[test]
fn missing_function_definition() {
    let r = parse_program(&lines(&["", "// nothing"]));
    assert_eq!(r.unwrap_err().kind, ParseError::MissingFunctionDefinition);
}

#[test]
fn content_before_definition() {
    let r = parse_program(&lines(&["x = 1", "def f(a):", "return a"]));
    assert_eq!(r.unwrap_err().kind, ParseError::UnexpectedContentBeforeDefinition);
}

#[test]
fn malformed_header() {
    let r = parse_program(&lines(&["def f(a)", "return a"]));
    assert_eq!(r.unwrap_err().kind, ParseError::MalformedHeader);
    let r = parse_program(&lines(&["def f(A):", "return a"]));
    assert_eq!(r.unwrap_err().kind, ParseError::MalformedHeader);
}

#[test]
fn malformed_definition_line() {
    let r = parse_program(&lines(&["def f(a):", "b == a", "return a"]));
    assert_eq!(r.unwrap_err().kind, ParseError::MalformedDefinitionLine);
}

#[test]
fn missing_return() {
    let r = parse_program(&lines(&["def f(a):"]));
    assert_eq!(r.unwrap_err().kind, ParseError::MissingOrMisplacedReturn);
}

#[test]
fn return_that_is_not_last() {
    let r = parse_program(&lines(&["def f(a):", "return a", "return a"]));
    assert_eq!(r.unwrap_err().kind, ParseError::MissingOrMisplacedReturn);
}

#[test]
fn unparsable_expression() {
    let r = parse_program(&lines(&["def f(a):", "b = a +", "return b"]));
    assert_eq!(r.unwrap_err().kind, ParseError::UnparsableExpression);
    let r = parse_program(&lines(&["def f(a):", "return 99999999999"]));
    assert_eq!(r.unwrap_err().kind, ParseError::UnparsableExpression);
    let r = parse_program(&lines(&["def f(a):", "return a ** b"]));
    assert_eq!(r.unwrap_err().kind, ParseError::UnparsableExpression);
}

#[test]
fn right_operand_nests() {
    let p = parse(&["def f(a, b):", "return 2 * a - b / 7"]);
    assert_eq!(show_defs(&p), vec!["return (2 * (a - (b / 7)))"]);
}

#[test]
fn return_may_hold_a_conditional() {
    let p = parse(&["def foo(a, b):", "return a < b ? a : b"]);
    assert_eq!(show_defs(&p), vec!["return (a < b ? a : b)"]);
    let q = flatten_program(p).unwrap();
    let defs = show_defs(&q);
    assert_eq!(defs.len(), 16);
    assert_eq!(defs[0], "sym_0 = a");
    assert_eq!(defs[11], "sym_2 = ((sym_2_b7 * 128) + ((sym_2_b6 * 64) + ((sym_2_b5 * 32) + ((sym_2_b4 * 16) + ((sym_2_b3 * 8) + ((sym_2_b2 * 4) + ((sym_2_b1 * 2) + sym_2_b0)))))))");
    assert_eq!(defs[15], "return (sym_4 + sym_5)");
}

#[test]
fn assigned_name_must_start_the_line() {
    let r = parse_program(&lines(&["def f(a):", "foo bar = 5", "return a"]));
    assert_eq!(r.unwrap_err().kind, ParseError::MalformedDefinitionLine);
}

#[test]
fn word_starting_with_return_is_a_name() {
    let p = parse(&["def f(a):", "returned = a * 2", "return returned"]);
    assert_eq!(show_defs(&p), vec!["returned = (a * 2)", "return returned"]);
}

#[test]
fn identifier_must_start_with_a_letter() {
    let r = parse_program(&lines(&["def _f(a):", "return a"]));
    assert_eq!(r.unwrap_err().kind, ParseError::MalformedHeader);
    let r = parse_program(&lines(&["def  f(a):", "return a"]));
    assert_eq!(r.unwrap_err().kind, ParseError::MalformedHeader);
}

#[test]
fn program_ending_in_assignment_is_not_flattened() {
    let r = parse_program(&lines(&["def foo(a, b):", "  c = a + b"]));
    assert_eq!(r.unwrap_err().kind, ParseError::LastStatementNotReturn);
}

#[test]
fn power_expansion_continues_the_counter() {
    let mut defs = vec![Definition::Assignment("y".to_string(), var("x"))];
    let mut counter: usize = 4;
    let e = Expression::Pow(Box::new(var("x")), Box::new(num(5)));
    let r = flatten_expression(&mut defs, &mut counter, e).unwrap();
    assert_eq!(show(&r), "(sym_6 * x)");
    assert_eq!(counter, 7);
    let shown: Vec<String> = defs.iter().map(show_def).collect();
    assert_eq!(shown, vec!["y = x", "sym_4 = (x * x)", "sym_5 = (sym_4 * x)", "sym_6 = (sym_5 * x)"]);
}

#[test]
fn condition_emits_twelve_definitions() {
    let mut defs: Vec<Definition> = Vec::new();
    let mut counter: usize = 1;
    let name = flatten_condition(&mut defs, &mut counter, Condition::LessThan(var("a"), num(3))).unwrap();
    assert_eq!(name, "sym_3_b7");
    assert_eq!(counter, 4);
    assert_eq!(defs.len(), 12);
    let shown: Vec<String> = defs.iter().map(show_def).collect();
    assert_eq!(shown[0], "sym_1 = a");
    assert_eq!(shown[1], "sym_2 = 3");
    assert_eq!(shown[2], "sym_3 = (sym_1 - sym_2)");
    assert_eq!(shown[10], "sym_3_b7 = (sym_3_b7 * sym_3_b7)");
    assert!(shown[11].starts_with("sym_3 = ((sym_3_b7 * 128) + "));
}

#[test]
fn parse_errors_carry_line_and_function() {
    let e = parse_program(&lines(&["// c", "def foo(a):", "b = a", "x + = 1", "return b"])).unwrap_err();
    assert_eq!(e.kind, ParseError::MalformedDefinitionLine);
    assert_eq!(e.line, 3);
    assert_eq!(e.function, "foo");
    let e = parse_program(&lines(&["def foo(a):", "b = a"])).unwrap_err();
    assert_eq!(e.kind, ParseError::LastStatementNotReturn);
    assert_eq!(e.line, 2);
    assert_eq!(e.function, "foo");
    let e = parse_program(&lines(&["", "y = 2"])).unwrap_err();
    assert_eq!(e.kind, ParseError::UnexpectedContentBeforeDefinition);
    assert_eq!(e.line, 1);
    assert_eq!(e.function, "");
}
