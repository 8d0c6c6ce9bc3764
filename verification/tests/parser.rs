use calc_parser::ast::function;
use calc_parser::ast::{Expression, Precedence};
use calc_parser::parser::{parse, Expected, ParseError, MAX_DEPTH};

fn number(text: &str) -> Expression {
    Expression::Literal { as_bool: false, value: text.to_string() }
}

fn variable(name: &str) -> Expression {
    Expression::Variable { identifier: name.to_string() }
}

fn call(name: &str, args: Vec<Expression>) -> Expression {
    Expression::FunctionCall { function: function::get(name, args.len() as u8).unwrap(), args }
}

#[test]
fn power_groups_to_the_right() {
    assert_eq!(
        parse("2 ^ 3 ^ 2"),
        Ok(call("^", vec![number("2"), call("^", vec![number("3"), number("2")])]))
    );
    assert_eq!(parse("2 ^ 3 ^ 2").unwrap().to_string(), "^(2, ^(3, 2))");
}

#[test]
fn minus_groups_to_the_left() {
    assert_eq!(
        parse("8 - 3 - 2"),
        Ok(call("-", vec![call("-", vec![number("8"), number("3")]), number("2")]))
    );
    assert_eq!(parse("8 - 3 - 2").unwrap().to_string(), "-(-(8, 3), 2)");
}

#[test]
fn parentheses_override_precedence() {
    assert_eq!(
        parse("(1 + 2) * 3"),
        Ok(call("*", vec![call("+", vec![number("1"), number("2")]), number("3")]))
    );
    assert_eq!(
        parse("1 + 2 * 3"),
        Ok(call("+", vec![number("1"), call("*", vec![number("2"), number("3")])]))
    );
}

#[test]
fn arity_mismatch_is_rejected() {
    assert_eq!(
        parse("min(1)"),
        Err(ParseError::UnknownOperator { identifier: "min".to_string(), arity: 1, position: 0 })
    );
    let parsed = parse("min(1,2)").unwrap();
    assert_eq!(parsed, call("min", vec![number("1"), number("2")]));
    match parsed {
        Expression::FunctionCall { function, args } => {
            assert_eq!(args.len(), 2);
            assert_eq!(function.arity, 2);
        },
        other => panic!("{:?}", other),
    }
    assert_eq!(
        parse("abs(1, 2)"),
        Err(ParseError::UnknownOperator { identifier: "abs".to_string(), arity: 2, position: 0 })
    );
    assert_eq!(
        parse("max(1, 2, 3)"),
        Err(ParseError::UnknownOperator { identifier: "max".to_string(), arity: 3, position: 0 })
    );
}

#[test]
fn unknown_identifier_becomes_a_variable() {
    let parsed = parse("x + 1").unwrap();
    assert_eq!(parsed, call("+", vec![variable("x"), number("1")]));
    match parsed {
        Expression::FunctionCall { args, .. } => {
            assert_eq!(args[0], Expression::Variable { identifier: "x".to_string() })
        },
        other => panic!("{:?}", other),
    }
}

#[test]
fn end_to_end() {
    let parsed = parse("-3 + 4 * 2").unwrap();
    let expected = Expression::FunctionCall {
        function: function::get("+", 2).unwrap(),
        args: vec![
            Expression::FunctionCall { function: function::get("-", 1).unwrap(), args: vec![number("3")] },
            Expression::FunctionCall {
                function: function::get("*", 2).unwrap(),
                args: vec![number("4"), number("2")],
            },
        ],
    };
    assert_eq!(parsed, expected);
    assert_eq!(parsed.to_string(), "+(-(3), *(4, 2))");
}

#[test]
fn every_level_of_the_scale() {
    assert_eq!(
        parse("a || b && c == d + e * f ^ g").unwrap().to_string(),
        "||(a, &&(b, ==(c, +(d, *(e, ^(f, g))))))"
    );
    assert_eq!(
        parse("a ^ b * c + d == e && f || g").unwrap().to_string(),
        "||(&&(==(+(*(^(a, b), c), d), e), f), g)"
    );
    assert_eq!(parse("a < b <= c > d >= e != f").unwrap().to_string(), "!=(>=(>(<=(<(a, b), c), d), e), f)");
    assert_eq!(parse("a * b / c % d").unwrap().to_string(), "%(/(*(a, b), c), d)");
    assert_eq!(parse("a && b ^^ c").unwrap().to_string(), "^^(&&(a, b), c)");
}

#[test]
fn prefix_operators_and_calls() {
    assert_eq!(parse("- - 3").unwrap().to_string(), "-(-(3))");
    assert_eq!(parse("!x == y").unwrap().to_string(), "==(!(x), y)");
    assert_eq!(parse("-2 ^ 2").unwrap().to_string(), "^(-(2), 2)");
    assert_eq!(parse("2 ^ -2").unwrap().to_string(), "^(2, -(2))");
    assert_eq!(parse("sqrt(4)").unwrap().to_string(), "sqrt(4)");
    assert_eq!(parse("sqrt 4").unwrap().to_string(), "sqrt(4)");
    assert_eq!(parse("-(1 + 2) * 3").unwrap().to_string(), "*(-(+(1, 2)), 3)");
    assert_eq!(parse("max(min(a, 1), abs(-b)) + 1").unwrap().to_string(), "+(max(min(a, 1), abs(-(b))), 1)");
    assert_eq!(parse("1 min 2 min 3").unwrap().to_string(), "min(min(1, 2), 3)");
    assert_eq!(parse("-(1, 2)").unwrap().to_string(), "-(1, 2)");
}

#[test]
fn rendering_reads_back() {
    for input in ["-3 + 4 * 2", "2 ^ 3 ^ 2", "min(1,2) - x", "!(a && b) || c", "(1.5)"] {
        let parsed = parse(input).unwrap();
        assert_eq!(parse(&parsed.to_string()), Ok(parsed));
    }
}

#[test]
fn literals_are_kept_as_written() {
    assert_eq!(parse("007.50"), Ok(number("007.50")));
    match parse("1.25").unwrap() {
        Expression::Literal { as_bool, value } => {
            assert!(!as_bool);
            assert_eq!(value.parse::<f64>().unwrap(), 1.25);
        },
        other => panic!("{:?}", other),
    }
}

#[test]
fn syntax_errors() {
    let expression = |position| Err(ParseError::Syntax { expected: Expected::Expression, position });
    let closing = |position| Err(ParseError::Syntax { expected: Expected::ClosingParenthesis, position });
    let operator = |position| Err(ParseError::Syntax { expected: Expected::Operator, position });
    assert_eq!(parse(""), expression(0));
    assert_eq!(parse("   "), expression(0));
    assert_eq!(parse("1 +"), expression(2));
    assert_eq!(parse(")"), expression(0));
    assert_eq!(parse("()"), expression(1));
    assert_eq!(parse("sqrt()"), expression(2));
    assert_eq!(parse("min(1,)"), expression(4));
    assert_eq!(parse("1 + , 2"), expression(2));
    assert_eq!(parse("(1 + 2"), closing(4));
    assert_eq!(parse("(1 2)"), closing(2));
    assert_eq!(parse("(1 ! 2)"), closing(2));
    assert_eq!(parse("min(1, 2"), closing(5));
    assert_eq!(parse("1 2"), operator(1));
    assert_eq!(parse("1)"), operator(1));
    assert_eq!(parse("(1))"), operator(3));
    assert_eq!(parse("1 = 2"), operator(1));
    assert_eq!(parse("2 (3)"), operator(1));
}

#[test]
fn unknown_operators() {
    let unknown = |identifier: &str, arity, position| {
        Err(ParseError::UnknownOperator { identifier: identifier.to_string(), arity, position })
    };
    assert_eq!(parse("* 3"), unknown("*", 1, 0));
    assert_eq!(parse("1 + + 2"), unknown("+", 1, 2));
    assert_eq!(parse("min"), unknown("min", 1, 0));
    assert_eq!(parse("x(1)"), unknown("x", 1, 0));
    assert_eq!(parse("f(1, 2)"), unknown("f", 2, 0));
    assert_eq!(parse("*(3)"), unknown("*", 1, 0));
    assert_eq!(parse("1 ! 2"), unknown("!", 2, 1));
    assert_eq!(parse("1 x"), unknown("x", 2, 1));
    assert_eq!(parse("1 sqrt 2"), unknown("sqrt", 2, 1));
    assert_eq!(parse("min(1"), unknown("min", 1, 0));
}

#[test]
fn tokenization_errors() {
    assert_eq!(parse("1.2.3"), Err(ParseError::Tokenization { literal: "1.2.3".to_string() }));
    assert_eq!(parse("x + ."), Err(ParseError::Tokenization { literal: ".".to_string() }));
    assert_eq!(parse(") 1..2"), Err(ParseError::Tokenization { literal: "1..2".to_string() }));
}

#[test]
fn nesting_is_bounded() {
    let nested = |levels: usize| format!("{}1{}", "(".repeat(levels), ")".repeat(levels));
    assert!(parse(&nested(MAX_DEPTH)).is_ok());
    assert_eq!(parse(&nested(MAX_DEPTH + 1)), Err(ParseError::TooDeep { position: MAX_DEPTH }));
    let powers = |operators: usize| format!("1{}", " ^ 1".repeat(operators));
    assert!(parse(&powers(MAX_DEPTH)).is_ok());
    assert_eq!(parse(&powers(MAX_DEPTH + 1)), Err(ParseError::TooDeep { position: 2 * MAX_DEPTH + 1 }));
    let negations = |operators: usize| format!("{}1", "-".repeat(operators));
    assert!(parse(&negations(MAX_DEPTH)).is_ok());
    assert_eq!(parse(&negations(MAX_DEPTH + 1)), Err(ParseError::TooDeep { position: MAX_DEPTH }));
    let sums = |operators: usize| format!("1{}", " + 1".repeat(operators));
    assert!(parse(&sums(MAX_DEPTH)).is_ok());
    assert_eq!(parse(&sums(MAX_DEPTH + 1)), Err(ParseError::TooDeep { position: 2 * MAX_DEPTH + 1 }));
    let mixed = format!("{}x{}", "-(".repeat(MAX_DEPTH / 2), ")".repeat(MAX_DEPTH / 2));
    assert!(parse(&mixed).is_ok());
    assert!(parse(&sums(MAX_DEPTH)).unwrap().to_string().starts_with("+(+(+("));
}

#[test]
fn rendering() {
    assert_eq!(number("1.50").to_string(), "1.50");
    assert_eq!(variable("x_1").to_string(), "x_1");
    assert_eq!(Expression::Literal { as_bool: true, value: "0.0".to_string() }.to_string(), "false");
    assert_eq!(Expression::Literal { as_bool: true, value: "0".to_string() }.to_string(), "false");
    assert_eq!(Expression::Literal { as_bool: true, value: "0.01".to_string() }.to_string(), "true");
    assert_eq!(Expression::Literal { as_bool: true, value: "3".to_string() }.to_string(), "true");
    assert_eq!(call("sqrt", vec![variable("x")]).to_string(), "sqrt(x)");
    assert_eq!(call("+", vec![number("1"), call("max", vec![variable("a"), variable("b")])]).to_string(), "+(1, max(a, b))");
    assert_eq!(Expression::FunctionCall { function: function::get("-", 1).unwrap(), args: vec![] }.to_string(), "-()");
}

#[test]
fn expression_precedence() {
    assert_eq!(number("1").precedence(), Precedence::L1);
    assert_eq!(variable("x").precedence(), Precedence::L1);
    assert_eq!(parse("1 + 2").unwrap().precedence(), Precedence::L3);
    assert_eq!(parse("1 || 2").unwrap().precedence(), Precedence::L6);
    assert_eq!(parse("min(1, 2)").unwrap().precedence(), Precedence::L1);
}

#[test]
fn messages() {
    let message = |input: &str| parse(input).unwrap_err().message();
    assert_eq!(message(""), "expected an expression at token 0");
    assert_eq!(message("(1 + 2"), "expected ')' at token 4");
    assert_eq!(message("1 2"), "expected an operator or the end of the line at token 1");
    assert_eq!(message("min(1)"), "no function 'min' takes 1 argument(s), at token 0");
    assert_eq!(message("1 + 2 x"), "no function 'x' takes 2 argument(s), at token 3");
    assert_eq!(message("1.2.3"), "malformed number '1.2.3'");
    assert_eq!(
        message(&"(".repeat(MAX_DEPTH + 1)),
        format!("expression nested too deeply at token {}", MAX_DEPTH)
    );
    assert_eq!(message(&"(1)*".repeat(30)), "expected an expression at token 120");
    assert_eq!(message(&format!("{}+", "(1)*".repeat(30))), "no function '+' takes 1 argument(s), at token 120");
    assert_eq!(Expected::Expression.describe(), "an expression");
    assert_eq!(Expected::ClosingParenthesis.describe(), "')'");
    assert_eq!(Expected::Operator.describe(), "an operator or the end of the line");
}

#[test]
fn decimal_numbers_in_messages() {
    for n in [0usize, 1, 9, 10, 11, 99, 100, 101, 12345, 1_000_000, usize::MAX] {
        let mut text = String::from("n=");
        calc_parser::text::push_decimal(&mut text, n);
        assert_eq!(text, format!("n={}", n));
    }
}

#[test]
fn parts_of_the_parser() {
    use_parts();
}

fn use_parts() {
    let units = function::identifiers();
    let mut stream = calc_parser::parser::tokenizer::TokenStream::new("- x ^ 2 , 3 + 4", &units).unwrap();
    assert_eq!(calc_parser::parser::peek_function(&stream, 1), function::get("-", 1));
    assert_eq!(calc_parser::parser::peek_function(&stream, 2), function::get("-", 2));
    assert!(!calc_parser::parser::peek_symbol(&stream, ','));
    let first = calc_parser::parser::parse_primary(&mut stream, 4).unwrap();
    assert_eq!(first.to_string(), "-(x)");
    assert_eq!(stream.position(), 2);
    let whole = calc_parser::parser::parse_precedence(first, 0, &mut stream, 4).unwrap();
    assert_eq!(whole.to_string(), "^(-(x), 2)");
    assert!(calc_parser::parser::peek_symbol(&stream, ','));
    assert_eq!(calc_parser::parser::peek_function(&stream, 2), None);
    stream.discard();
    let lhs = calc_parser::parser::parse_primary(&mut stream, 4).unwrap();
    let kept = calc_parser::parser::parse_precedence(lhs, 4, &mut stream, 4).unwrap();
    assert_eq!(kept.to_string(), "3");
    assert_eq!(stream.position(), 6);
    let rest = calc_parser::parser::parse_precedence(kept, 3, &mut stream, 4).unwrap();
    assert_eq!(rest.to_string(), "+(3, 4)");

    let mut stream = calc_parser::parser::tokenizer::TokenStream::new("1, 2 * 3, x) y", &units).unwrap();
    let list = calc_parser::parser::parse_arguments(&mut stream, 4).unwrap();
    assert_eq!(list.len(), 3);
    assert_eq!(list[1].to_string(), "*(2, 3)");
    assert_eq!(stream.position(), 7);
    stream.discard();
    assert_eq!(calc_parser::parser::parse_tokens(&mut stream), Ok(variable("y")));

    let mut stream = calc_parser::parser::tokenizer::TokenStream::new("1 + 2", &units).unwrap();
    assert_eq!(
        calc_parser::parser::parse_expression(&mut stream, 0),
        Err(ParseError::TooDeep { position: 1 })
    );
    let mut stream = calc_parser::parser::tokenizer::TokenStream::new("1 + 2", &units).unwrap();
    assert_eq!(calc_parser::parser::parse_operand(&mut stream, 4, 1).unwrap().to_string(), "1");
}
