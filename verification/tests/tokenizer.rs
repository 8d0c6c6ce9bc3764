use calc_parser::ast::function;
use calc_parser::parser::tokenizer::{Category, Token, TokenStream};
use calc_parser::parser::ParseError;

fn tokens_of<'a>(input: &'a str, units: &[&str]) -> Vec<Token<'a>> {
    TokenStream::new(input, units).unwrap().tokens().clone()
}

#[test]
fn tokenize() {
    let data = [
        (
            "123abc()",
            vec![Token::Constant("123"), Token::String("abc"), Token::Symbol('('), Token::Symbol(')')],
        ),
        ("      ", vec![]),
        ("+===", vec![Token::String("+"), Token::String("=="), Token::Symbol('=')]),
        ("==+", vec![Token::String("=="), Token::String("+")]),
    ];
    for (input, output) in data {
        assert_eq!(tokens_of(input, &function::identifiers()), output);
    }
    let first = tokens_of("123abc()", &function::identifiers())[0];
    assert_eq!(first.constant().unwrap().parse::<f64>().unwrap(), 123.0);
}

#[test]
fn tokenize_with_compound_assignment_units() {
    assert_eq!(tokens_of("+===", &["+=", "==", "+"]), vec![Token::String("+="), Token::String("==")]);
}

#[test]
fn categorize() {
    let data = [
        (
            "123abc+-*",
            vec![(Category::Digit, "123"), (Category::Alpha, "abc"), (Category::Symbol, "+-*")],
        ),
        ("1.3.4.5.6", vec![(Category::Digit, "1.3.4.5.6")]),
        (
            "1 +  2",
            vec![
                (Category::Digit, "1"),
                (Category::Whitespace, " "),
                (Category::Symbol, "+"),
                (Category::Whitespace, "  "),
                (Category::Digit, "2"),
            ],
        ),
    ];

    for (input, output) in data {
        assert_eq!(calc_parser::parser::tokenizer::categorize(input), output);
    }
}

#[test]
fn categorize_empty_text_has_no_segment() {
    assert!(calc_parser::parser::tokenizer::categorize("").is_empty());
}

#[test]
fn categorize_segments_join_to_the_input() {
    for input in ["", "a", "12 + foo_bar*(3.5)", "π≠3.14  \t né", "..1..", "a\u{a0}b"] {
        let joined: String = calc_parser::parser::tokenizer::categorize(input).iter().map(|s| s.1).collect();
        assert_eq!(joined, input);
    }
}

#[test]
fn categories_of_single_characters() {
    assert_eq!(Category::from('a'), Category::Alpha);
    assert_eq!(Category::from('Z'), Category::Alpha);
    assert_eq!(Category::from('_'), Category::Alpha);
    assert_eq!(Category::from('é'), Category::Alpha);
    assert_eq!(Category::from('0'), Category::Digit);
    assert_eq!(Category::from('9'), Category::Digit);
    assert_eq!(Category::from('.'), Category::Digit);
    assert_eq!(Category::from(' '), Category::Whitespace);
    assert_eq!(Category::from('\t'), Category::Whitespace);
    assert_eq!(Category::from('\r'), Category::Whitespace);
    assert_eq!(Category::from('\u{a0}'), Category::Whitespace);
    assert_eq!(Category::from('+'), Category::Symbol);
    assert_eq!(Category::from('('), Category::Symbol);
    assert_eq!(Category::from('\u{0}'), Category::Symbol);
    assert_eq!(Category::from('½'), Category::Symbol);
    assert_eq!(Category::from('€'), Category::Symbol);
}

#[test]
fn classify_ignores_the_flags_within_ascii() {
    assert_eq!(Category::classify('+', true, true), Category::Symbol);
    assert_eq!(Category::classify('7', true, false), Category::Digit);
    assert_eq!(Category::classify('é', true, false), Category::Alpha);
    assert_eq!(Category::classify('é', false, true), Category::Whitespace);
    assert_eq!(Category::classify('é', false, false), Category::Symbol);
    assert_eq!(Category::classify('é', true, true), Category::Alpha);
}

#[test]
fn whitespace_leaves_no_token() {
    assert_eq!(
        tokens_of("1 +  2", &function::identifiers()),
        vec![Token::Constant("1"), Token::String("+"), Token::Constant("2")]
    );
}

#[test]
fn longest_operator_wins() {
    let units = function::identifiers();
    assert_eq!(tokens_of(">=-", &units), vec![Token::String(">="), Token::String("-")]);
    assert_eq!(tokens_of("<==", &units), vec![Token::String("<="), Token::Symbol('=')]);
    assert_eq!(tokens_of("^^^", &units), vec![Token::String("^^"), Token::String("^")]);
    assert_eq!(tokens_of("&|", &units), vec![Token::Symbol('&'), Token::Symbol('|')]);
    assert_eq!(tokens_of("(,)", &units), vec![Token::Symbol('('), Token::Symbol(','), Token::Symbol(')')]);
    assert_eq!(tokens_of("→+", &units), vec![Token::Symbol('→'), Token::String("+")]);
}

#[test]
fn unit_list_order_and_repetition_play_no_part() {
    let a = tokens_of("<=>==", &["<", "<=", "==", ">"]);
    let b = tokens_of("<=>==", &["==", ">", "<=", "<", "<=", ">"]);
    assert_eq!(a, b);
    assert_eq!(a, vec![Token::String("<="), Token::String(">"), Token::String("==")]);
}

#[test]
fn malformed_numbers_are_rejected() {
    for (input, literal) in [("1.2.3", "1.2.3"), ("a + .", "."), ("1 + 2..5 + 3.4.5", "2..5"), ("..", "..")] {
        match TokenStream::new(input, &function::identifiers()) {
            Err(ParseError::Tokenization { literal: found }) => assert_eq!(found, literal),
            other => panic!("{:?}", other.map(|s| s.tokens().clone())),
        }
    }
}

#[test]
fn numbers_with_one_point() {
    let units = function::identifiers();
    assert_eq!(tokens_of("1.", &units), vec![Token::Constant("1.")]);
    assert_eq!(tokens_of(".5", &units), vec![Token::Constant(".5")]);
    assert_eq!(tokens_of("007.250", &units), vec![Token::Constant("007.250")]);
    for text in ["1.", ".5", "007.250", "12345678901234567890123"] {
        assert!(calc_parser::text::is_number(text));
        assert!(text.parse::<f64>().is_ok());
    }
    for text in ["", ".", "1.2.3", "1a", "-1", "1e5"] {
        assert!(!calc_parser::text::is_number(text));
    }
}

#[test]
fn cursor_reads_peeks_and_discards() {
    let mut stream = TokenStream::new("a+1", &function::identifiers()).unwrap();
    assert_eq!(stream.position(), 0);
    assert_eq!(stream.peek(), Some(&Token::String("a")));
    assert_eq!(stream.peek(), Some(&Token::String("a")));
    assert_eq!(stream.read(), Some(&Token::String("a")));
    assert_eq!(stream.position(), 1);
    stream.discard();
    assert_eq!(stream.position(), 2);
    assert_eq!(stream.read(), Some(&Token::Constant("1")));
    assert_eq!(stream.peek(), None);
    assert_eq!(stream.read(), None);
    stream.discard();
    assert_eq!(stream.position(), 3);
    assert_eq!(stream.tokens().len(), 3);
}

#[test]
fn token_accessors() {
    assert_eq!(Token::Symbol('(').symbol(), Some('('));
    assert_eq!(Token::Symbol('(').constant(), None);
    assert_eq!(Token::Symbol('(').string(), None);
    assert_eq!(Token::Constant("1.5").constant(), Some("1.5"));
    assert_eq!(Token::Constant("1.5").symbol(), None);
    assert_eq!(Token::Constant("1.5").string(), None);
    assert_eq!(Token::String("abc").string(), Some("abc"));
    assert_eq!(Token::String("abc").symbol(), None);
    assert_eq!(Token::String("abc").constant(), None);
}

#[test]
fn long_lines() {
    let line = format!("1{}", " + x_y".repeat(100_000));
    let stream = TokenStream::new(&line, &function::identifiers()).unwrap();
    assert_eq!(stream.tokens().len(), 200_001);
    assert_eq!(stream.tokens()[200_000], Token::String("x_y"));
    let segments = calc_parser::parser::tokenizer::categorize(&line);
    assert_eq!(segments.len(), 400_001);
    let wide = "é".repeat(50_000) + &"→".repeat(10) + &"\u{a0}".repeat(50_000);
    let segments = calc_parser::parser::tokenizer::categorize(&wide);
    assert_eq!(segments.len(), 3);
    assert_eq!(segments[1], (Category::Symbol, "→→→→→→→→→→"));
}

#[test]
fn first_runs_and_splits() {
    use_first_run();
}

fn use_first_run() {
    assert_eq!(calc_parser::parser::tokenizer::first_run("abc+1"), (Category::Alpha, 3));
    assert_eq!(calc_parser::parser::tokenizer::first_run("  x"), (Category::Whitespace, 2));
    assert_eq!(calc_parser::parser::tokenizer::first_run("9"), (Category::Digit, 1));
    assert_eq!(calc_parser::text::split_chars("héllo", 2), ("hé", "llo"));
    assert_eq!(calc_parser::text::split_chars("héllo", 0), ("", "héllo"));
    assert_eq!(calc_parser::text::split_chars("héllo", 5), ("héllo", ""));
    assert_eq!(calc_parser::text::split_chars("→→", 1), ("→", "→"));
    let mut tokens = vec![Token::Symbol('#')];
    calc_parser::parser::tokenizer::push_symbols(&mut tokens, "<=(", &["<", "<="]);
    assert_eq!(tokens, vec![Token::Symbol('#'), Token::String("<="), Token::Symbol('(')]);
    assert!(calc_parser::ast::has_nonzero_digit("0.010"));
    assert!(!calc_parser::ast::has_nonzero_digit("000.000"));
}
