//! The parser: from a line of text to a syntax tree.
pub mod grammar;
pub mod grammar_laws;
pub mod round_trip;
pub mod token_laws;
pub mod tokenizer;

use crate::ast::function::{get, identifiers, is_known, Associativity, Function};
use crate::ast::{lemma_trees_of, trees_of, Expression, Tree};
use crate::parser::grammar::{
    arguments, climb, expression, function_at, lemma_operand_well_formed, operand, parse_text, prepended, primary,
    remaining, sentence, shifted, symbol_at, units, Parsed, ParsedList,
};
use crate::parser::tokenizer::{Token, TokenStream};
use crate::text::{decimal, push_decimal, texts};
use vstd::string::StringExecFns;
use vstd::prelude::*;

verus! {

/// What the parser was looking for where it stopped.
#[derive(Clone, Copy, Debug, PartialEq, Eq, Structural)]
pub enum Expected {
    /// The start of an expression: a constant, a name, a prefix operator or
    /// an opening parenthesis.
    Expression,
    /// The `)` that closes a parenthesis or an argument list.
    ClosingParenthesis,
    /// A binary operator, or the end of the line.
    Operator,
}

/// Why a line could not be parsed. Positions count tokens from 0.
#[derive(Debug, PartialEq, Eq)]
pub enum ParseError {
    /// A run of digits and points that is no decimal number.
    Tokenization { literal: String },
    /// A token is missing or out of place.
    Syntax { expected: Expected, position: usize },
    /// A name stands where a function of `arity` arguments is needed, and
    /// the table has no function of that name and arity.
    UnknownOperator { identifier: String, arity: usize, position: usize },
    /// The expression is nested more deeply than [`MAX_DEPTH`] allows.
    TooDeep { position: usize },
}

/// The mathematical content of a [`ParseError`].
pub ghost enum Failure {
    Tokenization { literal: Seq<char> },
    Syntax { expected: Expected, position: nat },
    UnknownOperator { identifier: Seq<char>, arity: nat, position: nat },
    TooDeep { position: nat },
}

impl View for ParseError {
    type V = Failure;

    open spec fn view(&self) -> Failure {
        match self {
            ParseError::Tokenization { literal } => Failure::Tokenization { literal: literal@ },
            ParseError::Syntax { expected, position } => Failure::Syntax {
                expected: *expected,
                position: *position as nat,
            },
            ParseError::UnknownOperator { identifier, arity, position } => Failure::UnknownOperator {
                identifier: identifier@,
                arity: *arity as nat,
                position: *position as nat,
            },
            ParseError::TooDeep { position } => Failure::TooDeep { position: *position as nat },
        }
    }
}

impl Expected {
    /// What was looked for, in words.
    pub open spec fn spec_describe(self) -> Seq<char> {
        match self {
            Expected::Expression => "an expression"@,
            Expected::ClosingParenthesis => "')'"@,
            Expected::Operator => "an operator or the end of the line"@,
        }
    }

    /// What was looked for, in words.
    pub fn describe(self) -> (words: &'static str)
        ensures
            words@ == self.spec_describe(),
    {
        match self {
            Expected::Expression => "an expression",
            Expected::ClosingParenthesis => "')'",
            Expected::Operator => "an operator or the end of the line",
        }
    }
}

impl Failure {
    /// The failure in a sentence: what was wrong or missing, and at which
    /// token parsing stopped.
    pub open spec fn message(self) -> Seq<char> {
        match self {
            Failure::Tokenization { literal } => "malformed number '"@ + literal + "'"@,
            Failure::Syntax { expected, position } => "expected "@ + expected.spec_describe() + " at token "@
                + decimal(position),
            Failure::UnknownOperator { identifier, arity, position } => "no function '"@ + identifier
                + "' takes "@ + decimal(arity) + " argument(s), at token "@ + decimal(position),
            Failure::TooDeep { position } => "expression nested too deeply at token "@ + decimal(position),
        }
    }
}

impl ParseError {
    /// The error in a sentence: what was wrong or missing, and at which
    /// token parsing stopped.
    pub fn message(&self) -> (text: String)
        ensures
            text@ == self@.message(),
    {
        match self {
            ParseError::Tokenization { literal } => {
                let mut text = "malformed number '".to_owned();
                text.append(literal.as_str());
                text.append("'");
                text
            },
            ParseError::Syntax { expected, position } => {
                let mut text = "expected ".to_owned();
                text.append(expected.describe());
                text.append(" at token ");
                push_decimal(&mut text, *position);
                text
            },
            ParseError::UnknownOperator { identifier, arity, position } => {
                let mut text = "no function '".to_owned();
                text.append(identifier.as_str());
                text.append("' takes ");
                push_decimal(&mut text, *arity);
                text.append(" argument(s), at token ");
                push_decimal(&mut text, *position);
                text
            },
            ParseError::TooDeep { position } => {
                let mut text = "expression nested too deeply at token ".to_owned();
                push_decimal(&mut text, *position);
                text
            },
        }
    }
}

/// How deeply an expression may be nested. Each pair of parentheses, each
/// argument list, each prefix operator and each binary operator of a chain
/// is one level, so that neither the parser nor the tree it builds grows
/// without bound.
pub const MAX_DEPTH: usize = 256;

/// Whether `result` is what `parsed` asks for: the same failure, or a tree
/// with the same view, read from as many tokens as lie between `before` and
/// `after`.
pub open spec fn agrees(result: Result<Expression, ParseError>, parsed: Parsed, before: nat, after: nat) -> bool {
    match parsed {
        Ok((tree, used)) => result matches Ok(expression) && expression@ == tree && after == before + used,
        Err(failure) => result matches Err(error) && error@ == failure,
    }
}

/// [`agrees`], for a list of expressions.
pub open spec fn list_agrees(
    result: Result<Vec<Expression>, ParseError>,
    parsed: ParsedList,
    before: nat,
    after: nat,
) -> bool {
    match parsed {
        Ok((trees, used)) => result matches Ok(expressions) && trees_of(expressions@) == trees && after == before
            + used,
        Err(failure) => result matches Err(error) && error@ == failure,
    }
}

/// The function of `arity` arguments that the next token names, if it is a
/// `String` and the table has such a function. The token stays in the
/// stream.
pub fn peek_function(tokens: &TokenStream, arity: u8) -> (found: Option<&'static Function>)
    ensures
        match function_at(tokens@.tokens, tokens@.position, arity as int) {
            Some(function) => found == Some(&function),
            None => found.is_none(),
        },
{
    match tokens.peek() {
        Some(token) => match token.string() {
            Some(name) => get(name, arity),
            None => None,
        },
        None => None,
    }
}

/// Whether the next token is the symbol `c`. The token stays in the stream.
pub fn peek_symbol(tokens: &TokenStream, c: char) -> (found: bool)
    ensures
        found == symbol_at(tokens@.tokens, tokens@.position, c),
{
    match tokens.peek() {
        Some(token) => match token.symbol() {
            Some(symbol) => symbol == c,
            None => false,
        },
        None => false,
    }
}

/// Reads one operand without operators around it.
pub fn parse_primary<'a>(tokens: &mut TokenStream<'a>, depth: usize) -> (parsed: Result<Expression, ParseError>)
    ensures
        final(tokens)@.tokens == old(tokens)@.tokens,
        agrees(
            parsed,
            primary(old(tokens)@.tokens, old(tokens)@.position, depth as nat),
            old(tokens)@.position,
            final(tokens)@.position,
        ),
    decreases remaining(old(tokens)@.tokens, old(tokens)@.position), 0nat,
{
    let start = tokens.position();
    let token = match tokens.read() {
        Some(token) => *token,
        None => {
            return Err(ParseError::Syntax { expected: Expected::Expression, position: start });
        },
    };
    match token {
        Token::Constant(text) => Ok(Expression::Literal { as_bool: false, value: text.to_owned() }),
        Token::Symbol(c) => {
            if c != '(' {
                return Err(ParseError::Syntax { expected: Expected::Expression, position: start });
            }
            if depth == 0 {
                return Err(ParseError::TooDeep { position: start });
            }
            match parse_expression(tokens, depth - 1) {
                Err(error) => Err(error),
                Ok(inner) => {
                    let at = tokens.position();
                    if peek_symbol(tokens, ')') {
                        tokens.discard();
                        Ok(inner)
                    } else {
                        Err(ParseError::Syntax { expected: Expected::ClosingParenthesis, position: at })
                    }
                },
            }
        },
        Token::String(name) => {
            if peek_symbol(tokens, '(') {
                if depth == 0 {
                    return Err(ParseError::TooDeep { position: start });
                }
                tokens.discard();
                match parse_arguments(tokens, depth - 1) {
                    Err(error) => Err(error),
                    Ok(args) => {
                        let count = args.len();
                        let found = if count <= 255 {
                            get(name, count as u8)
                        } else {
                            None
                        };
                        proof {
                            lemma_trees_of(args@);
                        }
                        match found {
                            None => Err(
                                ParseError::UnknownOperator {
                                    identifier: name.to_owned(),
                                    arity: count,
                                    position: start,
                                },
                            ),
                            Some(function) => {
                                let at = tokens.position();
                                if peek_symbol(tokens, ')') {
                                    tokens.discard();
                                    Ok(Expression::FunctionCall { function, args })
                                } else {
                                    Err(
                                        ParseError::Syntax {
                                            expected: Expected::ClosingParenthesis,
                                            position: at,
                                        },
                                    )
                                }
                            },
                        }
                    },
                }
            } else {
                match get(name, 1) {
                    Some(function) => {
                        if depth == 0 {
                            return Err(ParseError::TooDeep { position: start });
                        }
                        match parse_primary(tokens, depth - 1) {
                            Err(error) => Err(error),
                            Ok(operand) => {
                                let ghost tree = operand@;
                                let args = vec![operand];
                                proof {
                                    lemma_trees_of(args@);
                                    assert(trees_of(args@) =~= seq![tree]);
                                }
                                Ok(Expression::FunctionCall { function, args })
                            },
                        }
                    },
                    None => {
                        if is_known(name) {
                            Err(
                                ParseError::UnknownOperator {
                                    identifier: name.to_owned(),
                                    arity: 1,
                                    position: start,
                                },
                            )
                        } else {
                            Ok(Expression::Variable { identifier: name.to_owned() })
                        }
                    },
                }
            }
        },
    }
}

/// Reads the operators that follow the operand `lhs`, as far as they bind
/// at least as tightly as `min`, each with its right-hand operand.
pub fn parse_precedence<'a>(lhs: Expression, min: u8, tokens: &mut TokenStream<'a>, depth: usize) -> (parsed:
    Result<Expression, ParseError>)
    ensures
        final(tokens)@.tokens == old(tokens)@.tokens,
        agrees(
            parsed,
            climb(old(tokens)@.tokens, lhs@, min as nat, old(tokens)@.position, depth as nat),
            old(tokens)@.position,
            final(tokens)@.position,
        ),
    decreases remaining(old(tokens)@.tokens, old(tokens)@.position), 0nat,
{
    let ghost all = tokens@.tokens;
    let ghost begin = tokens@.position;
    let ghost goal = climb(all, lhs@, min as nat, begin, depth as nat);
    let ghost first = lhs@;
    let mut left = lhs;
    let mut budget = depth;
    loop
        invariant
            goal == climb(all, first, min as nat, begin, depth as nat),
            budget <= depth,
            first == lhs@,
            all == old(tokens)@.tokens,
            begin == old(tokens)@.position,
            tokens@.tokens == all,
            begin <= tokens@.position,
            remaining(all, tokens@.position) <= remaining(all, begin),
            goal == shifted(
                climb(all, left@, min as nat, tokens@.position, budget as nat),
                (tokens@.position - begin) as nat,
            ),
        decreases remaining(all, tokens@.position),
    {
        let at = tokens.position();
        let function = match peek_function(tokens, 2) {
            Some(function) => function,
            None => {
                return Ok(left);
            },
        };
        if function.precedence.tightness() < min {
            return Ok(left);
        }
        if budget == 0 {
            return Err(ParseError::TooDeep { position: at });
        }
        tokens.discard();
        let threshold = match function.associativity {
            Associativity::Left => function.precedence.tightness() + 1,
            Associativity::Right => function.precedence.tightness(),
        };
        match parse_operand(tokens, threshold, budget - 1) {
            Err(error) => {
                return Err(error);
            },
            Ok(rhs) => {
                let ghost lower = left@;
                let ghost upper = rhs@;
                let args = vec![left, rhs];
                proof {
                    lemma_trees_of(args@);
                    assert(trees_of(args@) =~= seq![lower, upper]);
                }
                left = Expression::FunctionCall { function, args };
                budget = budget - 1;
            },
        }
    }
}

/// Reads a primary and the operators that follow it, as far as they bind at
/// least as tightly as `min`.
pub fn parse_operand<'a>(tokens: &mut TokenStream<'a>, min: u8, depth: usize) -> (parsed: Result<
    Expression,
    ParseError,
>)
    ensures
        final(tokens)@.tokens == old(tokens)@.tokens,
        agrees(
            parsed,
            operand(old(tokens)@.tokens, old(tokens)@.position, min as nat, depth as nat),
            old(tokens)@.position,
            final(tokens)@.position,
        ),
    decreases remaining(old(tokens)@.tokens, old(tokens)@.position), 1nat,
{
    match parse_primary(tokens, depth) {
        Err(error) => Err(error),
        Ok(lhs) => parse_precedence(lhs, min, tokens, depth),
    }
}

/// Reads a whole expression: a primary with every operator that follows it.
pub fn parse_expression<'a>(tokens: &mut TokenStream<'a>, depth: usize) -> (parsed: Result<
    Expression,
    ParseError,
>)
    ensures
        final(tokens)@.tokens == old(tokens)@.tokens,
        agrees(
            parsed,
            expression(old(tokens)@.tokens, old(tokens)@.position, depth as nat),
            old(tokens)@.position,
            final(tokens)@.position,
        ),
    decreases remaining(old(tokens)@.tokens, old(tokens)@.position), 2nat,
{
    parse_operand(tokens, 0, depth)
}

/// Reads one expression or more, with a comma between two of them.
pub fn parse_arguments<'a>(tokens: &mut TokenStream<'a>, depth: usize) -> (parsed: Result<
    Vec<Expression>,
    ParseError,
>)
    ensures
        final(tokens)@.tokens == old(tokens)@.tokens,
        list_agrees(
            parsed,
            arguments(old(tokens)@.tokens, old(tokens)@.position, depth as nat),
            old(tokens)@.position,
            final(tokens)@.position,
        ),
    decreases remaining(old(tokens)@.tokens, old(tokens)@.position), 3nat,
{
    let ghost all = tokens@.tokens;
    let ghost begin = tokens@.position;
    let ghost goal = arguments(all, begin, depth as nat);
    let mut args: Vec<Expression> = Vec::new();
    proof {
        lemma_trees_of(args@);
        assert(trees_of(args@) + arguments(all, begin, depth as nat)->Ok_0.0 =~= arguments(
            all,
            begin,
            depth as nat,
        )->Ok_0.0);
    }
    loop
        invariant
            all == old(tokens)@.tokens,
            begin == old(tokens)@.position,
            tokens@.tokens == all,
            begin <= tokens@.position,
            remaining(all, tokens@.position) <= remaining(all, begin),
            args@.len() > 0 ==> remaining(all, tokens@.position) < remaining(all, begin),
            goal == arguments(all, begin, depth as nat),
            goal == prepended(
                trees_of(args@),
                (tokens@.position - begin) as nat,
                arguments(all, tokens@.position, depth as nat),
            ),
        decreases remaining(all, tokens@.position),
    {
        let ghost here = tokens@.position;
        let ghost before = trees_of(args@);
        let ghost tree;
        match parse_expression(tokens, depth) {
            Err(error) => {
                return Err(error);
            },
            Ok(argument) => {
                let ghost previous = args@;
                proof {
                    tree = argument@;
                }
                args.push(argument);
                proof {
                    lemma_trees_of(args@);
                    lemma_trees_of(previous);
                    assert(trees_of(args@) =~= before + seq![tree]);
                }
            },
        }
        let ghost used = (tokens@.position - here) as nat;
        assert(expression(all, here, depth as nat) == Ok::<(Tree, nat), Failure>((tree, used)));
        if peek_symbol(tokens, ',') {
            tokens.discard();
            proof {
                let there = tokens@.position;
                assert(there == here + used + 1);
                match arguments(all, there, depth as nat) {
                    Ok((rest, more)) => {
                        assert(arguments(all, here, depth as nat) == Ok::<(Seq<Tree>, nat), Failure>(
                            (seq![tree] + rest, used + 1 + more),
                        ));
                        assert(before + (seq![tree] + rest) =~= (before + seq![tree]) + rest);
                    },
                    Err(failure) => {
                        assert(arguments(all, here, depth as nat) == Err::<(Seq<Tree>, nat), Failure>(failure));
                    },
                }
            }
        } else {
            return Ok(args);
        }
    }
}

/// Reads what is left of a line of tokens: one expression that uses them
/// all.
pub fn parse_tokens<'a>(tokens: &mut TokenStream<'a>) -> (parsed: Result<Expression, ParseError>)
    ensures
        final(tokens)@.tokens == old(tokens)@.tokens,
        match sentence(old(tokens)@.tokens, old(tokens)@.position) {
            Ok(tree) => parsed matches Ok(expression) && expression@ == tree && tree.well_formed(),
            Err(failure) => parsed matches Err(error) && error@ == failure,
        },
{
    let ghost all = tokens@.tokens;
    let ghost begin = tokens@.position;
    match parse_expression(tokens, MAX_DEPTH) {
        Err(error) => Err(error),
        Ok(expression) => {
            let at = tokens.position();
            proof {
                lemma_operand_well_formed(all, begin, 0, MAX_DEPTH as nat);
            }
            match tokens.peek() {
                None => Ok(expression),
                Some(token) => match token.string() {
                    Some(name) => Err(
                        ParseError::UnknownOperator { identifier: name.to_owned(), arity: 2, position: at },
                    ),
                    None => Err(ParseError::Syntax { expected: Expected::Operator, position: at }),
                },
            }
        },
    }
}

/// Parses one line of text into a syntax tree, by precedence climbing.
///
/// The result is a function of the text alone: the tree that the grammar
/// gives the line, or the reason why it gives none.
pub fn parse(string: &str) -> (parsed: Result<Expression, ParseError>)
    ensures
        match parse_text(string@) {
            Ok(tree) => parsed matches Ok(expression) && expression@ == tree && tree.well_formed(),
            Err(failure) => parsed matches Err(error) && error@ == failure,
        },
{
    let names = identifiers();
    assert(texts(names@) =~= units());
    match TokenStream::new(string, names.as_slice()) {
        Err(error) => Err(error),
        Ok(tokens) => {
            let mut tokens = tokens;
            parse_tokens(&mut tokens)
        },
    }
}

} // verus!
