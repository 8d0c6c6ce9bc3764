//! The grammar, as functions from a sequence of tokens to a tree.
//!
//! ```text
//! expression := primary (operator operand)*
//! primary    := '(' expression ')'
//!             | name '(' expression (',' expression)* ')'
//!             | prefix-operator primary
//!             | name
//!             | constant
//! ```
//!
//! Each function reads the tokens from a position on and gives, besides its
//! tree, the number of tokens that it used. `depth` is the number of levels
//! of nesting still allowed.
use crate::ast::function::{is_identifier, lookup, Associativity, Function};
use crate::parser::tokenizer::{constants_are_numbers, lemma_lex_runs_constants, lex, runs};
use crate::parser::MAX_DEPTH;
use crate::ast::Tree;
use crate::parser::tokenizer::TokenView;
use crate::parser::{Expected, Failure};
use vstd::prelude::*;

verus! {

/// A tree together with the number of tokens that it was read from.
pub type Parsed = Result<(Tree, nat), Failure>;

/// A list of trees together with the number of tokens that it was read from.
pub type ParsedList = Result<(Seq<Tree>, nat), Failure>;

/// The number of tokens from `position` to the end.
pub open spec fn remaining(tokens: Seq<TokenView>, position: nat) -> nat {
    if position < tokens.len() {
        (tokens.len() - position) as nat
    } else {
        0
    }
}

/// Whether the token at `position` is the symbol `c`.
pub open spec fn symbol_at(tokens: Seq<TokenView>, position: nat, c: char) -> bool {
    position < tokens.len() && tokens[position as int] == TokenView::Symbol(c)
}

/// The function of `arity` arguments that the token at `position` names, if
/// that token is a `String` and the table has such a function.
pub open spec fn function_at(tokens: Seq<TokenView>, position: nat, arity: int) -> Option<Function> {
    if position < tokens.len() {
        match tokens[position as int] {
            TokenView::String(name) => lookup(name, arity),
            _ => None,
        }
    } else {
        None
    }
}

/// The binary function that the token at `position` names, if it binds at
/// least as tightly as `min`.
pub open spec fn operator_at(tokens: Seq<TokenView>, position: nat, min: nat) -> Option<Function> {
    match function_at(tokens, position, 2) {
        Some(function) => if function.precedence.tightness() >= min {
            Some(function)
        } else {
            None
        },
        None => None,
    }
}

/// How tightly an operator must bind to be taken into the right-hand operand
/// of `function`: more tightly than `function` where it groups to the left,
/// as tightly where it groups to the right.
pub open spec fn threshold_after(function: Function) -> nat {
    match function.associativity {
        Associativity::Left => (function.precedence.tightness() + 1) as nat,
        Associativity::Right => function.precedence.tightness() as nat,
    }
}

/// One operand without operators around it, read at `position`.
///
/// - A constant is a literal.
/// - `(` opens an expression, which `)` must close.
/// - A name before `(` is a call: the arguments follow, then the table must
///   have a function of that name with as many arguments, then `)` must
///   close the list.
/// - Any other name that the table has with one argument is a prefix
///   operator, applied to the primary that follows.
/// - A name of the table that takes no single argument is out of place.
/// - Any other name is a variable.
pub open spec fn primary(tokens: Seq<TokenView>, position: nat, depth: nat) -> Parsed
    decreases remaining(tokens, position), 0nat,
{
    if position >= tokens.len() {
        Err(Failure::Syntax { expected: Expected::Expression, position })
    } else {
        match tokens[position as int] {
            TokenView::Constant(text) => Ok((Tree::Literal { as_bool: false, value: text }, 1)),
            TokenView::Symbol(c) => if c != '(' {
                Err(Failure::Syntax { expected: Expected::Expression, position })
            } else if depth == 0 {
                Err(Failure::TooDeep { position })
            } else {
                match expression(tokens, position + 1, (depth - 1) as nat) {
                    Err(failure) => Err(failure),
                    Ok((inner, used)) => if symbol_at(tokens, position + 1 + used, ')') {
                        Ok((inner, used + 2))
                    } else {
                        Err(
                            Failure::Syntax {
                                expected: Expected::ClosingParenthesis,
                                position: position + 1 + used,
                            },
                        )
                    },
                }
            },
            TokenView::String(name) => if symbol_at(tokens, position + 1, '(') {
                if depth == 0 {
                    Err(Failure::TooDeep { position })
                } else {
                    match arguments(tokens, position + 2, (depth - 1) as nat) {
                        Err(failure) => Err(failure),
                        Ok((args, used)) => match lookup(name, args.len() as int) {
                            None => Err(
                                Failure::UnknownOperator { identifier: name, arity: args.len(), position },
                            ),
                            Some(function) => if symbol_at(tokens, position + 2 + used, ')') {
                                Ok((Tree::FunctionCall { function, args }, used + 3))
                            } else {
                                Err(
                                    Failure::Syntax {
                                        expected: Expected::ClosingParenthesis,
                                        position: position + 2 + used,
                                    },
                                )
                            },
                        },
                    }
                }
            } else {
                match lookup(name, 1) {
                    Some(function) => if depth == 0 {
                        Err(Failure::TooDeep { position })
                    } else {
                        match primary(tokens, position + 1, (depth - 1) as nat) {
                            Err(failure) => Err(failure),
                            Ok((operand, used)) => Ok(
                                (Tree::FunctionCall { function, args: seq![operand] }, used + 1),
                            ),
                        }
                    },
                    None => if is_identifier(name) {
                        Err(Failure::UnknownOperator { identifier: name, arity: 1, position })
                    } else {
                        Ok((Tree::Variable { identifier: name }, 1))
                    },
                }
            },
        }
    }
}

/// The operators that follow the operand `lhs`, from `position` on, as far
/// as they bind at least as tightly as `min`.
///
/// Each such operator takes `lhs` as its left argument and, as its right
/// argument, the operand that follows it with the operators that bind more
/// tightly (or as tightly, where it groups to the right). The call so built
/// is the left operand of what comes next, one level deeper.
pub open spec fn climb(tokens: Seq<TokenView>, lhs: Tree, min: nat, position: nat, depth: nat) -> Parsed
    decreases remaining(tokens, position), 0nat,
{
    match operator_at(tokens, position, min) {
        None => Ok((lhs, 0)),
        Some(function) => if depth == 0 {
            Err(Failure::TooDeep { position })
        } else {
            match operand(tokens, position + 1, threshold_after(function), (depth - 1) as nat) {
                Err(failure) => Err(failure),
                Ok((rhs, used)) => match climb(
                    tokens,
                    Tree::FunctionCall { function, args: seq![lhs, rhs] },
                    min,
                    position + 1 + used,
                    (depth - 1) as nat,
                ) {
                    Err(failure) => Err(failure),
                    Ok((tree, more)) => Ok((tree, 1 + used + more)),
                },
            }
        },
    }
}

/// A primary with the operators that follow it, as far as they bind at
/// least as tightly as `min`.
pub open spec fn operand(tokens: Seq<TokenView>, position: nat, min: nat, depth: nat) -> Parsed
    decreases remaining(tokens, position), 1nat,
{
    match primary(tokens, position, depth) {
        Err(failure) => Err(failure),
        Ok((lhs, used)) => match climb(tokens, lhs, min, position + used, depth) {
            Err(failure) => Err(failure),
            Ok((tree, more)) => Ok((tree, used + more)),
        },
    }
}

/// A whole expression: a primary with every operator that follows it.
pub open spec fn expression(tokens: Seq<TokenView>, position: nat, depth: nat) -> Parsed
    decreases remaining(tokens, position), 2nat,
{
    operand(tokens, position, 0, depth)
}

/// One expression or more, with a comma between two of them.
pub open spec fn arguments(tokens: Seq<TokenView>, position: nat, depth: nat) -> ParsedList
    decreases remaining(tokens, position), 3nat,
{
    match expression(tokens, position, depth) {
        Err(failure) => Err(failure),
        Ok((first, used)) => if symbol_at(tokens, position + used, ',') {
            match arguments(tokens, position + used + 1, depth) {
                Err(failure) => Err(failure),
                Ok((rest, more)) => Ok((seq![first] + rest, used + 1 + more)),
            }
        } else {
            Ok((seq![first], used))
        },
    }
}

/// The tree of a whole line of tokens, read from `position` on: one
/// expression that uses them all.
///
/// A token left over is out of place. Where it is a name, it stands where a
/// binary operator is needed and the table has none of that name; any
/// other token is a plain syntax error.
pub open spec fn sentence(tokens: Seq<TokenView>, position: nat) -> Result<Tree, Failure> {
    match expression(tokens, position, MAX_DEPTH as nat) {
        Err(failure) => Err(failure),
        Ok((tree, used)) => if position + used >= tokens.len() {
            Ok(tree)
        } else {
            match tokens[(position + used) as int] {
                TokenView::String(name) => Err(
                    Failure::UnknownOperator { identifier: name, arity: 2, position: position + used },
                ),
                _ => Err(Failure::Syntax { expected: Expected::Operator, position: position + used }),
            }
        },
    }
}

/// The spellings that the tokenizer takes for operators: the identifiers of
/// the table.
pub open spec fn units() -> Set<Seq<char>> {
    Set::new(|text: Seq<char>| is_identifier(text))
}

/// The tree of a line of text, or why it has none.
pub open spec fn parse_text(text: Seq<char>) -> Result<Tree, Failure> {
    match lex(text, units()) {
        Err(literal) => Err(Failure::Tokenization { literal }),
        Ok(tokens) => sentence(tokens, 0),
    }
}

/// `parsed` with `by` more tokens counted as used.
pub open spec fn shifted(parsed: Parsed, by: nat) -> Parsed {
    match parsed {
        Ok((tree, used)) => Ok((tree, used + by)),
        Err(failure) => Err(failure),
    }
}

/// `parsed` with the trees `before` put in front, read from `by` tokens.
pub open spec fn prepended(before: Seq<Tree>, by: nat, parsed: ParsedList) -> ParsedList {
    match parsed {
        Ok((trees, used)) => Ok((before + trees, used + by)),
        Err(failure) => Err(failure),
    }
}

/// What [`primary`] reads is a well-formed tree, made of at least one
/// token and of none beyond the last.
pub proof fn lemma_primary_well_formed(tokens: Seq<TokenView>, position: nat, depth: nat)
    requires
        constants_are_numbers(tokens),
    ensures
        primary(tokens, position, depth) matches Ok((tree, used)) ==> {
            &&& tree.well_formed()
            &&& 1 <= used
            &&& position + used <= tokens.len()
        },
    decreases remaining(tokens, position), 0nat,
{
    if position < tokens.len() {
        match tokens[position as int] {
            TokenView::Constant(text) => {},
            TokenView::Symbol(c) => {
                if c == '(' && depth > 0 {
                    lemma_operand_well_formed(tokens, position + 1, 0, (depth - 1) as nat);
                }
            },
            TokenView::String(name) => {
                if symbol_at(tokens, position + 1, '(') {
                    if depth > 0 {
                        lemma_arguments_well_formed(tokens, position + 2, (depth - 1) as nat);
                    }
                } else if lookup(name, 1) is Some {
                    if depth > 0 {
                        lemma_primary_well_formed(tokens, position + 1, (depth - 1) as nat);
                    }
                }
            },
        }
    }
}

/// What [`climb`] builds on a well-formed operand is a well-formed tree,
/// made of no token beyond the last.
pub proof fn lemma_climb_well_formed(tokens: Seq<TokenView>, lhs: Tree, min: nat, position: nat, depth: nat)
    requires
        constants_are_numbers(tokens),
        lhs.well_formed(),
        position <= tokens.len(),
    ensures
        climb(tokens, lhs, min, position, depth) matches Ok((tree, used)) ==> {
            &&& tree.well_formed()
            &&& position + used <= tokens.len()
        },
    decreases remaining(tokens, position), 0nat,
{
    match operator_at(tokens, position, min) {
        None => {},
        Some(function) => {
            if depth > 0 {
                lemma_operand_well_formed(tokens, position + 1, threshold_after(function), (depth - 1) as nat);
                match operand(tokens, position + 1, threshold_after(function), (depth - 1) as nat) {
                    Err(failure) => {},
                    Ok((rhs, used)) => {
                        lemma_climb_well_formed(
                            tokens,
                            Tree::FunctionCall { function, args: seq![lhs, rhs] },
                            min,
                            position + 1 + used,
                            (depth - 1) as nat,
                        );
                    },
                }
            }
        },
    }
}

/// What [`operand`] reads, and so what [`expression`] reads, is a
/// well-formed tree, made of at least one token and of none beyond the last.
pub proof fn lemma_operand_well_formed(tokens: Seq<TokenView>, position: nat, min: nat, depth: nat)
    requires
        constants_are_numbers(tokens),
    ensures
        operand(tokens, position, min, depth) matches Ok((tree, used)) ==> {
            &&& tree.well_formed()
            &&& 1 <= used
            &&& position + used <= tokens.len()
        },
        expression(tokens, position, depth) matches Ok((tree, used)) ==> {
            &&& tree.well_formed()
            &&& 1 <= used
            &&& position + used <= tokens.len()
        },
    decreases remaining(tokens, position), 1nat,
{
    lemma_primary_well_formed(tokens, position, depth);
    if let Ok((lhs, used)) = primary(tokens, position, depth) {
        lemma_climb_well_formed(tokens, lhs, min, position + used, depth);
        lemma_climb_well_formed(tokens, lhs, 0, position + used, depth);
    }
}

/// What [`arguments`] reads is at least one tree, each well formed, made of
/// no token beyond the last.
pub proof fn lemma_arguments_well_formed(tokens: Seq<TokenView>, position: nat, depth: nat)
    requires
        constants_are_numbers(tokens),
    ensures
        arguments(tokens, position, depth) matches Ok((trees, used)) ==> {
            &&& trees.len() >= 1
            &&& forall|i: int| 0 <= i < trees.len() ==> (#[trigger] trees[i]).well_formed()
            &&& 1 <= used
            &&& position + used <= tokens.len()
        },
    decreases remaining(tokens, position), 3nat,
{
    lemma_operand_well_formed(tokens, position, 0, depth);
    if let Ok((first, used)) = expression(tokens, position, depth) {
        if symbol_at(tokens, position + used, ',') {
            lemma_arguments_well_formed(tokens, position + used + 1, depth);
        }
    }
}

/// Every tree that a text parses to is well formed: each call has exactly
/// as many arguments as its function takes.
pub proof fn lemma_parse_text_well_formed(text: Seq<char>)
    ensures
        parse_text(text) matches Ok(tree) ==> tree.well_formed(),
{
    lemma_lex_runs_constants(runs(text), units());
    if let Ok(tokens) = lex(text, units()) {
        lemma_operand_well_formed(tokens, 0, 0, MAX_DEPTH as nat);
    }
}

} // verus!
