//! What holds of every line that the grammar reads.
use crate::ast::function::{is_identifier, lemma_lookup_is_identifier, lookup, Function};
use crate::ast::Tree;
use crate::parser::grammar::{
    arguments, climb, expression, function_at, operand, operator_at, primary, sentence, symbol_at, threshold_after,
};
use crate::parser::tokenizer::TokenView;
use crate::parser::{Failure, MAX_DEPTH};
use vstd::prelude::*;

verus! {

/// The call of the binary function `function` on `left` and `right`.
pub open spec fn binary(function: Function, left: Tree, right: Tree) -> Tree {
    Tree::FunctionCall { function, args: seq![left, right] }
}

/// Precedence and associativity, for a line of the form
/// `first f second g third`, where the three operands are primaries and
/// `f` and `g` are binary operators.
///
/// The operand in the middle goes to `g` where `g` binds more tightly than
/// `f`, or as tightly while `f` groups to the right; the line then reads
/// `f(first, g(second, third))`. Otherwise it goes to `f`, and the line
/// reads `g(f(first, second), third)`.
pub proof fn lemma_two_operators(
    tokens: Seq<TokenView>,
    first: Tree,
    f: Function,
    second: Tree,
    g: Function,
    third: Tree,
    a: nat,
    b: nat,
    c: nat,
)
    requires
        primary(tokens, 0, MAX_DEPTH as nat) == Ok::<(Tree, nat), Failure>((first, a)),
        function_at(tokens, a, 2) == Some(f),
        primary(tokens, a + 1, (MAX_DEPTH - 1) as nat) == Ok::<(Tree, nat), Failure>((second, b)),
        function_at(tokens, a + 1 + b, 2) == Some(g),
        primary(tokens, a + b + 2, (MAX_DEPTH - 2) as nat) == Ok::<(Tree, nat), Failure>((third, c)),
        tokens.len() == a + b + c + 2,
    ensures
        sentence(tokens, 0) == Ok::<Tree, Failure>(
            if g.precedence.tightness() >= threshold_after(f) {
                binary(f, first, binary(g, second, third))
            } else {
                binary(g, binary(f, first, second), third)
            },
        ),
{
    let depth = MAX_DEPTH as nat;
    let end = a + b + c + 2;
    let after_f = threshold_after(f);
    let after_g = threshold_after(g);
    assert(operator_at(tokens, a, 0) == Some(f));
    assert(operator_at(tokens, a + 1 + b, 0) == Some(g));
    assert(forall|tree: Tree, min: nat, left: nat|
        #![trigger climb(tokens, tree, min, end, left)]
        climb(tokens, tree, min, end, left) == Ok::<(Tree, nat), Failure>((tree, 0)));
    if g.precedence.tightness() >= after_f {
        let inner = binary(g, second, third);
        assert(operator_at(tokens, a + 1 + b, after_f) == Some(g));
        assert(operand(tokens, a + b + 2, after_g, (depth - 2) as nat) == Ok::<(Tree, nat), Failure>((third, c)));
        assert(climb(tokens, inner, after_f, end, (depth - 2) as nat) == Ok::<(Tree, nat), Failure>((inner, 0)));
        assert(climb(tokens, second, after_f, a + 1 + b, (depth - 1) as nat) == Ok::<(Tree, nat), Failure>(
            (inner, 1 + c),
        ));
        assert(operand(tokens, a + 1, after_f, (depth - 1) as nat) == Ok::<(Tree, nat), Failure>(
            (inner, b + 1 + c),
        ));
        let whole = binary(f, first, inner);
        assert(climb(tokens, whole, 0, end, (depth - 1) as nat) == Ok::<(Tree, nat), Failure>((whole, 0)));
        assert(climb(tokens, first, 0, a, depth) == Ok::<(Tree, nat), Failure>((whole, 2 + b + c)));
        assert(expression(tokens, 0, depth) == Ok::<(Tree, nat), Failure>((whole, end)));
    } else {
        let inner = binary(f, first, second);
        let whole = binary(g, inner, third);
        assert(operator_at(tokens, a + 1 + b, after_f) is None);
        assert(climb(tokens, second, after_f, a + 1 + b, (depth - 1) as nat) == Ok::<(Tree, nat), Failure>(
            (second, 0),
        ));
        assert(operand(tokens, a + 1, after_f, (depth - 1) as nat) == Ok::<(Tree, nat), Failure>((second, b)));
        assert(operand(tokens, a + b + 2, after_g, (depth - 2) as nat) == Ok::<(Tree, nat), Failure>((third, c)));
        assert(climb(tokens, whole, 0, end, (depth - 2) as nat) == Ok::<(Tree, nat), Failure>((whole, 0)));
        assert(climb(tokens, inner, 0, a + 1 + b, (depth - 1) as nat) == Ok::<(Tree, nat), Failure>(
            (whole, 1 + c),
        ));
        assert(climb(tokens, first, 0, a, depth) == Ok::<(Tree, nat), Failure>((whole, 2 + b + c)));
        assert(expression(tokens, 0, depth) == Ok::<(Tree, nat), Failure>((whole, end)));
    }
}

/// Parentheses override precedence: an expression between parentheses is
/// an operand like any other, whatever operators it holds.
pub proof fn lemma_parentheses(tokens: Seq<TokenView>, position: nat, depth: nat, inner: Tree, used: nat)
    requires
        depth > 0,
        symbol_at(tokens, position, '('),
        expression(tokens, position + 1, (depth - 1) as nat) == Ok::<(Tree, nat), Failure>((inner, used)),
        symbol_at(tokens, position + 1 + used, ')'),
    ensures
        primary(tokens, position, depth) == Ok::<(Tree, nat), Failure>((inner, used + 2)),
{
}

/// A call is rejected where the table has no function of that name with as
/// many arguments as the call gives.
pub proof fn lemma_arity_mismatch(
    tokens: Seq<TokenView>,
    position: nat,
    depth: nat,
    name: Seq<char>,
    args: Seq<Tree>,
    used: nat,
)
    requires
        depth > 0,
        position < tokens.len(),
        tokens[position as int] == TokenView::String(name),
        symbol_at(tokens, position + 1, '('),
        arguments(tokens, position + 2, (depth - 1) as nat) == Ok::<(Seq<Tree>, nat), Failure>((args, used)),
        lookup(name, args.len() as int) is None,
    ensures
        primary(tokens, position, depth) == Err::<(Tree, nat), Failure>(
            Failure::UnknownOperator { identifier: name, arity: args.len(), position },
        ),
{
}

/// A name that the table does not have, and that is not called, is a
/// variable.
pub proof fn lemma_unknown_name_is_variable(tokens: Seq<TokenView>, position: nat, depth: nat, name: Seq<char>)
    requires
        position < tokens.len(),
        tokens[position as int] == TokenView::String(name),
        !symbol_at(tokens, position + 1, '('),
        !is_identifier(name),
    ensures
        primary(tokens, position, depth) == Ok::<(Tree, nat), Failure>((Tree::Variable { identifier: name }, 1)),
{
    lemma_lookup_is_identifier(name, 1);
}

} // verus!
