//! Reading back what was written: a tree, written in the form
//! `name(argument, argument)`, parses to itself.
use crate::ast::function::{
    functions, is_identifier, is_registered, lemma_function_takes_arguments, lemma_lookup_finds_registered,
    lemma_lookup_is_identifier, lemma_spellings, lookup,
};
use crate::ast::Tree;
use crate::parser::grammar::{
    arguments, expression, operator_at, parse_text, primary, sentence, symbol_at, units,
};
use crate::parser::token_laws::{is_plain, is_separator, lemma_lex_join, lemma_lex_one_run, meets_cleanly};
use crate::parser::tokenizer::{category_of, lex, longest_unit, split_symbols, Category, TokenView};
use crate::parser::{Failure, MAX_DEPTH};
use crate::text::{is_decimal_literal, is_digit, lemma_seq_char_range};
use vstd::prelude::*;

verus! {

broadcast use lemma_seq_char_range;

/// The tokens of a tree written in the form `name(argument, argument)`.
pub open spec fn written(tree: Tree) -> Seq<TokenView>
    decreases tree, 0nat,
{
    match tree {
        Tree::Literal { as_bool, value } => seq![TokenView::Constant(value)],
        Tree::Variable { identifier } => seq![TokenView::String(identifier)],
        Tree::FunctionCall { function, args } => seq![
            TokenView::String(function.identifier@),
            TokenView::Symbol('('),
        ] + written_list(args, 0) + seq![TokenView::Symbol(')')],
    }
}

/// The tokens of the trees of `args` from the one at `from` on, with a comma
/// between two of them.
pub open spec fn written_list(args: Seq<Tree>, from: nat) -> Seq<TokenView>
    decreases args, args.len() - from,
{
    if from >= args.len() {
        Seq::empty()
    } else if from + 1 == args.len() {
        written(args[from as int])
    } else {
        written(args[from as int]) + seq![TokenView::Symbol(',')] + written_list(args, from + 1)
    }
}

/// Whether `text` is a word: at least one character, letters and
/// underscores only.
pub open spec fn is_word(text: Seq<char>) -> bool {
    &&& text.len() > 0
    &&& forall|i: int| 0 <= i < text.len() ==> category_of(#[trigger] text[i]) == Category::Alpha
}

/// Whether the parser can read `tree` back within `depth` levels of nesting:
/// the tree is well formed, its literals are plain numbers, its variables
/// are words, and its calls are nested no deeper than `depth`.
pub open spec fn is_readable(tree: Tree, depth: nat) -> bool
    decreases tree,
{
    match tree {
        Tree::Literal { as_bool, value } => !as_bool && is_decimal_literal(value),
        Tree::Variable { identifier } => is_word(identifier) && !is_identifier(identifier),
        Tree::FunctionCall { function, args } => {
            &&& depth > 0
            &&& is_registered(function)
            &&& args.len() == function.arity
            &&& forall|i: int| 0 <= i < args.len() ==> is_readable(#[trigger] args[i], (depth - 1) as nat)
        },
    }
}

/// Whether `piece` stands among `tokens` from `position` on.
pub open spec fn stands_at(tokens: Seq<TokenView>, position: nat, piece: Seq<TokenView>) -> bool {
    &&& position + piece.len() <= tokens.len()
    &&& tokens.subrange(position as int, (position + piece.len()) as int) == piece
}

/// Whether an expression can end before `position`: the tokens end there, or
/// a comma or a closing parenthesis follows.
pub open spec fn closes_at(tokens: Seq<TokenView>, position: nat) -> bool {
    position >= tokens.len() || symbol_at(tokens, position, ',') || symbol_at(tokens, position, ')')
}

/// A piece that stands at a place is found there token by token.
pub proof fn lemma_stands_at_index(tokens: Seq<TokenView>, position: nat, piece: Seq<TokenView>, i: int)
    requires
        stands_at(tokens, position, piece),
        0 <= i < piece.len(),
    ensures
        tokens[position + i] == piece[i],
{
    assert(tokens.subrange(position as int, (position + piece.len()) as int)[i] == tokens[position + i]);
}

/// Where two pieces stand one after the other, each stands at its place.
pub proof fn lemma_stands_at_parts(
    tokens: Seq<TokenView>,
    position: nat,
    first: Seq<TokenView>,
    second: Seq<TokenView>,
)
    requires
        stands_at(tokens, position, first + second),
    ensures
        stands_at(tokens, position, first),
        stands_at(tokens, position + first.len(), second),
{
    let whole = first + second;
    let found = tokens.subrange(position as int, (position + whole.len()) as int);
    assert(tokens.subrange(position as int, (position + first.len()) as int) =~= found.subrange(
        0,
        first.len() as int,
    ));
    assert(found.subrange(0, first.len() as int) =~= first);
    assert(tokens.subrange(
        (position + first.len()) as int,
        (position + first.len() + second.len()) as int,
    ) =~= found.subrange(
        first.len() as int,
        whole.len() as int,
    ));
    assert(found.subrange(first.len() as int, whole.len() as int) =~= second);
}

/// A written tree is made of at least one token.
pub proof fn lemma_written_is_not_empty(tree: Tree)
    ensures
        written(tree).len() >= 1,
{
}

/// Where a readable tree stands written, and a comma, a closing parenthesis
/// or the end follows, [`primary`] reads just that tree.
pub proof fn lemma_primary_reads(tokens: Seq<TokenView>, position: nat, depth: nat, tree: Tree)
    requires
        stands_at(tokens, position, written(tree)),
        closes_at(tokens, position + written(tree).len()),
        is_readable(tree, depth),
    ensures
        primary(tokens, position, depth) == Ok::<(Tree, nat), Failure>((tree, written(tree).len())),
    decreases tree, 0nat,
{
    lemma_written_is_not_empty(tree);
    lemma_stands_at_index(tokens, position, written(tree), 0);
    match tree {
        Tree::Literal { as_bool, value } => {},
        Tree::Variable { identifier } => {
            lemma_lookup_is_identifier(identifier, 1);
        },
        Tree::FunctionCall { function, args } => {
            let head = seq![TokenView::String(function.identifier@), TokenView::Symbol('(')];
            let list = written_list(args, 0);
            let tail = seq![TokenView::Symbol(')')];
            assert(written(tree) == head + list + tail);
            lemma_stands_at_index(tokens, position, written(tree), 1);
            lemma_stands_at_parts(tokens, position, head + list, tail);
            lemma_stands_at_parts(tokens, position, head, list);
            lemma_stands_at_index(tokens, position + 2 + list.len(), tail, 0);
            lemma_function_takes_arguments(function);
            lemma_arguments_read(tokens, position + 2, (depth - 1) as nat, args, 0);
            assert(args.skip(0) =~= args);
            lemma_lookup_finds_registered(function);
        },
    }
}

/// Where readable trees stand written with commas between them, and a
/// closing parenthesis or the end follows, [`arguments`] reads just those
/// trees.
pub proof fn lemma_arguments_read(tokens: Seq<TokenView>, position: nat, depth: nat, args: Seq<Tree>, from: nat)
    requires
        from < args.len(),
        stands_at(tokens, position, written_list(args, from)),
        closes_at(tokens, position + written_list(args, from).len()),
        !symbol_at(tokens, position + written_list(args, from).len(), ','),
        forall|i: int| 0 <= i < args.len() ==> is_readable(#[trigger] args[i], depth),
    ensures
        arguments(tokens, position, depth) == Ok::<(Seq<Tree>, nat), Failure>(
            (args.skip(from as int), written_list(args, from).len()),
        ),
    decreases args, args.len() - from,
{
    let first = args[from as int];
    if from + 1 == args.len() {
        lemma_expression_reads(tokens, position, depth, first);
        assert(args.skip(from as int) =~= seq![first]);
    } else {
        let comma = seq![TokenView::Symbol(',')];
        let rest = written_list(args, from + 1);
        assert(written_list(args, from) == written(first) + comma + rest);
        lemma_stands_at_parts(tokens, position, written(first) + comma, rest);
        lemma_stands_at_parts(tokens, position, written(first), comma);
        lemma_stands_at_index(tokens, position + written(first).len(), comma, 0);
        lemma_expression_reads(tokens, position, depth, first);
        lemma_arguments_read(tokens, position + written(first).len() + 1, depth, args, from + 1);
        assert(args.skip(from as int) =~= seq![first] + args.skip((from + 1) as int));
    }
}

/// Where a readable tree stands written, and a comma, a closing parenthesis
/// or the end follows, [`expression`] reads just that tree.
pub proof fn lemma_expression_reads(tokens: Seq<TokenView>, position: nat, depth: nat, tree: Tree)
    requires
        stands_at(tokens, position, written(tree)),
        closes_at(tokens, position + written(tree).len()),
        is_readable(tree, depth),
    ensures
        expression(tokens, position, depth) == Ok::<(Tree, nat), Failure>((tree, written(tree).len())),
    decreases tree, 1nat,
{
    lemma_primary_reads(tokens, position, depth, tree);
    assert(operator_at(tokens, position + written(tree).len(), 0) is None);
}

/// A readable tree, written down, reads back as itself.
pub proof fn lemma_written_reads_back(tree: Tree)
    requires
        is_readable(tree, MAX_DEPTH as nat),
    ensures
        sentence(written(tree), 0) == Ok::<Tree, Failure>(tree),
{
    let tokens = written(tree);
    assert(tokens.subrange(0, tokens.len() as int) =~= tokens);
    lemma_expression_reads(tokens, 0, MAX_DEPTH as nat, tree);
}

/// The tokens of the first `count` trees of `args`, with a comma between
/// two of them.
pub open spec fn written_first(args: Seq<Tree>, count: nat) -> Seq<TokenView>
    decreases count,
{
    if count == 0 || count > args.len() {
        Seq::empty()
    } else if count == 1 {
        written(args[0])
    } else {
        written_first(args, (count - 1) as nat) + seq![TokenView::Symbol(',')] + written(args[count - 1])
    }
}

/// The tokens of a list are those of its first trees, then a comma and
/// those of the others, where there are others.
pub proof fn lemma_written_first_then_rest(args: Seq<Tree>, count: nat)
    requires
        1 <= count <= args.len(),
    ensures
        written_list(args, 0) == written_first(args, count) + (if count < args.len() {
            seq![TokenView::Symbol(',')] + written_list(args, count)
        } else {
            Seq::empty()
        }),
    decreases count,
{
    let comma = seq![TokenView::Symbol(',')];
    if count == 1 {
        let first = written(args[0]);
        if 1 < args.len() {
            assert(first + comma + written_list(args, 1) =~= first + (comma + written_list(args, 1)));
        } else {
            assert(first =~= first + Seq::<TokenView>::empty());
        }
    } else {
        let before = (count - 1) as nat;
        lemma_written_first_then_rest(args, before);
        let head = written_first(args, before);
        let next = written(args[before as int]);
        assert(written_first(args, count) == head + comma + next);
        if count < args.len() {
            let rest = written_list(args, count);
            assert(written_list(args, before) == next + comma + rest);
            assert(head + (comma + (next + comma + rest)) =~= (head + comma + next) + (comma + rest));
        } else {
            assert(written_list(args, before) == next);
            assert(head + (comma + next) =~= (head + comma + next) + Seq::<TokenView>::empty());
        }
    }
}

/// Whether `text` is made of symbols only, none of them a parenthesis or a
/// comma.
pub open spec fn is_operator_spelling(text: Seq<char>) -> bool {
    forall|i: int|
        0 <= i < text.len() ==> category_of(#[trigger] text[i]) == Category::Symbol && !is_separator(text[i])
}

/// Each identifier of the table has at least one character and is either a
/// word or made of symbols other than the parentheses and the comma.
pub proof fn lemma_identifier_shape(name: Seq<char>)
    requires
        is_identifier(name),
    ensures
        name.len() > 0,
        is_word(name) || is_operator_spelling(name),
        forall|i: int| 0 <= i < name.len() ==> !is_separator(#[trigger] name[i]),
{
    lemma_spellings();
    let k = choose|k: int| 0 <= k < functions().len() && (#[trigger] functions()[k]).identifier@ == name;
    assert(functions()[k].identifier@ == name);
    if k < 17 {
        assert(name.len() <= 2);
        assert(is_operator_spelling(name));
    } else {
        assert(3 <= name.len() <= 4);
        assert(is_word(name));
    }
}

/// No identifier of the table holds a parenthesis or a comma.
pub proof fn lemma_units_are_plain()
    ensures
        is_plain(units()),
{
    assert forall|unit: Seq<char>, i: int|
        #![trigger units().contains(unit), unit[i]]
        units().contains(unit) && 0 <= i < unit.len() implies !is_separator(unit[i]) by {
        lemma_identifier_shape(unit);
    }
}

/// An identifier of the table, alone, is one `String` token.
pub proof fn lemma_lex_identifier(name: Seq<char>)
    requires
        is_identifier(name),
    ensures
        lex(name, units()) == Ok::<Seq<TokenView>, Seq<char>>(seq![TokenView::String(name)]),
{
    lemma_identifier_shape(name);
    lemma_lex_one_run(name, units());
    if is_operator_spelling(name) {
        assert(name.take(name.len() as int) =~= name);
        assert(units().contains(name));
        assert(name.skip(name.len() as int) =~= Seq::<char>::empty());
        assert(longest_unit(name, units(), name.len()) == name.len());
        assert(split_symbols(name.skip(name.len() as int), units()) =~= Seq::<TokenView>::empty());
        assert(split_symbols(name, units()) =~= seq![TokenView::String(name)]);
    }
}

/// A parenthesis or a comma, alone, is one `Symbol` token.
pub proof fn lemma_lex_separator(c: char)
    requires
        is_separator(c),
    ensures
        lex(seq![c], units()) == Ok::<Seq<TokenView>, Seq<char>>(seq![TokenView::Symbol(c)]),
{
    let text = seq![c];
    lemma_units_are_plain();
    lemma_lex_one_run(text, units());
    assert(text.take(1) =~= text);
    if units().contains(text) {
        assert(!is_separator(text[0]));
    }
    assert(text.skip(1) =~= Seq::<char>::empty());
    assert(longest_unit(text, units(), 0) == 0);
    assert(longest_unit(text, units(), 1) == 0);
    assert(split_symbols(text.skip(1), units()) =~= Seq::<TokenView>::empty());
    assert(split_symbols(text, units()) =~= seq![TokenView::Symbol(c)]);
}

/// A comma and a space, as they stand between two arguments, are one
/// `Symbol` token.
pub proof fn lemma_lex_comma_space()
    ensures
        lex(seq![',', ' '], units()) == Ok::<Seq<TokenView>, Seq<char>>(seq![TokenView::Symbol(',')]),
{
    let comma = seq![','];
    let space = seq![' '];
    lemma_units_are_plain();
    lemma_lex_separator(',');
    lemma_lex_one_run(space, units());
    lemma_lex_join(comma, space, units());
    assert(comma + space =~= seq![',', ' ']);
    assert(seq![TokenView::Symbol(',')] + Seq::<TokenView>::empty() =~= seq![TokenView::Symbol(',')]);
}

/// Whether `text` begins with a character that is no whitespace and ends
/// with a letter, a digit, a point or a closing parenthesis.
pub open spec fn is_closed(text: Seq<char>) -> bool {
    &&& text.len() > 0
    &&& category_of(text[0]) != Category::Whitespace
    &&& (category_of(text.last()) == Category::Alpha || category_of(text.last()) == Category::Digit || text.last()
        == ')')
}

/// Two texts put together, given the tokens of each and that they meet
/// cleanly.
pub proof fn lemma_lex_join_ok(a: Seq<char>, b: Seq<char>, first: Seq<TokenView>, second: Seq<TokenView>)
    requires
        meets_cleanly(a, b),
        lex(a, units()) == Ok::<Seq<TokenView>, Seq<char>>(first),
        lex(b, units()) == Ok::<Seq<TokenView>, Seq<char>>(second),
    ensures
        lex(a + b, units()) == Ok::<Seq<TokenView>, Seq<char>>(first + second),
{
    lemma_units_are_plain();
    lemma_lex_join(a, b, units());
}

/// The text of a readable tree has the tokens of the tree written down.
pub proof fn lemma_render_lexes(tree: Tree, depth: nat)
    requires
        is_readable(tree, depth),
    ensures
        lex(tree.render(), units()) == Ok::<Seq<TokenView>, Seq<char>>(written(tree)),
        is_closed(tree.render()),
    decreases tree, 0nat,
{
    match tree {
        Tree::Literal { as_bool, value } => {
            assert forall|j: int| 0 <= j < value.len() implies category_of(#[trigger] value[j])
                == Category::Digit by {
                assert(is_digit(value[j]) || value[j] == '.');
            }
            lemma_lex_one_run(value, units());
        },
        Tree::Variable { identifier } => {
            lemma_lex_one_run(identifier, units());
        },
        Tree::FunctionCall { function, args } => {
            let name = function.identifier@;
            let open = seq!['('];
            let close = seq![')'];
            let list = Tree::render_list(args, args.len());
            assert(is_identifier(name)) by {
                let k = choose|k: int| 0 <= k < functions().len() && #[trigger] functions()[k] == function;
                assert(functions()[k].identifier@ == name);
            }
            lemma_function_takes_arguments(function);
            lemma_identifier_shape(name);
            lemma_lex_identifier(name);
            lemma_lex_separator('(');
            lemma_lex_separator(')');
            lemma_render_list_lexes(args, args.len(), (depth - 1) as nat);
            lemma_written_first_then_rest(args, args.len());
            let head = seq![TokenView::String(name), TokenView::Symbol('(')];
            let middle = written_first(args, args.len());
            let tail = seq![TokenView::Symbol(')')];
            assert(written_list(args, 0) =~= middle);
            lemma_lex_join_ok(name, open, seq![TokenView::String(name)], seq![TokenView::Symbol('(')]);
            assert(seq![TokenView::String(name)] + seq![TokenView::Symbol('(')] =~= head);
            assert((name + open).last() == '(');
            lemma_lex_join_ok(name + open, list, head, middle);
            assert((name + open + list).last() == list.last());
            lemma_lex_join_ok(name + open + list, close, head + middle, tail);
            assert((name + open + list + close)[0] == name[0]);
            assert((name + open + list + close).last() == ')');
        },
    }
}

/// The text of the first `count` of a list of readable trees has their
/// tokens, with a comma between two of them.
pub proof fn lemma_render_list_lexes(args: Seq<Tree>, count: nat, depth: nat)
    requires
        1 <= count <= args.len(),
        forall|i: int| 0 <= i < args.len() ==> is_readable(#[trigger] args[i], depth),
    ensures
        lex(Tree::render_list(args, count), units()) == Ok::<Seq<TokenView>, Seq<char>>(
            written_first(args, count),
        ),
        is_closed(Tree::render_list(args, count)),
    decreases args, count,
{
    if count == 1 {
        lemma_render_lexes(args[0], depth);
    } else {
        let before = Tree::render_list(args, (count - 1) as nat);
        let between = seq![',', ' '];
        let last = args[count - 1].render();
        lemma_render_list_lexes(args, (count - 1) as nat, depth);
        lemma_render_lexes(args[count - 1], depth);
        lemma_lex_comma_space();
        let comma = seq![TokenView::Symbol(',')];
        lemma_lex_join_ok(before, between, written_first(args, (count - 1) as nat), comma);
        assert((before + between).last() == ' ');
        lemma_lex_join_ok(
            before + between,
            last,
            written_first(args, (count - 1) as nat) + comma,
            written(args[count - 1]),
        );
        assert((before + between + last)[0] == before[0]);
        assert((before + between + last).last() == last.last());
    }
}

/// The canonical text of a tree parses back to the tree: for every readable
/// tree, what `to_string` writes is a line that `parse` accepts, and the
/// result is the tree itself.
pub proof fn lemma_render_parses_back(tree: Tree)
    requires
        is_readable(tree, MAX_DEPTH as nat),
    ensures
        parse_text(tree.render()) == Ok::<Tree, Failure>(tree),
{
    lemma_render_lexes(tree, MAX_DEPTH as nat);
    lemma_written_reads_back(tree);
}

} // verus!
