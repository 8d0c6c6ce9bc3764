//! Splitting a line of text into tokens.
use crate::parser::token_laws::{lemma_lex_spells, spelled, without_whitespace};
use crate::parser::{Failure, ParseError};
use crate::text::{contains_str, is_decimal_literal, is_number, lemma_encode_len, split_chars, texts};
use crate::unicode::{unicode_alphabetic, unicode_whitespace};
use vstd::prelude::*;
use vstd::std_specs::convert::FromSpecImpl;

verus! {

broadcast use crate::text::lemma_seq_char_range;

/// The classes of characters that the tokenizer tells apart.
#[derive(Clone, Copy, Debug, PartialEq, Eq, Structural)]
pub enum Category {
    /// Letters and the underscore.
    Alpha,
    /// The decimal digits `0` to `9` and the point.
    Digit,
    Whitespace,
    /// Every other character.
    Symbol,
}

/// The class of `c`, given whether it is alphabetic and whether it is
/// whitespace in the sense of Unicode.
///
/// Within ASCII the classes are fixed here and the two flags play no part:
/// the letters and `_` are `Alpha`, the digits and `.` are `Digit`, the space
/// and the controls from tab to carriage return are `Whitespace`. Beyond
/// ASCII a character is `Alpha` if it is alphabetic, else `Whitespace` if it
/// is whitespace, else a `Symbol`.
pub open spec fn category_given(c: char, alphabetic: bool, whitespace: bool) -> Category {
    if c <= '\x7f' {
        if 'a' <= c <= 'z' || 'A' <= c <= 'Z' || c == '_' {
            Category::Alpha
        } else if '0' <= c <= '9' || c == '.' {
            Category::Digit
        } else if c == ' ' || '\t' <= c <= '\r' {
            Category::Whitespace
        } else {
            Category::Symbol
        }
    } else if alphabetic {
        Category::Alpha
    } else if whitespace {
        Category::Whitespace
    } else {
        Category::Symbol
    }
}

/// The class of `c`.
pub open spec fn category_of(c: char) -> Category {
    category_given(c, unicode_alphabetic(c), unicode_whitespace(c))
}

impl Category {
    /// The class of `c`, given whether it is alphabetic and whether it is
    /// whitespace in the sense of Unicode.
    pub fn classify(c: char, alphabetic: bool, whitespace: bool) -> (category: Category)
        ensures
            category == category_given(c, alphabetic, whitespace),
    {
        if c <= '\x7f' {
            if ('a' <= c && c <= 'z') || ('A' <= c && c <= 'Z') || c == '_' {
                Category::Alpha
            } else if ('0' <= c && c <= '9') || c == '.' {
                Category::Digit
            } else if c == ' ' || ('\t' <= c && c <= '\r') {
                Category::Whitespace
            } else {
                Category::Symbol
            }
        } else if alphabetic {
            Category::Alpha
        } else if whitespace {
            Category::Whitespace
        } else {
            Category::Symbol
        }
    }
}

impl From<char> for Category {
    fn from(c: char) -> (category: Category) {
        Category::classify(c, c.is_alphabetic(), c.is_whitespace())
    }
}

impl FromSpecImpl<char> for Category {
    open spec fn obeys_from_spec() -> bool {
        true
    }

    open spec fn from_spec(c: char) -> Category {
        category_of(c)
    }
}

/// A stretch of text together with the class of its characters.
pub type Run = (Category, Seq<char>);

/// Length of the longest prefix of `text` whose characters all have the class
/// of the first one; 0 for the empty text.
pub open spec fn run_length(text: Seq<char>) -> nat
    decreases text.len(),
{
    if text.len() == 0 {
        0
    } else if text.len() >= 2 && category_of(text[1]) == category_of(text[0]) {
        1 + run_length(text.skip(1))
    } else {
        1
    }
}

/// The text cut into its runs: each as long as it can be, in order.
pub open spec fn runs(text: Seq<char>) -> Seq<Run>
    decreases text.len(),
{
    if text.len() == 0 {
        Seq::empty()
    } else {
        let n = run_length(text);
        proof {
            lemma_run_length_bounds(text);
        }
        seq![(category_of(text[0]), text.take(n as int))] + runs(text.skip(n as int))
    }
}

/// The texts of `runs`, one after the other.
pub open spec fn joined(runs: Seq<Run>) -> Seq<char>
    decreases runs.len(),
{
    if runs.len() == 0 {
        Seq::empty()
    } else {
        runs[0].1 + joined(runs.skip(1))
    }
}

/// What a list of segments holds, each text taken as its characters.
pub open spec fn runs_of(segments: Seq<(Category, &str)>) -> Seq<Run> {
    segments.map_values(|segment: (Category, &str)| (segment.0, segment.1@))
}

/// A prefix of one class that cannot be made longer is the first run.
pub proof fn lemma_run_length_is(text: Seq<char>, n: nat)
    requires
        1 <= n <= text.len(),
        forall|j: int| 0 <= j < n ==> category_of(#[trigger] text[j]) == category_of(text[0]),
        n == text.len() || category_of(text[n as int]) != category_of(text[0]),
    ensures
        run_length(text) == n,
    decreases n,
{
    if n >= 2 {
        let rest = text.skip(1);
        assert(category_of(text[1]) == category_of(text[0]));
        assert forall|j: int| 0 <= j < n - 1 implies category_of(#[trigger] rest[j]) == category_of(rest[0]) by {
            assert(rest[j] == text[j + 1]);
        }
        lemma_run_length_is(rest, (n - 1) as nat);
    }
}

/// The first run is not empty, lies within the text, is of one class, and
/// stops only at the end of the text or before a character of another class.
pub proof fn lemma_run_length_bounds(text: Seq<char>)
    requires
        text.len() > 0,
    ensures
        1 <= run_length(text) <= text.len(),
        forall|j: int| 0 <= j < run_length(text) ==> category_of(#[trigger] text[j]) == category_of(text[0]),
        run_length(text) == text.len() || category_of(text[run_length(text) as int]) != category_of(text[0]),
    decreases text.len(),
{
    if text.len() >= 2 && category_of(text[1]) == category_of(text[0]) {
        let rest = text.skip(1);
        lemma_run_length_bounds(rest);
        assert forall|j: int| 0 <= j < run_length(text) implies category_of(#[trigger] text[j]) == category_of(
            text[0],
        ) by {
            if j >= 1 {
                assert(text[j] == rest[j - 1]);
            }
        }
        if run_length(text) != text.len() {
            assert(text[run_length(text) as int] == rest[run_length(rest) as int]);
        }
    }
}

/// The runs of a text, put together again, are the text: no character is
/// lost, none comes twice, none changes place.
pub proof fn lemma_runs_cover(text: Seq<char>)
    ensures
        joined(runs(text)) == text,
    decreases text.len(),
{
    if text.len() > 0 {
        lemma_run_length_bounds(text);
        let n = run_length(text) as int;
        let all = runs(text);
        lemma_runs_cover(text.skip(n));
        assert(all.skip(1) =~= runs(text.skip(n)));
        assert(text.take(n) + text.skip(n) =~= text);
    }
}

/// Every run is non-empty and holds characters of its own class only, and
/// two neighbours are of different classes: no run could be longer.
pub proof fn lemma_runs_are_maximal(text: Seq<char>)
    ensures
        forall|k: int|
            0 <= k < runs(text).len() ==> {
                let run = #[trigger] runs(text)[k];
                &&& run.1.len() > 0
                &&& forall|j: int| 0 <= j < run.1.len() ==> category_of(#[trigger] run.1[j]) == run.0
            },
        forall|k: int| 0 <= k < runs(text).len() - 1 ==> (#[trigger] runs(text)[k]).0 != runs(text)[k + 1].0,
    decreases text.len(),
{
    if text.len() > 0 {
        lemma_run_length_bounds(text);
        let n = run_length(text) as int;
        let rest = text.skip(n);
        lemma_runs_are_maximal(rest);
        let all = runs(text);
        assert(all[0] == (category_of(text[0]), text.take(n)));
        assert forall|k: int| 0 <= k < all.len() implies {
            let run = #[trigger] all[k];
            &&& run.1.len() > 0
            &&& forall|j: int| 0 <= j < run.1.len() ==> category_of(#[trigger] run.1[j]) == run.0
        } by {
            if k > 0 {
                assert(all[k] == runs(rest)[k - 1]);
            }
        }
        assert forall|k: int| 0 <= k < all.len() - 1 implies (#[trigger] all[k]).0 != all[k + 1].0 by {
            if k > 0 {
                assert(all[k] == runs(rest)[k - 1]);
                assert(all[k + 1] == runs(rest)[k]);
            } else {
                assert(all[1] == runs(rest)[0]);
                assert(rest.len() > 0);
                assert(rest[0] == text[n]);
            }
        }
    }
}

/// The class and the length of the first run of `text`.
pub fn first_run(text: &str) -> (run: (Category, usize))
    requires
        text@.len() > 0,
    ensures
        run.0 == category_of(text@[0]),
        run.1 == run_length(text@),
{
    let limit = text.as_bytes().len();
    proof {
        lemma_encode_len(text@);
    }
    let mut category = Category::Alpha;
    let mut count: usize = 0;
    for c in chars: text.chars()
        invariant
            chars.seq() == text@,
            text@.len() <= limit,
            count == chars.index(),
            count > 0 ==> category == category_of(text@[0]),
            forall|j: int| 0 <= j < count ==> category_of(#[trigger] text@[j]) == category,
    {
        let current = Category::from(c);
        if count > 0 && current != category {
            proof {
                lemma_run_length_is(text@, count as nat);
            }
            return (category, count);
        }
        category = current;
        count += 1;
    }
    proof {
        lemma_run_length_is(text@, count as nat);
    }
    (category, count)
}

/// Cuts `string` into its runs: maximal stretches of characters of one class.
///
/// The segments, put together in order, are `string` again. The empty string
/// has no segment.
pub fn categorize<'a>(string: &'a str) -> (segments: Vec<(Category, &'a str)>)
    ensures
        runs_of(segments@) == runs(string@),
        joined(runs_of(segments@)) == string@,
{
    let mut segments: Vec<(Category, &'a str)> = Vec::new();
    let mut rest = string;
    assert(runs_of(segments@) + runs(rest@) =~= runs(string@));
    while !rest.is_empty()
        invariant
            runs(string@) == runs_of(segments@) + runs(rest@),
        decreases rest@.len(),
    {
        let (category, count) = first_run(rest);
        proof {
            lemma_run_length_bounds(rest@);
        }
        let (head, tail) = split_chars(rest, count);
        let ghost before = runs_of(segments@);
        segments.push((category, head));
        assert(runs_of(segments@) =~= before.push((category, head@)));
        assert(before + (seq![(category, head@)] + runs(tail@)) =~= before.push((category, head@)) + runs(tail@));
        rest = tail;
    }
    proof {
        assert(runs_of(segments@) =~= runs(string@));
        lemma_runs_cover(string@);
    }
    segments
}

/// The smallest unit that the parser works on.
#[derive(Clone, Copy, Debug, PartialEq)]
pub enum Token<'a> {
    /// One character of punctuation that is no operator, such as `(`.
    Symbol(char),
    /// A decimal number, kept as it was written: digits with at most one
    /// point among them.
    Constant(&'a str),
    /// A word, or the spelling of an operator.
    String(&'a str),
}

/// The mathematical content of a [`Token`].
pub ghost enum TokenView {
    Symbol(char),
    Constant(Seq<char>),
    String(Seq<char>),
}

impl<'a> View for Token<'a> {
    type V = TokenView;

    open spec fn view(&self) -> TokenView {
        match self {
            Token::Symbol(c) => TokenView::Symbol(*c),
            Token::Constant(text) => TokenView::Constant(text@),
            Token::String(text) => TokenView::String(text@),
        }
    }
}

impl<'a> Token<'a> {
    /// The character of a `Symbol`.
    pub fn symbol(&self) -> (c: Option<char>)
        ensures
            c == match self@ {
                TokenView::Symbol(c) => Some(c),
                _ => None,
            },
    {
        match self {
            Token::Symbol(c) => Some(*c),
            _ => None,
        }
    }

    /// The text of a `Constant`.
    pub fn constant(&self) -> (text: Option<&'a str>)
        ensures
            match self@ {
                TokenView::Constant(digits) => text matches Some(t) && t@ == digits,
                _ => text.is_none(),
            },
    {
        match self {
            Token::Constant(text) => Some(*text),
            _ => None,
        }
    }

    /// The text of a `String`.
    pub fn string(&self) -> (text: Option<&'a str>)
        ensures
            match self@ {
                TokenView::String(word) => text matches Some(t) && t@ == word,
                _ => text.is_none(),
            },
    {
        match self {
            Token::String(text) => Some(*text),
            _ => None,
        }
    }
}

/// Length of the longest prefix of `run`, of at least one and at most
/// `limit` characters, that is one of `units`; 0 where there is none.
pub open spec fn longest_unit(run: Seq<char>, units: Set<Seq<char>>, limit: nat) -> nat
    decreases limit,
{
    if limit == 0 {
        0
    } else if units.contains(run.take(limit as int)) {
        limit
    } else {
        longest_unit(run, units, (limit - 1) as nat)
    }
}

/// What [`longest_unit`] finds is a unit, and nothing longer within the
/// limit is one.
pub proof fn lemma_longest_unit(run: Seq<char>, units: Set<Seq<char>>, limit: nat)
    ensures
        longest_unit(run, units, limit) <= limit,
        longest_unit(run, units, limit) > 0 ==> units.contains(run.take(longest_unit(run, units, limit) as int)),
        forall|k: int| longest_unit(run, units, limit) < k <= limit ==> !units.contains(#[trigger] run.take(k)),
    decreases limit,
{
    if limit > 0 && !units.contains(run.take(limit as int)) {
        lemma_longest_unit(run, units, (limit - 1) as nat);
    }
}

/// A run of symbols cut into tokens from the left. At each place the longest
/// unit that begins there becomes a `String`; where no unit begins, the one
/// character becomes a `Symbol`.
pub open spec fn split_symbols(run: Seq<char>, units: Set<Seq<char>>) -> Seq<TokenView>
    decreases run.len(),
{
    if run.len() == 0 {
        Seq::empty()
    } else {
        let n = longest_unit(run, units, run.len());
        if n == 0 {
            seq![TokenView::Symbol(run[0])] + split_symbols(run.skip(1), units)
        } else {
            proof {
                lemma_longest_unit(run, units, run.len());
            }
            seq![TokenView::String(run.take(n as int))] + split_symbols(run.skip(n as int), units)
        }
    }
}

/// Cuts the run of symbols `run` into tokens and appends them to `tokens`.
///
/// At each place the candidates are tried from the longest, which is all
/// that is left of the run, down to the single character.
pub fn push_symbols<'a>(tokens: &mut Vec<Token<'a>>, run: &'a str, symbol_units: &[&str])
    ensures
        tokens_of(final(tokens)@) == tokens_of(old(tokens)@) + split_symbols(run@, texts(symbol_units@)),
{
    let ghost units = texts(symbol_units@);
    let ghost before = tokens_of(tokens@);
    let mut rest = run;
    while !rest.is_empty()
        invariant
            units == texts(symbol_units@),
            before + split_symbols(run@, units) == tokens_of(tokens@) + split_symbols(rest@, units),
        decreases rest@.len(),
    {
        let length = rest.unicode_len();
        let mut end: usize = length;
        let mut found = false;
        while !found && end > 1
            invariant
                1 <= end <= length,
                length == rest@.len(),
                units == texts(symbol_units@),
                found ==> units.contains(rest@.take(end as int)),
                longest_unit(rest@, units, rest@.len()) == longest_unit(rest@, units, end as nat),
            decreases end + (if found { 0int } else { 1int }),
        {
            let candidate = rest.substring_char(0, end);
            assert(candidate@ =~= rest@.take(end as int));
            if contains_str(symbol_units, candidate) {
                found = true;
            } else {
                end -= 1;
            }
        }
        let (piece, tail) = split_chars(rest, end);
        let ghost done = tokens_of(tokens@);
        if found || contains_str(symbol_units, piece) {
            tokens.push(Token::String(piece));
            assert(tokens_of(tokens@) =~= done.push(TokenView::String(piece@)));
        } else {
            assert(longest_unit(rest@, units, 0) == 0);
            tokens.push(Token::Symbol(piece.get_char(0)));
            assert(tokens_of(tokens@) =~= done.push(TokenView::Symbol(rest@[0])));
        }
        assert(done + (seq![tokens_of(tokens@).last()] + split_symbols(tail@, units)) =~= tokens_of(tokens@)
            + split_symbols(tail@, units));
        rest = tail;
    }
    assert(tokens_of(tokens@) + split_symbols(rest@, units) =~= tokens_of(tokens@));
}

/// What a list of tokens holds.
pub open spec fn tokens_of(tokens: Seq<Token>) -> Seq<TokenView> {
    tokens.map_values(|token: Token| token@)
}

/// The tokens of one run, or the run itself where it is a run of digits
/// and points that is no decimal number.
pub open spec fn run_tokens(run: Run, units: Set<Seq<char>>) -> Result<Seq<TokenView>, Seq<char>> {
    match run.0 {
        Category::Alpha => Ok(seq![TokenView::String(run.1)]),
        Category::Digit => if is_decimal_literal(run.1) {
            Ok(seq![TokenView::Constant(run.1)])
        } else {
            Err(run.1)
        },
        Category::Symbol => Ok(split_symbols(run.1, units)),
        Category::Whitespace => Ok(Seq::empty()),
    }
}

/// The tokens of `runs`, in order, or the first run among them that is no
/// decimal number though it is made of digits and points.
pub open spec fn lex_runs(runs: Seq<Run>, units: Set<Seq<char>>) -> Result<Seq<TokenView>, Seq<char>>
    decreases runs.len(),
{
    if runs.len() == 0 {
        Ok(Seq::empty())
    } else {
        match run_tokens(runs[0], units) {
            Err(literal) => Err(literal),
            Ok(first) => match lex_runs(runs.skip(1), units) {
                Err(literal) => Err(literal),
                Ok(rest) => Ok(first + rest),
            },
        }
    }
}

/// `lexed` with the tokens `before` put in front.
pub open spec fn after(before: Seq<TokenView>, lexed: Result<Seq<TokenView>, Seq<char>>) -> Result<
    Seq<TokenView>,
    Seq<char>,
> {
    match lexed {
        Ok(tokens) => Ok(before + tokens),
        Err(literal) => Err(literal),
    }
}

/// The tokens of `text`, where `units` are the spellings of the operators;
/// or the first malformed number in it.
pub open spec fn lex(text: Seq<char>, units: Set<Seq<char>>) -> Result<Seq<TokenView>, Seq<char>> {
    lex_runs(runs(text), units)
}

/// Whether every `Constant` among `tokens` is a decimal number.
pub open spec fn constants_are_numbers(tokens: Seq<TokenView>) -> bool {
    forall|i: int|
        0 <= i < tokens.len() ==> (#[trigger] tokens[i] matches TokenView::Constant(text) ==> is_decimal_literal(
            text,
        ))
}

/// No token that comes out of a run of symbols is a `Constant`.
pub proof fn lemma_split_symbols_has_no_constant(run: Seq<char>, units: Set<Seq<char>>)
    ensures
        forall|i: int|
            0 <= i < split_symbols(run, units).len() ==> !(#[trigger] split_symbols(run, units)[i] is Constant),
    decreases run.len(),
{
    if run.len() > 0 {
        lemma_longest_unit(run, units, run.len());
        let n = longest_unit(run, units, run.len());
        let all = split_symbols(run, units);
        if n == 0 {
            let rest = split_symbols(run.skip(1), units);
            lemma_split_symbols_has_no_constant(run.skip(1), units);
            assert(all == seq![TokenView::Symbol(run[0])] + rest);
            assert forall|i: int| 0 <= i < all.len() implies !(#[trigger] all[i] is Constant) by {
                if i > 0 {
                    assert(all[i] == rest[i - 1]);
                }
            }
        } else {
            let rest = split_symbols(run.skip(n as int), units);
            lemma_split_symbols_has_no_constant(run.skip(n as int), units);
            assert(all == seq![TokenView::String(run.take(n as int))] + rest);
            assert forall|i: int| 0 <= i < all.len() implies !(#[trigger] all[i] is Constant) by {
                if i > 0 {
                    assert(all[i] == rest[i - 1]);
                }
            }
        }
    }
}

/// The tokens of a text that lexes hold only well-formed numbers.
pub proof fn lemma_lex_runs_constants(runs: Seq<Run>, units: Set<Seq<char>>)
    ensures
        lex_runs(runs, units) matches Ok(tokens) ==> constants_are_numbers(tokens),
    decreases runs.len(),
{
    if runs.len() > 0 {
        lemma_lex_runs_constants(runs.skip(1), units);
        if runs[0].0 == Category::Symbol {
            lemma_split_symbols_has_no_constant(runs[0].1, units);
        }
    }
}

/// The state of a [`TokenStream`]: its tokens and how many of them have been
/// read.
pub ghost struct Cursor {
    pub tokens: Seq<TokenView>,
    pub position: nat,
}

/// The tokens of one line, read one after the other from the left.
pub struct TokenStream<'a> {
    tokens: Vec<Token<'a>>,
    cursor: usize,
}

impl<'a> View for TokenStream<'a> {
    type V = Cursor;

    closed spec fn view(&self) -> Cursor {
        Cursor { tokens: tokens_of(self.tokens@), position: self.cursor as nat }
    }
}

impl<'a> TokenStream<'a> {
    /// What every stream satisfies: the position is within the tokens, and
    /// the constants are decimal numbers.
    #[verifier::type_invariant]
    pub closed spec fn well_formed(&self) -> bool {
        &&& self.cursor <= self.tokens.len()
        &&& constants_are_numbers(tokens_of(self.tokens@))
    }

    /// Tokenizes `string`. The tokens can then be taken with
    /// [`read`](TokenStream::read) or looked at with
    /// [`peek`](TokenStream::peek).
    ///
    /// `symbol_units` are the spellings, made of symbols, that become one
    /// `String` token each, so that `>=-` gives `>=` and `-`, not three
    /// symbols. The order of the list and repetitions in it play no part.
    ///
    /// Fails exactly where a run of digits and points is no decimal number,
    /// with the first such run.
    pub fn new(string: &'a str, symbol_units: &[&str]) -> (stream: Result<Self, ParseError>)
        ensures
            match lex(string@, texts(symbol_units@)) {
                Ok(tokens) => stream matches Ok(s) && s@.tokens == tokens && s@.position == 0,
                Err(literal) => stream matches Err(error) && error@ == (Failure::Tokenization { literal }),
            },
            stream matches Ok(s) ==> spelled(s@.tokens) == without_whitespace(string@),
    {
        proof {
            lemma_lex_spells(string@, texts(symbol_units@));
        }
        let ghost units = texts(symbol_units@);
        let ghost all = runs(string@);
        let segments = categorize(string);
        let mut tokens: Vec<Token<'a>> = Vec::new();
        let mut k: usize = 0;
        assert(all.skip(0) =~= all);
        assert(tokens_of(tokens@) =~= Seq::<TokenView>::empty());
        assert(after(tokens_of(tokens@), lex_runs(all, units)) =~= lex_runs(all, units)) by {
            if let Ok(whole) = lex_runs(all, units) {
                assert(tokens_of(tokens@) + whole =~= whole);
            }
        }
        while k < segments.len()
            invariant
                k <= segments.len(),
                units == texts(symbol_units@),
                all == runs(string@),
                runs_of(segments@) == all,
                lex_runs(all, units) == after(tokens_of(tokens@), lex_runs(all.skip(k as int), units)),
            decreases segments.len() - k,
        {
            let (category, text) = segments[k];
            let ghost run = all[k as int];
            let ghost done = tokens_of(tokens@);
            let ghost rest = lex_runs(all.skip(k + 1), units);
            assert(run == (category, text@));
            assert(all.skip(k as int)[0] == run);
            assert(all.skip(k as int).skip(1) =~= all.skip(k + 1));
            match category {
                Category::Alpha => {
                    tokens.push(Token::String(text));
                    assert(tokens_of(tokens@) =~= done + seq![TokenView::String(text@)]);
                },
                Category::Digit => {
                    if !is_number(text) {
                        return Err(ParseError::Tokenization { literal: text.to_owned() });
                    }
                    tokens.push(Token::Constant(text));
                    assert(tokens_of(tokens@) =~= done + seq![TokenView::Constant(text@)]);
                },
                Category::Symbol => {
                    push_symbols(&mut tokens, text, symbol_units);
                },
                Category::Whitespace => {
                    assert(tokens_of(tokens@) =~= done + Seq::<TokenView>::empty());
                },
            }
            proof {
                if let Ok(first) = run_tokens(run, units) {
                    assert(tokens_of(tokens@) == done + first);
                    if let Ok(more) = rest {
                        assert(done + (first + more) =~= (done + first) + more);
                    }
                }
            }
            k += 1;
        }
        proof {
            assert(all.skip(k as int) =~= Seq::<Run>::empty());
            assert(tokens_of(tokens@) + Seq::<TokenView>::empty() =~= tokens_of(tokens@));
            lemma_lex_runs_constants(all, units);
        }
        Ok(TokenStream { tokens, cursor: 0 })
    }

    /// Takes the next token from the stream; `None` where all have been
    /// read, and the stream then stays as it is.
    pub fn read(&mut self) -> (out: Option<&Token<'a>>)
        ensures
            final(self)@.tokens == old(self)@.tokens,
            old(self)@.position <= old(self)@.tokens.len(),
            constants_are_numbers(old(self)@.tokens),
            match out {
                Some(token) => {
                    &&& old(self)@.position < old(self)@.tokens.len()
                    &&& token@ == old(self)@.tokens[old(self)@.position as int]
                    &&& final(self)@.position == old(self)@.position + 1
                },
                None => {
                    &&& old(self)@.position == old(self)@.tokens.len()
                    &&& final(self)@.position == old(self)@.position
                },
            },
    {
        proof {
            use_type_invariant(&*self);
        }
        if self.cursor < self.tokens.len() {
            let at = self.cursor;
            self.cursor = at + 1;
            Some(&self.tokens[at])
        } else {
            None
        }
    }

    /// Passes over the next token without looking at it; at the end of the
    /// stream nothing changes.
    pub fn discard(&mut self)
        ensures
            final(self)@.tokens == old(self)@.tokens,
            final(self)@.position == if old(self)@.position < old(self)@.tokens.len() {
                old(self)@.position + 1
            } else {
                old(self)@.position
            },
    {
        proof {
            use_type_invariant(&*self);
        }
        if self.cursor < self.tokens.len() {
            self.cursor = self.cursor + 1;
        }
    }

    /// The next token, which stays in the stream; `None` where all have
    /// been read.
    pub fn peek(&self) -> (out: Option<&Token<'a>>)
        ensures
            self@.position <= self@.tokens.len(),
            constants_are_numbers(self@.tokens),
            match out {
                Some(token) => self@.position < self@.tokens.len() && token@ == self@.tokens[self@.position as int],
                None => self@.position == self@.tokens.len(),
            },
    {
        proof {
            use_type_invariant(self);
        }
        if self.cursor < self.tokens.len() {
            Some(&self.tokens[self.cursor])
        } else {
            None
        }
    }

    /// How many tokens have been read.
    pub fn position(&self) -> (position: usize)
        ensures
            position == self@.position,
            self@.position <= self@.tokens.len(),
            constants_are_numbers(self@.tokens),
    {
        proof {
            use_type_invariant(self);
        }
        self.cursor
    }

    /// All the tokens of the stream, read or not.
    pub fn tokens(&self) -> (tokens: &Vec<Token<'a>>)
        ensures
            tokens_of(tokens@) == self@.tokens,
    {
        &self.tokens
    }
}

} // verus!
