//! What holds of the tokens of every text.
use crate::parser::tokenizer::{
    after, category_of, joined, lemma_longest_unit, lemma_run_length_bounds, lemma_run_length_is,
    lemma_runs_are_maximal, lemma_runs_cover, lex, lex_runs, longest_unit, run_length, run_tokens, runs,
    split_symbols, Category, Run, TokenView,
};
use crate::text::lemma_seq_char_range;
use vstd::prelude::*;

verus! {

broadcast use lemma_seq_char_range;

/// Whether `parts` cut `text` into stretches of one class each, none of them
/// empty and none that could be longer.
pub open spec fn is_categorization(text: Seq<char>, parts: Seq<Run>) -> bool {
    &&& joined(parts) == text
    &&& forall|k: int|
        0 <= k < parts.len() ==> {
            let part = #[trigger] parts[k];
            &&& part.1.len() > 0
            &&& forall|j: int| 0 <= j < part.1.len() ==> category_of(#[trigger] part.1[j]) == part.0
        }
    &&& forall|k: int| 0 <= k < parts.len() - 1 ==> (#[trigger] parts[k]).0 != parts[k + 1].0
}

/// The runs of a text cut it into stretches of one class each, none of them
/// empty and none that could be longer.
pub proof fn lemma_runs_categorize(text: Seq<char>)
    ensures
        is_categorization(text, runs(text)),
{
    lemma_runs_cover(text);
    lemma_runs_are_maximal(text);
}

/// A text can be cut in one way only: its runs are determined by its
/// characters.
pub proof fn lemma_categorization_is_unique(text: Seq<char>, parts: Seq<Run>)
    requires
        is_categorization(text, parts),
    ensures
        parts == runs(text),
    decreases parts.len(),
{
    if parts.len() == 0 {
        assert(text.len() == 0);
        assert(parts =~= runs(text));
    } else {
        let first = parts[0];
        let rest = parts.skip(1);
        let n = first.1.len();
        assert(text == first.1 + joined(rest));
        assert forall|j: int| 0 <= j < n implies category_of(#[trigger] text[j]) == category_of(text[0]) by {
            assert(text[j] == first.1[j]);
            assert(text[0] == first.1[0]);
        }
        assert(category_of(text[0]) == first.0) by {
            assert(text[0] == first.1[0]);
        }
        if rest.len() == 0 {
            assert(joined(rest) =~= Seq::<char>::empty());
        } else {
            let second = rest[0];
            assert(second == parts[1]);
            assert(joined(rest) == second.1 + joined(rest.skip(1)));
            assert(text[n as int] == second.1[0]);
            assert(category_of(second.1[0]) == second.0);
            assert(parts[0].0 != parts[1].0);
        }
        lemma_run_length_is(text, n);
        assert(text.take(n as int) =~= first.1);
        assert(text.skip(n as int) =~= joined(rest));
        assert(is_categorization(text.skip(n as int), rest)) by {
            assert forall|k: int| 0 <= k < rest.len() implies {
                let part = #[trigger] rest[k];
                &&& part.1.len() > 0
                &&& forall|j: int| 0 <= j < part.1.len() ==> category_of(#[trigger] part.1[j]) == part.0
            } by {
                assert(rest[k] == parts[k + 1]);
            }
            assert forall|k: int| 0 <= k < rest.len() - 1 implies (#[trigger] rest[k]).0 != rest[k + 1].0 by {
                assert(rest[k] == parts[k + 1]);
                assert(rest[k + 1] == parts[k + 2]);
            }
        }
        lemma_categorization_is_unique(text.skip(n as int), rest);
        assert(parts =~= seq![first] + rest);
    }
}

/// The characters that a token was made of.
pub open spec fn spelling(token: TokenView) -> Seq<char> {
    match token {
        TokenView::Symbol(c) => seq![c],
        TokenView::Constant(text) => text,
        TokenView::String(text) => text,
    }
}

/// The characters that `tokens` were made of, one token after the other.
pub open spec fn spelled(tokens: Seq<TokenView>) -> Seq<char>
    decreases tokens.len(),
{
    if tokens.len() == 0 {
        Seq::empty()
    } else {
        spelled(tokens.drop_last()) + spelling(tokens.last())
    }
}

/// Whether `c` is no whitespace.
pub open spec fn is_visible() -> spec_fn(char) -> bool {
    |c: char| category_of(c) != Category::Whitespace
}

/// `text` with its whitespace taken out.
pub open spec fn without_whitespace(text: Seq<char>) -> Seq<char> {
    text.filter(is_visible())
}

/// Spelling goes through concatenation.
pub proof fn lemma_spelled_add(a: Seq<TokenView>, b: Seq<TokenView>)
    ensures
        spelled(a + b) == spelled(a) + spelled(b),
    decreases b.len(),
{
    if b.len() == 0 {
        assert(a + b =~= a);
        assert(spelled(a) + spelled(b) =~= spelled(a));
    } else {
        assert((a + b).drop_last() =~= a + b.drop_last());
        assert((a + b).last() == b.last());
        lemma_spelled_add(a, b.drop_last());
        assert(spelled(a + b) =~= spelled(a) + spelled(b));
    }
}

/// The spelling of a single token.
pub proof fn lemma_spelled_one(token: TokenView)
    ensures
        spelled(seq![token]) == spelling(token),
{
    let one = seq![token];
    assert(one.drop_last() =~= Seq::<TokenView>::empty());
    assert(spelled(one.drop_last()) =~= Seq::<char>::empty());
    assert(spelled(one) =~= spelling(token));
}

/// Cutting a run of symbols into tokens loses no character and adds none.
pub proof fn lemma_split_symbols_spells(run: Seq<char>, units: Set<Seq<char>>)
    ensures
        spelled(split_symbols(run, units)) == run,
    decreases run.len(),
{
    if run.len() > 0 {
        lemma_longest_unit(run, units, run.len());
        let n = longest_unit(run, units, run.len());
        if n == 0 {
            let first = TokenView::Symbol(run[0]);
            lemma_split_symbols_spells(run.skip(1), units);
            lemma_spelled_add(seq![first], split_symbols(run.skip(1), units));
            lemma_spelled_one(first);
            assert(seq![run[0]] + run.skip(1) =~= run);
        } else {
            let first = TokenView::String(run.take(n as int));
            lemma_split_symbols_spells(run.skip(n as int), units);
            lemma_spelled_add(seq![first], split_symbols(run.skip(n as int), units));
            lemma_spelled_one(first);
            assert(run.take(n as int) + run.skip(n as int) =~= run);
        }
    }
}

/// A text of visible characters stays as it is, and one of whitespace
/// vanishes, when the whitespace is taken out.
pub proof fn lemma_without_whitespace_uniform(text: Seq<char>)
    ensures
        (forall|i: int| 0 <= i < text.len() ==> category_of(#[trigger] text[i]) != Category::Whitespace)
            ==> without_whitespace(text) == text,
        (forall|i: int| 0 <= i < text.len() ==> category_of(#[trigger] text[i]) == Category::Whitespace)
            ==> without_whitespace(text) == Seq::<char>::empty(),
    decreases text.len(),
{
    reveal(Seq::filter);
    if text.len() > 0 {
        lemma_without_whitespace_uniform(text.drop_last());
        assert(text.drop_last().push(text.last()) =~= text);
    }
}

/// The tokens of a run are made of its characters, but for a run of
/// whitespace, which leaves no token.
pub proof fn lemma_run_tokens_spell(run: Run, units: Set<Seq<char>>)
    requires
        forall|j: int| 0 <= j < run.1.len() ==> category_of(#[trigger] run.1[j]) == run.0,
    ensures
        run_tokens(run, units) matches Ok(tokens) ==> spelled(tokens) == without_whitespace(run.1),
        run.0 == Category::Whitespace ==> run_tokens(run, units) == Ok::<Seq<TokenView>, Seq<char>>(Seq::empty()),
{
    lemma_without_whitespace_uniform(run.1);
    match run.0 {
        Category::Alpha => {
            lemma_spelled_one(TokenView::String(run.1));
        },
        Category::Digit => {
            lemma_spelled_one(TokenView::Constant(run.1));
        },
        Category::Symbol => {
            lemma_split_symbols_spells(run.1, units);
        },
        Category::Whitespace => {},
    }
}

/// The tokens of runs that are each of one class are made of the characters
/// of the runs, in order, without the whitespace.
pub proof fn lemma_lex_runs_spell(runs: Seq<Run>, units: Set<Seq<char>>)
    requires
        forall|k: int, j: int|
            0 <= k < runs.len() && 0 <= j < runs[k].1.len() ==> category_of(#[trigger] runs[k].1[j]) == runs[k].0,
    ensures
        lex_runs(runs, units) matches Ok(tokens) ==> spelled(tokens) == without_whitespace(joined(runs)),
    decreases runs.len(),
{
    if runs.len() == 0 {
        lemma_without_whitespace_uniform(Seq::<char>::empty());
    } else {
        let rest = runs.skip(1);
        assert forall|k: int, j: int| 0 <= k < rest.len() && 0 <= j < rest[k].1.len() implies category_of(
            #[trigger] rest[k].1[j],
        ) == rest[k].0 by {
            assert(rest[k] == runs[k + 1]);
        }
        lemma_lex_runs_spell(rest, units);
        lemma_run_tokens_spell(runs[0], units);
        if let Ok(head) = run_tokens(runs[0], units) {
            if let Ok(tail) = lex_runs(rest, units) {
                lemma_spelled_add(head, tail);
                Seq::filter_distributes_over_add(runs[0].1, joined(rest), is_visible());
            }
        }
    }
}

/// Whitespace leaves no trace among the tokens: put together, the tokens of
/// a text are the text without its whitespace, and nothing else is lost.
pub proof fn lemma_lex_spells(text: Seq<char>, units: Set<Seq<char>>)
    ensures
        lex(text, units) matches Ok(tokens) ==> spelled(tokens) == without_whitespace(text),
{
    lemma_runs_are_maximal(text);
    lemma_runs_cover(text);
    let all = runs(text);
    assert forall|k: int, j: int| 0 <= k < all.len() && 0 <= j < all[k].1.len() implies category_of(
        #[trigger] all[k].1[j],
    ) == all[k].0 by {
        let run = all[k];
        assert(category_of(run.1[j]) == run.0);
    }
    lemma_lex_runs_spell(all, units);
}

/// Whether `tokens` cut `run` so that each `String` is the longest of
/// `units` that begins at its place, and each `Symbol` is a character at
/// which none of `units` begins.
pub open spec fn is_greedy(run: Seq<char>, units: Set<Seq<char>>, tokens: Seq<TokenView>) -> bool
    decreases tokens.len(),
{
    if tokens.len() == 0 {
        run.len() == 0
    } else {
        match tokens[0] {
            TokenView::String(text) => {
                &&& 1 <= text.len() <= run.len()
                &&& run.take(text.len() as int) == text
                &&& units.contains(text)
                &&& forall|k: int| text.len() < k <= run.len() ==> !units.contains(#[trigger] run.take(k))
                &&& is_greedy(run.skip(text.len() as int), units, tokens.skip(1))
            },
            TokenView::Symbol(c) => {
                &&& 1 <= run.len()
                &&& run[0] == c
                &&& forall|k: int| 1 <= k <= run.len() ==> !units.contains(#[trigger] run.take(k))
                &&& is_greedy(run.skip(1), units, tokens.skip(1))
            },
            TokenView::Constant(text) => false,
        }
    }
}

/// The tokens of a run of symbols prefer, at each place, the longest unit
/// that begins there to every shorter one and to single characters.
pub proof fn lemma_split_symbols_is_greedy(run: Seq<char>, units: Set<Seq<char>>)
    ensures
        is_greedy(run, units, split_symbols(run, units)),
    decreases run.len(),
{
    if run.len() > 0 {
        lemma_longest_unit(run, units, run.len());
        let n = longest_unit(run, units, run.len());
        let tokens = split_symbols(run, units);
        if n == 0 {
            lemma_split_symbols_is_greedy(run.skip(1), units);
            assert(tokens.skip(1) =~= split_symbols(run.skip(1), units));
            assert(tokens[0] == TokenView::Symbol(run[0]));
        } else {
            lemma_split_symbols_is_greedy(run.skip(n as int), units);
            assert(tokens.skip(1) =~= split_symbols(run.skip(n as int), units));
            assert(tokens[0] == TokenView::String(run.take(n as int)));
        }
    }
}

/// There is one way only to cut a run of symbols greedily: the tokens are
/// determined by the run and the set of units.
pub proof fn lemma_greedy_is_unique(run: Seq<char>, units: Set<Seq<char>>, tokens: Seq<TokenView>)
    requires
        is_greedy(run, units, tokens),
    ensures
        tokens == split_symbols(run, units),
    decreases tokens.len(),
{
    if tokens.len() > 0 {
        lemma_longest_unit(run, units, run.len());
        let n = longest_unit(run, units, run.len());
        match tokens[0] {
            TokenView::String(text) => {
                assert(run.take(text.len() as int) == text);
                assert(n == text.len());
                lemma_greedy_is_unique(run.skip(n as int), units, tokens.skip(1));
                assert(tokens =~= seq![tokens[0]] + tokens.skip(1));
            },
            TokenView::Symbol(c) => {
                if n > 0 {
                    assert(units.contains(run.take(n as int)));
                }
                assert(n == 0);
                lemma_greedy_is_unique(run.skip(1), units, tokens.skip(1));
                assert(tokens =~= seq![tokens[0]] + tokens.skip(1));
            },
            TokenView::Constant(text) => {},
        }
    } else {
        assert(run.len() == 0);
    }
}

/// Whether `c` is one of the characters that keep the parts of a call
/// apart: the parentheses and the comma.
pub open spec fn is_separator(c: char) -> bool {
    c == '(' || c == ')' || c == ','
}

/// Whether no unit holds a parenthesis or a comma.
pub open spec fn is_plain(units: Set<Seq<char>>) -> bool {
    forall|unit: Seq<char>, i: int|
        #![trigger units.contains(unit), unit[i]]
        units.contains(unit) && 0 <= i < unit.len() ==> !is_separator(unit[i])
}

/// Where no prefix longer than `short` is a unit, the search for the
/// longest unit may as well begin at `short`.
pub proof fn lemma_longest_unit_within(run: Seq<char>, units: Set<Seq<char>>, limit: nat, short: nat)
    requires
        short <= limit,
        forall|k: int| short < k <= limit ==> !units.contains(#[trigger] run.take(k)),
    ensures
        longest_unit(run, units, limit) == longest_unit(run, units, short),
    decreases limit,
{
    if short < limit {
        assert(!units.contains(run.take(limit as int)));
        lemma_longest_unit_within(run, units, (limit - 1) as nat, short);
    }
}

/// The longest unit within a limit depends on the characters up to the
/// limit only.
pub proof fn lemma_longest_unit_of_prefix(run: Seq<char>, other: Seq<char>, units: Set<Seq<char>>, limit: nat)
    requires
        limit <= run.len(),
        limit <= other.len(),
        run.take(limit as int) == other.take(limit as int),
    ensures
        longest_unit(run, units, limit) == longest_unit(other, units, limit),
    decreases limit,
{
    if limit > 0 {
        assert(run.take(limit - 1) =~= run.take(limit as int).take(limit - 1));
        assert(other.take(limit - 1) =~= other.take(limit as int).take(limit - 1));
        lemma_longest_unit_of_prefix(run, other, units, (limit - 1) as nat);
    }
}

/// Two runs of symbols that meet at a parenthesis or a comma are cut
/// together as they are cut apart: no token reaches across.
pub proof fn lemma_split_symbols_join(x: Seq<char>, y: Seq<char>, units: Set<Seq<char>>)
    requires
        is_plain(units),
        x.len() > 0,
        y.len() > 0,
        is_separator(x.last()) || is_separator(y[0]),
    ensures
        split_symbols(x + y, units) == split_symbols(x, units) + split_symbols(y, units),
    decreases x.len(),
{
    let z = x + y;
    assert forall|k: int| x.len() < k <= z.len() implies !units.contains(#[trigger] z.take(k)) by {
        let prefix = z.take(k);
        assert(prefix[x.len() - 1] == x.last());
        assert(prefix[x.len() as int] == y[0]);
    }
    lemma_longest_unit_within(z, units, z.len(), x.len());
    assert(z.take(x.len() as int) =~= x.take(x.len() as int));
    lemma_longest_unit_of_prefix(z, x, units, x.len());
    lemma_longest_unit(x, units, x.len());
    let n = longest_unit(x, units, x.len());
    assert(n == longest_unit(z, units, z.len()));
    let step: int = if n == 0 { 1 } else { n as int };
    assert(z.skip(step) =~= x.skip(step) + y);
    assert(z.take(step) =~= x.take(step));
    assert(z[0] == x[0]);
    if step < x.len() {
        assert(x.skip(step).last() == x.last());
        lemma_split_symbols_join(x.skip(step), y, units);
    } else {
        assert(x.skip(step) =~= Seq::<char>::empty());
        assert(split_symbols(x.skip(step), units) =~= Seq::<TokenView>::empty());
        assert(x.skip(step) + y =~= y);
    }
    let first = if n == 0 { TokenView::Symbol(x[0]) } else { TokenView::String(x.take(n as int)) };
    assert(split_symbols(x, units) == seq![first] + split_symbols(x.skip(step), units));
    assert(split_symbols(z, units) == seq![first] + split_symbols(z.skip(step), units));
    assert(seq![first] + (split_symbols(x.skip(step), units) + split_symbols(y, units)) =~= (seq![first]
        + split_symbols(x.skip(step), units)) + split_symbols(y, units));
}

/// The tokens of a text are those of its first run, then those of the rest.
pub proof fn lemma_lex_step(text: Seq<char>, units: Set<Seq<char>>)
    requires
        text.len() > 0,
    ensures
        lex(text, units) == match run_tokens(
            (category_of(text[0]), text.take(run_length(text) as int)),
            units,
        ) {
            Err(literal) => Err(literal),
            Ok(first) => after(first, lex(text.skip(run_length(text) as int), units)),
        },
{
    lemma_run_length_bounds(text);
    let n = run_length(text) as int;
    let all = runs(text);
    assert(all[0] == (category_of(text[0]), text.take(n)));
    assert(all.skip(1) =~= runs(text.skip(n)));
}

/// The text without characters has no token.
pub proof fn lemma_lex_empty(units: Set<Seq<char>>)
    ensures
        lex(Seq::<char>::empty(), units) == Ok::<Seq<TokenView>, Seq<char>>(Seq::empty()),
{
}

/// The tokens of a text of one class are those of its one run.
pub proof fn lemma_lex_one_run(text: Seq<char>, units: Set<Seq<char>>)
    requires
        text.len() > 0,
        forall|i: int| 0 <= i < text.len() ==> category_of(#[trigger] text[i]) == category_of(text[0]),
    ensures
        lex(text, units) == run_tokens((category_of(text[0]), text), units),
{
    lemma_run_length_is(text, text.len());
    lemma_lex_step(text, units);
    lemma_lex_empty(units);
    assert(text.take(text.len() as int) =~= text);
    assert(text.skip(text.len() as int) =~= Seq::<char>::empty());
    if let Ok(first) = run_tokens((category_of(text[0]), text), units) {
        assert(first + Seq::<TokenView>::empty() =~= first);
    }
}

/// Whether tokenizing `a` and `b` one after the other is the same as
/// tokenizing them apart: one of them is empty, or they meet in characters
/// of different classes, or they meet in symbols of which one is a
/// parenthesis or a comma.
pub open spec fn meets_cleanly(a: Seq<char>, b: Seq<char>) -> bool {
    ||| a.len() == 0
    ||| b.len() == 0
    ||| category_of(a.last()) != category_of(b[0])
    ||| (category_of(a.last()) == Category::Symbol && (is_separator(a.last()) || is_separator(b[0])))
}

/// Where two texts meet cleanly, the tokens of the whole are the tokens of
/// the first, then those of the second.
pub proof fn lemma_lex_join(a: Seq<char>, b: Seq<char>, units: Set<Seq<char>>)
    requires
        is_plain(units),
        meets_cleanly(a, b),
    ensures
        lex(a + b, units) == match lex(a, units) {
            Err(literal) => Err(literal),
            Ok(first) => after(first, lex(b, units)),
        },
    decreases a.len(),
{
    let z = a + b;
    if a.len() == 0 {
        assert(z =~= b);
        lemma_lex_empty(units);
        if let Ok(tokens) = lex(b, units) {
            assert(Seq::<TokenView>::empty() + tokens =~= tokens);
        }
    } else if b.len() == 0 {
        assert(z =~= a);
        lemma_lex_empty(units);
        if let Ok(tokens) = lex(a, units) {
            assert(tokens + Seq::<TokenView>::empty() =~= tokens);
        }
    } else {
        lemma_run_length_bounds(a);
        lemma_run_length_bounds(b);
        let n = run_length(a);
        let class = category_of(a[0]);
        assert(z[0] == a[0]);
        lemma_lex_step(a, units);
        lemma_lex_step(z, units);
        if n < a.len() {
            assert forall|j: int| 0 <= j < n implies category_of(#[trigger] z[j]) == category_of(z[0]) by {
                assert(z[j] == a[j]);
            }
            assert(z[n as int] == a[n as int]);
            lemma_run_length_is(z, n);
            assert(z.take(n as int) =~= a.take(n as int));
            assert(z.skip(n as int) =~= a.skip(n as int) + b);
            assert(a.skip(n as int).last() == a.last());
            lemma_lex_join(a.skip(n as int), b, units);
            if let Ok(first) = run_tokens((class, a.take(n as int)), units) {
                if let Ok(middle) = lex(a.skip(n as int), units) {
                    if let Ok(last) = lex(b, units) {
                        assert(first + (middle + last) =~= (first + middle) + last);
                    }
                }
            }
        } else {
            lemma_lex_empty(units);
            assert(a.take(n as int) =~= a);
            assert(a.skip(n as int) =~= Seq::<char>::empty());
            assert(category_of(a.last()) == class);
            if category_of(b[0]) != class {
                assert forall|j: int| 0 <= j < n implies category_of(#[trigger] z[j]) == category_of(z[0]) by {
                    assert(z[j] == a[j]);
                }
                assert(z[n as int] == b[0]);
                lemma_run_length_is(z, n);
                assert(z.take(n as int) =~= a);
                assert(z.skip(n as int) =~= b);
                if let Ok(first) = run_tokens((class, a), units) {
                    assert(first + Seq::<TokenView>::empty() =~= first);
                }
            } else {
                let m = run_length(b);
                lemma_lex_step(b, units);
                assert forall|j: int| 0 <= j < n + m implies category_of(#[trigger] z[j]) == category_of(z[0]) by {
                    if j < n {
                        assert(z[j] == a[j]);
                    } else {
                        assert(z[j] == b[j - n]);
                    }
                }
                if n + m < z.len() {
                    assert(z[(n + m) as int] == b[m as int]);
                }
                lemma_run_length_is(z, n + m);
                let y = b.take(m as int);
                assert(z.take((n + m) as int) =~= a + y);
                assert(z.skip((n + m) as int) =~= b.skip(m as int));
                assert(y[0] == b[0]);
                lemma_split_symbols_join(a, y, units);
                let first = split_symbols(a, units);
                let second = split_symbols(y, units);
                assert(first + Seq::<TokenView>::empty() =~= first);
                if let Ok(last) = lex(b.skip(m as int), units) {
                    assert((first + second) + last =~= first + (second + last));
                }
            }
        }
    }
}

} // verus!
