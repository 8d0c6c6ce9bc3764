//! Small helpers on text that the rest of the crate builds on.
use vstd::prelude::*;
use vstd::string::StringExecFns;
use vstd::string::{StrSliceExecFns, StringSliceAdditionalSpecFns};
use vstd::utf8::{
    decode_utf8, encode_scalar, encode_utf8, encode_utf8_decode_utf8, encode_utf8_first_scalar,
    encode_utf8_valid_utf8, is_char_boundary, length_of_first_scalar, pop_first_scalar,
};

verus! {

/// Every character is a Unicode scalar value.
pub proof fn lemma_char_range(c: char)
    ensures
        0 <= c as int <= 0xD7FF || 0xE000 <= c as int <= 0x10FFFF,
{
}

/// Every character of a sequence is a Unicode scalar value. The prover
/// knows this of a character by itself and needs the reminder for one that
/// is taken out of a sequence.
pub broadcast proof fn lemma_seq_char_range(s: Seq<char>, i: int)
    ensures
        0 <= (#[trigger] s[i]) as int <= 0xD7FF || 0xE000 <= s[i] as int <= 0x10FFFF,
{
    lemma_char_range(s[i]);
}

/// Whether two string slices hold the same characters.
///
/// The comparison runs over the UTF-8 bytes; equal bytes mean equal
/// characters because decoding undoes encoding.
pub fn str_eq(a: &str, b: &str) -> (equal: bool)
    ensures
        equal == (a@ == b@),
{
    let x = a.as_bytes();
    let y = b.as_bytes();
    proof {
        encode_utf8_decode_utf8(a@);
        encode_utf8_decode_utf8(b@);
    }
    if x.len() != y.len() {
        return false;
    }
    let mut i: usize = 0;
    while i < x.len()
        invariant
            x@ == encode_utf8(a@),
            y@ == encode_utf8(b@),
            decode_utf8(encode_utf8(a@)) == a@,
            decode_utf8(encode_utf8(b@)) == b@,
            x@.len() == y@.len(),
            i <= x@.len(),
            forall|j: int| 0 <= j < i ==> x@[j] == y@[j],
        decreases x.len() - i,
    {
        if x[i] != y[i] {
            return false;
        }
        i += 1;
    }
    assert(x@ =~= y@);
    true
}

/// A text has at most as many characters as its encoding has bytes.
pub proof fn lemma_encode_len(chars: Seq<char>)
    ensures
        chars.len() <= encode_utf8(chars).len(),
    decreases chars.len(),
{
    if chars.len() > 0 {
        lemma_encode_len(chars.drop_first());
    }
}

/// The encoding of two texts, one after the other, is the encoding of the
/// first, then that of the second.
pub proof fn lemma_encode_add(a: Seq<char>, b: Seq<char>)
    ensures
        encode_utf8(a + b) == encode_utf8(a) + encode_utf8(b),
    decreases a.len(),
{
    if a.len() == 0 {
        assert(a + b =~= b);
        assert(encode_utf8(a) + encode_utf8(b) =~= encode_utf8(b));
    } else {
        assert((a + b).drop_first() =~= a.drop_first() + b);
        assert((a + b)[0] == a[0]);
        lemma_encode_add(a.drop_first(), b);
        assert(encode_utf8(a + b) =~= encode_utf8(a) + encode_utf8(b));
    }
}

/// Where the encoding of a text ends within the encoding of a longer one,
/// a character ends too.
pub proof fn lemma_char_boundary(a: Seq<char>, b: Seq<char>)
    ensures
        is_char_boundary(encode_utf8(a + b), encode_utf8(a).len() as int),
    decreases a.len(),
{
    let whole = a + b;
    let bytes = encode_utf8(whole);
    encode_utf8_valid_utf8(whole);
    lemma_encode_add(a, b);
    if a.len() > 0 {
        encode_utf8_first_scalar(whole);
        encode_utf8_first_scalar(a);
        assert(whole[0] == a[0]);
        assert(whole.drop_first() =~= a.drop_first() + b);
        assert(pop_first_scalar(bytes) =~= encode_utf8(whole.drop_first()));
        assert(pop_first_scalar(encode_utf8(a)) =~= encode_utf8(a.drop_first()));
        lemma_char_boundary(a.drop_first(), b);
        assert(encode_utf8(a).len() - length_of_first_scalar(bytes) == encode_utf8(a.drop_first()).len());
    }
}

/// Splits `text` after its first `count` characters. The work grows with
/// `count`, not with the length of `text`.
pub fn split_chars<'a>(text: &'a str, count: usize) -> (parts: (&'a str, &'a str))
    requires
        count <= text@.len(),
    ensures
        parts.0@ == text@.take(count as int),
        parts.1@ == text@.skip(count as int),
{
    let ghost front = text@.take(count as int);
    let ghost back = text@.skip(count as int);
    let head = text.substring_char(0, count);
    let total = text.as_bytes().len();
    proof {
        assert(head@ =~= front);
        assert(front + back =~= text@);
        lemma_encode_add(front, back);
        lemma_char_boundary(front, back);
        encode_utf8_decode_utf8(front);
        encode_utf8_decode_utf8(back);
        assert(text.spec_bytes() == encode_utf8(front) + encode_utf8(back));
        assert(head.spec_bytes() == encode_utf8(front));
        assert(encode_utf8(front).len() <= total);
    }
    let cut = head.len();
    assert(cut == encode_utf8(front).len());
    let parts = text.split_at(cut);
    proof {
        let bytes = encode_utf8(text@);
        let cut = encode_utf8(front).len() as int;
        assert(bytes.subrange(0, cut) =~= encode_utf8(front));
        assert(bytes.subrange(cut, bytes.len() as int) =~= encode_utf8(back));
        encode_utf8_decode_utf8(parts.0@);
        encode_utf8_decode_utf8(parts.1@);
    }
    parts
}

/// The set of texts that a list of string slices holds.
pub open spec fn texts(list: Seq<&str>) -> Set<Seq<char>> {
    Set::new(|text: Seq<char>| exists|k: int| 0 <= k < list.len() && (#[trigger] list[k])@ == text)
}

/// Whether `list` holds a string with the characters of `text`.
pub fn contains_str(list: &[&str], text: &str) -> (found: bool)
    ensures
        found == texts(list@).contains(text@),
{
    let mut k: usize = 0;
    while k < list.len()
        invariant
            k <= list@.len(),
            forall|j: int| 0 <= j < k ==> (#[trigger] list@[j])@ != text@,
        decreases list.len() - k,
    {
        if str_eq(list[k], text) {
            return true;
        }
        k += 1;
    }
    false
}

/// Whether `c` is one of the decimal digits `0` to `9`.
pub open spec fn is_digit(c: char) -> bool {
    '0' <= c <= '9'
}

/// Whether `text` is a decimal number: digits and points only, at least one
/// digit, at most one point.
pub open spec fn is_decimal_literal(text: Seq<char>) -> bool {
    &&& forall|i: int| 0 <= i < text.len() ==> is_digit(#[trigger] text[i]) || text[i] == '.'
    &&& exists|i: int| 0 <= i < text.len() && is_digit(#[trigger] text[i])
    &&& forall|i: int, j: int| 0 <= i < j < text.len() ==> !(#[trigger] text[i] == '.' && #[trigger] text[j] == '.')
}

/// Whether `text` is a decimal number.
pub fn is_number(text: &str) -> (valid: bool)
    ensures
        valid == is_decimal_literal(text@),
{
    let mut seen_digit = false;
    let mut seen_point = false;
    for c in chars: text.chars()
        invariant
            chars.seq() == text@,
            forall|i: int| 0 <= i < chars.index() ==> is_digit(#[trigger] text@[i]) || text@[i] == '.',
            seen_digit <==> exists|i: int| 0 <= i < chars.index() && is_digit(#[trigger] text@[i]),
            seen_point <==> exists|i: int| 0 <= i < chars.index() && #[trigger] text@[i] == '.',
            forall|i: int, j: int|
                0 <= i < j < chars.index() ==> !(#[trigger] text@[i] == '.' && #[trigger] text@[j] == '.'),
    {
        let ghost at = chars.index();
        assert(text@[at] == c);
        if '0' <= c && c <= '9' {
            seen_digit = true;
        } else if c == '.' {
            if seen_point {
                return false;
            }
            seen_point = true;
        } else {
            return false;
        }
    }
    seen_digit
}

/// The digit that writes `d`, for `d` below ten.
pub open spec fn digit_of(d: nat) -> char {
    if d == 0 {
        '0'
    } else if d == 1 {
        '1'
    } else if d == 2 {
        '2'
    } else if d == 3 {
        '3'
    } else if d == 4 {
        '4'
    } else if d == 5 {
        '5'
    } else if d == 6 {
        '6'
    } else if d == 7 {
        '7'
    } else if d == 8 {
        '8'
    } else {
        '9'
    }
}

/// `n` written in decimal, without leading zeros.
pub open spec fn decimal(n: nat) -> Seq<char>
    decreases n,
{
    if n < 10 {
        seq![digit_of(n)]
    } else {
        decimal(n / 10).push(digit_of(n % 10))
    }
}

/// The digit that writes `d`, as a string.
fn digit_str(d: usize) -> (digit: &'static str)
    requires
        d < 10,
    ensures
        digit@ == seq![digit_of(d as nat)],
{
    proof {
        reveal_strlit("0");
        reveal_strlit("1");
        reveal_strlit("2");
        reveal_strlit("3");
        reveal_strlit("4");
        reveal_strlit("5");
        reveal_strlit("6");
        reveal_strlit("7");
        reveal_strlit("8");
        reveal_strlit("9");
    }
    let digit = match d {
        0 => "0",
        1 => "1",
        2 => "2",
        3 => "3",
        4 => "4",
        5 => "5",
        6 => "6",
        7 => "7",
        8 => "8",
        _ => "9",
    };
    assert(digit@ =~= seq![digit_of(d as nat)]);
    digit
}

/// Appends `n`, written in decimal, to `text`.
pub fn push_decimal(text: &mut String, n: usize)
    ensures
        final(text)@ == old(text)@ + decimal(n as nat),
    decreases n,
{
    if n < 10 {
        text.append(digit_str(n));
    } else {
        push_decimal(text, n / 10);
        text.append(digit_str(n % 10));
        assert(text@ =~= old(text)@ + decimal(n as nat));
    }
}

} // verus!
