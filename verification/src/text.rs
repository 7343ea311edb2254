//! Decimal text: which character sequences write an integer, which integer
//! they write, and how an integer is written back.
use crate::digits::{
    all_digits, canonical, digits_of, digits_value, lemma_canonical_zero, lemma_digits_of,
    lemma_digits_of_value, lemma_value_first,
};
use vstd::prelude::*;

verus! {

/// `c` is one of the characters `0` to `9`.
pub open spec fn is_digit_char(c: char) -> bool {
    '0' <= c && c <= '9'
}

/// The digit that the character `c` stands for.
pub open spec fn digit_of_char(c: char) -> u8 {
    (c as int - '0' as int) as u8
}

/// The character that stands for the digit `d`.
pub open spec fn char_of_digit(d: u8) -> char {
    (d as int + '0' as int) as char
}

/// Every character of `s` is a decimal digit.
pub open spec fn all_digit_chars(s: Seq<char>) -> bool {
    forall|i: int| 0 <= i < s.len() ==> is_digit_char(s[i])
}

/// The digits that the characters of `s` stand for.
pub open spec fn text_digits(s: Seq<char>) -> Seq<u8> {
    Seq::new(s.len(), |i: int| digit_of_char(s[i]))
}

/// The characters that stand for the digits of `s`.
pub open spec fn digits_text(s: Seq<u8>) -> Seq<char> {
    Seq::new(s.len(), |i: int| char_of_digit(s[i]))
}

/// `t` starts with a sign character.
pub open spec fn has_sign(t: Seq<char>) -> bool {
    t.len() > 0 && (t[0] == '+' || t[0] == '-')
}

/// `t` starts with a minus sign.
pub open spec fn is_negative_text(t: Seq<char>) -> bool {
    t.len() > 0 && t[0] == '-'
}

/// `t` without its leading sign character, if it has one.
pub open spec fn unsigned_part(t: Seq<char>) -> Seq<char> {
    if has_sign(t) {
        t.skip(1)
    } else {
        t
    }
}

/// `t` writes an integer: an optional single `+` or `-`, then one or more
/// decimal digits and nothing else.
pub open spec fn valid_decimal(t: Seq<char>) -> bool {
    unsigned_part(t).len() >= 1 && all_digit_chars(unsigned_part(t))
}

/// The integer that the valid text `t` writes.
pub open spec fn decimal_value(t: Seq<char>) -> int {
    let magnitude = digits_value(text_digits(unsigned_part(t)));
    if is_negative_text(t) {
        -magnitude
    } else {
        magnitude as int
    }
}

/// The canonical text of the integer `n`: a minus sign if `n` is negative,
/// then the digits of its magnitude without leading zeros.
pub open spec fn decimal_text(n: int) -> Seq<char> {
    if n < 0 {
        seq!['-'] + digits_text(digits_of((-n) as nat))
    } else {
        digits_text(digits_of(n as nat))
    }
}

/// `s` without its leading `0` characters, except that the last character
/// always stays.
pub open spec fn strip_leading_zeros(s: Seq<char>) -> Seq<char>
    decreases s.len(),
{
    if s.len() > 1 && s[0] == '0' {
        strip_leading_zeros(s.drop_first())
    } else {
        s
    }
}

/// The canonical form of the valid text `t`: no `+`, no leading zeros, and a
/// `-` only in front of a number other than zero.
pub open spec fn canonical_text(t: Seq<char>) -> Seq<char> {
    let body = strip_leading_zeros(unsigned_part(t));
    if is_negative_text(t) && body != seq!['0'] {
        seq!['-'] + body
    } else {
        body
    }
}

/// Digit characters stand for decimal digits.
pub proof fn lemma_text_digits(s: Seq<char>)
    requires
        all_digit_chars(s),
    ensures
        all_digits(text_digits(s)),
        digits_text(text_digits(s)) == s,
{
    assert(digits_text(text_digits(s)) =~= s);
}

/// Decimal digits are written as digit characters.
pub proof fn lemma_digits_text(s: Seq<u8>)
    requires
        all_digits(s),
    ensures
        all_digit_chars(digits_text(s)),
        text_digits(digits_text(s)) == s,
{
    assert(text_digits(digits_text(s)) =~= s);
}

/// Stripping leading zeros leaves digit characters that stand for the
/// canonical digits of the same number.
pub proof fn lemma_strip_leading_zeros(s: Seq<char>)
    requires
        s.len() >= 1,
        all_digit_chars(s),
    ensures
        all_digit_chars(strip_leading_zeros(s)),
        canonical(text_digits(strip_leading_zeros(s))),
        digits_value(text_digits(strip_leading_zeros(s))) == digits_value(text_digits(s)),
    decreases s.len(),
{
    lemma_text_digits(s);
    if s.len() > 1 && s[0] == '0' {
        let rest = s.drop_first();
        lemma_strip_leading_zeros(rest);
        lemma_value_first(text_digits(s));
        assert(text_digits(s).drop_first() =~= text_digits(rest));
        assert(text_digits(s)[0] == 0);
    } else {
        assert(text_digits(s)[0] == digit_of_char(s[0]));
    }
}

/// Parsing a valid text and writing the number back gives the canonical form
/// of the text.
pub proof fn lemma_text_of_value(t: Seq<char>)
    requires
        valid_decimal(t),
    ensures
        decimal_text(decimal_value(t)) == canonical_text(t),
{
    let body = strip_leading_zeros(unsigned_part(t));
    let digits = text_digits(body);
    let m = digits_value(digits);
    lemma_strip_leading_zeros(unsigned_part(t));
    lemma_digits_of_value(digits);
    lemma_text_digits(body);
    lemma_canonical_zero(digits);
    if body == seq!['0'] {
        assert(digits =~= seq![0u8]);
    }
    if m == 0 {
        assert(digits_text(seq![0u8]) =~= seq!['0']);
    }
}

/// Writing an integer gives a valid text that parses back to the integer, and
/// that is its own canonical form.
pub proof fn lemma_value_of_text(n: int)
    ensures
        valid_decimal(decimal_text(n)),
        decimal_value(decimal_text(n)) == n,
        canonical_text(decimal_text(n)) == decimal_text(n),
{
    let m = (if n < 0 {
        -n
    } else {
        n
    }) as nat;
    let digits = digits_of(m);
    let body = digits_text(digits);
    let t = decimal_text(n);
    lemma_digits_of(m);
    lemma_digits_text(digits);
    assert(body[0] == char_of_digit(digits[0]));
    if n < 0 {
        assert(t.skip(1) =~= body);
        assert(t[0] == '-');
    } else {
        assert(t == body);
        assert(is_digit_char(t[0]));
    }
    assert(unsigned_part(t) == body);
    lemma_text_of_value(t);
}

} // verus!
