//! Decimal digit sequences and the numbers they write.
//!
//! A magnitude is a `Seq<u8>` of decimal digits, most significant digit first.
//! This module defines what number such a sequence denotes, what it means for
//! the sequence to be canonical, and the arithmetic facts about both that the
//! executable code relies on.
use vstd::prelude::*;

verus! {

/// Ten to the power `e`.
pub open spec fn pow10(e: nat) -> nat
    decreases e,
{
    if e == 0 {
        1
    } else {
        10 * pow10((e - 1) as nat)
    }
}

/// The number written by `s`, read most significant digit first.
///
/// The definition does not ask the elements to be below ten: an element `d` at
/// distance `k` from the end always contributes `d * 10^k`.  The in-place
/// algorithms use this while a slot transiently holds more than one digit.
pub open spec fn digits_value(s: Seq<u8>) -> nat
    decreases s.len(),
{
    if s.len() == 0 {
        0
    } else {
        10 * digits_value(s.drop_last()) + s.last() as nat
    }
}

/// Every element of `s` is a decimal digit.
pub open spec fn all_digits(s: Seq<u8>) -> bool {
    forall|i: int| 0 <= i < s.len() ==> s[i] <= 9
}

/// `s` is the canonical way to write its number: at least one digit, only
/// decimal digits, and no leading zero except in the single digit `0`.
pub open spec fn canonical(s: Seq<u8>) -> bool {
    &&& s.len() >= 1
    &&& all_digits(s)
    &&& (s.len() > 1 ==> s[0] != 0)
}

/// The canonical digits of `n`.
pub open spec fn digits_of(n: nat) -> Seq<u8>
    decreases n,
{
    if n < 10 {
        seq![n as u8]
    } else {
        digits_of(n / 10).push((n % 10) as u8)
    }
}

/// A power of ten is at least one.
pub proof fn lemma_pow10_positive(e: nat)
    ensures
        pow10(e) >= 1,
    decreases e,
{
    if e > 0 {
        lemma_pow10_positive((e - 1) as nat);
    }
}

/// Exponents add where powers multiply.
pub proof fn lemma_pow10_add(a: nat, b: nat)
    ensures
        pow10(a + b) == pow10(a) * pow10(b),
    decreases a,
{
    if a == 0 {
        assert(pow10(0) * pow10(b) == pow10(b)) by (nonlinear_arith)
            requires
                pow10(0) == 1,
        ;
    } else {
        let a1 = (a - 1) as nat;
        lemma_pow10_add(a1, b);
        assert(pow10(a + b) == 10 * pow10(a1 + b));
        assert(10 * (pow10(a1) * pow10(b)) == (10 * pow10(a1)) * pow10(b)) by (nonlinear_arith);
    }
}

/// A larger exponent gives no smaller power.
pub proof fn lemma_pow10_monotonic(a: nat, b: nat)
    requires
        a <= b,
    ensures
        pow10(a) <= pow10(b),
    decreases b,
{
    if a < b {
        lemma_pow10_monotonic(a, (b - 1) as nat);
    }
}

/// Appending a digit multiplies by ten and adds the digit.
pub proof fn lemma_value_push(s: Seq<u8>, d: u8)
    ensures
        digits_value(s.push(d)) == 10 * digits_value(s) + d,
{
    assert(s.push(d).drop_last() =~= s);
}

/// A single element writes itself.
pub proof fn lemma_value_single(d: u8)
    ensures
        digits_value(seq![d]) == d,
{
    assert(seq![d].drop_last() =~= Seq::<u8>::empty());
    assert(digits_value(Seq::<u8>::empty()) == 0);
}

/// Concatenation shifts the left part by the length of the right part.
pub proof fn lemma_value_concat(a: Seq<u8>, b: Seq<u8>)
    ensures
        digits_value(a + b) == digits_value(a) * pow10(b.len()) + digits_value(b),
    decreases b.len(),
{
    if b.len() == 0 {
        assert(a + b =~= a);
        assert(digits_value(a) * pow10(0) == digits_value(a)) by (nonlinear_arith)
            requires
                pow10(0) == 1,
        ;
    } else {
        let b1 = b.drop_last();
        assert((a + b).drop_last() =~= a + b1);
        lemma_value_concat(a, b1);
        let va = digits_value(a);
        let p = pow10(b1.len());
        assert(pow10(b.len()) == 10 * p);
        assert(10 * (va * p + digits_value(b1)) == va * (10 * p) + 10 * digits_value(b1))
            by (nonlinear_arith);
    }
}

/// The first digit weighs ten to the number of digits behind it.
pub proof fn lemma_value_first(s: Seq<u8>)
    requires
        s.len() >= 1,
    ensures
        digits_value(s) == s[0] * pow10((s.len() - 1) as nat) + digits_value(s.drop_first()),
{
    assert(s =~= seq![s[0]] + s.drop_first());
    lemma_value_concat(seq![s[0]], s.drop_first());
    lemma_value_single(s[0]);
}

/// Replacing the element at `i` changes the value by the difference of the two
/// elements, weighted by the position.
pub proof fn lemma_value_update(s: Seq<u8>, i: int, d: u8)
    requires
        0 <= i < s.len(),
    ensures
        digits_value(s.update(i, d)) + s[i] * pow10((s.len() - 1 - i) as nat) == digits_value(s)
            + d * pow10((s.len() - 1 - i) as nat),
    decreases s.len(),
{
    let t = s.update(i, d);
    if i == s.len() - 1 {
        assert(t.drop_last() =~= s.drop_last());
        assert(s[i] * pow10(0) == s[i] as int && d * pow10(0) == d as int) by (nonlinear_arith)
            requires
                pow10(0) == 1,
        ;
    } else {
        let s1 = s.drop_last();
        assert(t.drop_last() =~= s1.update(i, d));
        lemma_value_update(s1, i, d);
        let p = pow10((s1.len() - 1 - i) as nat);
        assert(pow10((s.len() - 1 - i) as nat) == 10 * p);
        assert(s[i] * (10 * p) == 10 * (s[i] * p) && d * (10 * p) == 10 * (d * p))
            by (nonlinear_arith);
    }
}

/// The number written by the last `k` digits of `s`, or by all of `s` where it
/// has fewer.
pub open spec fn low_value(s: Seq<u8>, k: nat) -> nat {
    if k >= s.len() {
        digits_value(s)
    } else {
        digits_value(s.skip(s.len() - k))
    }
}

/// The digit of `s` at distance `k` from the end, or zero past the front.
pub open spec fn digit_from_end(s: Seq<u8>, k: nat) -> u8 {
    if k < s.len() {
        s[s.len() - 1 - k]
    } else {
        0
    }
}

/// One more digit from the end adds that digit at its weight.
pub proof fn lemma_low_value_step(s: Seq<u8>, k: nat)
    ensures
        low_value(s, k + 1) == digit_from_end(s, k) * pow10(k) + low_value(s, k),
{
    if k < s.len() {
        let t = s.skip(s.len() - k - 1);
        lemma_value_first(t);
        assert(t.drop_first() =~= s.skip(s.len() - k));
        if k + 1 == s.len() {
            assert(t =~= s);
        }
    } else {
        assert(0 * pow10(k) == 0) by (nonlinear_arith);
    }
}

/// No digits write zero.
pub proof fn lemma_low_value_none(s: Seq<u8>)
    ensures
        low_value(s, 0) == 0,
{
    if s.len() > 0 {
        assert(s.skip(s.len() as int) =~= Seq::<u8>::empty());
    }
}

/// A sequence of `n` decimal digits writes a number below `10^n`.
pub proof fn lemma_value_bound(s: Seq<u8>)
    requires
        all_digits(s),
    ensures
        digits_value(s) < pow10(s.len()),
    decreases s.len(),
{
    if s.len() > 0 {
        lemma_value_bound(s.drop_last());
    }
}

/// A sequence writes at least its first digit times the weight of that digit.
pub proof fn lemma_value_lower(s: Seq<u8>)
    requires
        s.len() >= 1,
    ensures
        digits_value(s) >= s[0] * pow10((s.len() - 1) as nat),
{
    lemma_value_first(s);
}

/// A canonical sequence writes zero exactly when it is the single digit `0`.
pub proof fn lemma_canonical_zero(s: Seq<u8>)
    requires
        canonical(s),
    ensures
        digits_value(s) == 0 <==> s =~= seq![0u8],
{
    lemma_value_lower(s);
    lemma_pow10_positive((s.len() - 1) as nat);
    if s.len() > 1 {
        assert(s[0] * pow10((s.len() - 1) as nat) >= 1) by (nonlinear_arith)
            requires
                s[0] >= 1,
                pow10((s.len() - 1) as nat) >= 1,
        ;
    } else {
        assert(s =~= seq![s[0]]);
        lemma_value_single(s[0]);
    }
}

/// Leading zeros do not change the number.
pub proof fn lemma_value_skip_zeros(s: Seq<u8>, k: int)
    requires
        0 <= k <= s.len(),
        forall|i: int| 0 <= i < k ==> s[i] == 0,
    ensures
        digits_value(s.skip(k)) == digits_value(s),
    decreases k,
{
    if k == 0 {
        assert(s.skip(0) =~= s);
    } else {
        lemma_value_skip_zeros(s, k - 1);
        let t = s.skip(k - 1);
        lemma_value_first(t);
        assert(t.drop_first() =~= s.skip(k));
        assert(t[0] == 0);
        assert(t[0] * pow10((t.len() - 1) as nat) == 0) by (nonlinear_arith)
            requires
                t[0] == 0,
        ;
    }
}

/// Two sequences of decimal digits of one length that write the same number
/// are the same sequence.
pub proof fn lemma_same_length_unique(a: Seq<u8>, b: Seq<u8>)
    requires
        all_digits(a),
        all_digits(b),
        a.len() == b.len(),
        digits_value(a) == digits_value(b),
    ensures
        a == b,
    decreases a.len(),
{
    if a.len() > 0 {
        lemma_same_length_unique(a.drop_last(), b.drop_last());
        assert(a =~= a.drop_last().push(a.last()));
        assert(b =~= b.drop_last().push(b.last()));
    } else {
        assert(a =~= b);
    }
}

/// Of two canonical sequences the shorter writes the smaller number.
pub proof fn lemma_shorter_is_smaller(a: Seq<u8>, b: Seq<u8>)
    requires
        canonical(a),
        canonical(b),
        a.len() < b.len(),
    ensures
        digits_value(a) < digits_value(b),
{
    lemma_value_bound(a);
    lemma_value_lower(b);
    lemma_pow10_monotonic(a.len(), (b.len() - 1) as nat);
    assert(b[0] * pow10((b.len() - 1) as nat) >= pow10((b.len() - 1) as nat)) by (nonlinear_arith)
        requires
            b[0] >= 1,
    ;
}

/// A number has one canonical way to be written.
pub proof fn lemma_canonical_unique(a: Seq<u8>, b: Seq<u8>)
    requires
        canonical(a),
        canonical(b),
        digits_value(a) == digits_value(b),
    ensures
        a == b,
{
    if a.len() < b.len() {
        lemma_shorter_is_smaller(a, b);
    } else if b.len() < a.len() {
        lemma_shorter_is_smaller(b, a);
    } else {
        lemma_same_length_unique(a, b);
    }
}

/// Among sequences of decimal digits of one length, the one with the smaller
/// digit at the first place where they differ writes the smaller number.
pub proof fn lemma_first_difference(a: Seq<u8>, b: Seq<u8>, i: int)
    requires
        all_digits(a),
        all_digits(b),
        a.len() == b.len(),
        0 <= i < a.len(),
        forall|k: int| 0 <= k < i ==> a[k] == b[k],
        a[i] < b[i],
    ensures
        digits_value(a) < digits_value(b),
{
    let n = a.len();
    let (ah, at) = (a.take(i + 1), a.skip(i + 1));
    let (bh, bt) = (b.take(i + 1), b.skip(i + 1));
    assert(a =~= ah + at);
    assert(b =~= bh + bt);
    lemma_value_concat(ah, at);
    lemma_value_concat(bh, bt);
    lemma_value_bound(at);
    assert(ah.drop_last() =~= a.take(i));
    assert(bh.drop_last() =~= b.take(i));
    assert(a.take(i) =~= b.take(i));
    let p = pow10(at.len());
    let (x, y) = (digits_value(ah), digits_value(bh));
    assert(x + 1 <= y);
    assert(x * p + p <= y * p) by (nonlinear_arith)
        requires
            x + 1 <= y,
    ;
}

/// `digits_of(n)` is canonical and writes `n`.
pub proof fn lemma_digits_of(n: nat)
    ensures
        canonical(digits_of(n)),
        digits_value(digits_of(n)) == n,
    decreases n,
{
    if n < 10 {
        lemma_value_single(n as u8);
    } else {
        let q = n / 10;
        let s = digits_of(q);
        lemma_digits_of(q);
        lemma_value_push(s, (n % 10) as u8);
        lemma_canonical_zero(s);
        let t = s.push((n % 10) as u8);
        assert forall|i: int| 0 <= i < t.len() implies t[i] <= 9 by {
            if i < s.len() {
                assert(t[i] == s[i]);
            }
        }
        assert(t[0] == s[0]);
    }
}

/// A canonical sequence is the `digits_of` the number it writes.
pub proof fn lemma_digits_of_value(s: Seq<u8>)
    requires
        canonical(s),
    ensures
        digits_of(digits_value(s)) == s,
{
    lemma_digits_of(digits_value(s));
    lemma_canonical_unique(digits_of(digits_value(s)), s);
}

} // verus!
