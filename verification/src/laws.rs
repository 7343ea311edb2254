//! Laws of the operations.
//!
//! Each law takes the operands and the values that the operations return for
//! them, asks of every returned value what the operation's contract promises,
//! and concludes what the law says, with `==` as the type defines it.
use crate::bigint::BigInt;
use crate::integer::{integer_order, truncated_quotient};
use crate::text::{canonical_text, decimal_text, decimal_value, lemma_text_of_value, valid_decimal};
use core::cmp::Ordering;
use vstd::arithmetic::div_mod::{
    lemma_basic_div, lemma_div_basics, lemma_fundamental_div_mod, lemma_mod_bound,
};
use vstd::math::abs;
use vstd::prelude::*;
use vstd::std_specs::cmp::{PartialEqSpec, PartialOrdSpec};

verus! {

/// Parsing a valid text and rendering the result gives the canonical form of
/// the text: no `+`, no leading zeros, `-` only before a number other than
/// zero.
pub proof fn lemma_parse_then_render(t: Seq<char>, parsed: BigInt, rendered: Seq<char>)
    requires
        valid_decimal(t),
        parsed@ == decimal_value(t),
        rendered == decimal_text(parsed@),
    ensures
        rendered == canonical_text(t),
{
    lemma_text_of_value(t);
}

/// Every value compares equal to itself.
pub proof fn lemma_order_reflexive(a: BigInt)
    ensures
        a.partial_cmp_spec(&a) == Some(Ordering::Equal),
        a.eq_spec(&a),
{
}

/// Two values compare as equal exactly when they are equal, and `a` comes
/// before `b` exactly when `b` comes after `a`.
pub proof fn lemma_order_antisymmetric(a: BigInt, b: BigInt)
    ensures
        a.partial_cmp_spec(&b) == Some(Ordering::Equal) <==> a.eq_spec(&b),
        a.partial_cmp_spec(&b) == Some(Ordering::Less) <==> b.partial_cmp_spec(&a) == Some(
            Ordering::Greater,
        ),
{
}

/// If `a` comes before `b` and `b` before `c`, then `a` comes before `c`.
pub proof fn lemma_order_transitive(a: BigInt, b: BigInt, c: BigInt)
    requires
        a.partial_cmp_spec(&b) == Some(Ordering::Less),
        b.partial_cmp_spec(&c) == Some(Ordering::Less),
    ensures
        a.partial_cmp_spec(&c) == Some(Ordering::Less),
{
}

/// Any two values are comparable.
pub proof fn lemma_order_total(a: BigInt, b: BigInt)
    ensures
        a.partial_cmp_spec(&b) is Some,
{
}

/// The comparison is the usual order of the integers, also between two
/// negative values.
pub proof fn lemma_order_is_integer_order(a: BigInt, b: BigInt)
    ensures
        a.partial_cmp_spec(&b) == Some(integer_order(a@, b@)),
        a.partial_cmp_spec(&b) == Some(Ordering::Less) <==> a@ < b@,
        a.partial_cmp_spec(&b) == Some(Ordering::Equal) <==> a@ == b@,
        a.partial_cmp_spec(&b) == Some(Ordering::Greater) <==> a@ > b@,
{
}

/// Negating twice gives the value back.
pub proof fn lemma_neg_involution(a: BigInt, negated: BigInt, twice: BigInt)
    requires
        negated@ == -a@,
        twice@ == -negated@,
    ensures
        twice.eq_spec(&a),
{
}

/// The negation of zero is zero.
pub proof fn lemma_neg_zero(zero: BigInt, negated: BigInt)
    requires
        zero@ == 0,
        negated@ == -zero@,
    ensures
        negated.eq_spec(&zero),
{
}

/// `a + b == b + a`.
pub proof fn lemma_add_commutative(a: BigInt, b: BigInt, a_b: BigInt, b_a: BigInt)
    requires
        a_b@ == a@ + b@,
        b_a@ == b@ + a@,
    ensures
        a_b.eq_spec(&b_a),
{
}

/// `(a + b) + c == a + (b + c)`.
pub proof fn lemma_add_associative(
    a: BigInt,
    b: BigInt,
    c: BigInt,
    a_b: BigInt,
    b_c: BigInt,
    left: BigInt,
    right: BigInt,
)
    requires
        a_b@ == a@ + b@,
        b_c@ == b@ + c@,
        left@ == a_b@ + c@,
        right@ == a@ + b_c@,
    ensures
        left.eq_spec(&right),
{
}

/// `a + 0 == a`.
pub proof fn lemma_add_zero(a: BigInt, zero: BigInt, sum: BigInt)
    requires
        zero@ == 0,
        sum@ == a@ + zero@,
    ensures
        sum.eq_spec(&a),
{
}

/// `a + (-a) == 0`.
pub proof fn lemma_add_negation(a: BigInt, negated: BigInt, sum: BigInt)
    requires
        negated@ == -a@,
        sum@ == a@ + negated@,
    ensures
        sum@ == 0,
{
}

/// `a - a == 0`.
pub proof fn lemma_sub_self(a: BigInt, difference: BigInt)
    requires
        difference@ == a@ - a@,
    ensures
        difference@ == 0,
{
}

/// `a - b == a + (-b)`.
pub proof fn lemma_sub_is_add_negation(
    a: BigInt,
    b: BigInt,
    difference: BigInt,
    negated: BigInt,
    sum: BigInt,
)
    requires
        difference@ == a@ - b@,
        negated@ == -b@,
        sum@ == a@ + negated@,
    ensures
        difference.eq_spec(&sum),
{
}

/// `a * b == b * a`.
pub proof fn lemma_mul_commutative(a: BigInt, b: BigInt, a_b: BigInt, b_a: BigInt)
    requires
        a_b@ == a@ * b@,
        b_a@ == b@ * a@,
    ensures
        a_b.eq_spec(&b_a),
{
    assert(a@ * b@ == b@ * a@) by (nonlinear_arith);
}

/// `a * 1 == a`.
pub proof fn lemma_mul_one(a: BigInt, one: BigInt, product: BigInt)
    requires
        one@ == 1,
        product@ == a@ * one@,
    ensures
        product.eq_spec(&a),
{
    assert(a@ * 1 == a@) by (nonlinear_arith);
}

/// `a * 0 == 0`.
pub proof fn lemma_mul_zero(a: BigInt, zero: BigInt, product: BigInt)
    requires
        zero@ == 0,
        product@ == a@ * zero@,
    ensures
        product.eq_spec(&zero),
{
    assert(a@ * 0 == 0) by (nonlinear_arith);
}

/// `a / 1 == a`.
pub proof fn lemma_div_one(a: BigInt, one: BigInt, quotient: BigInt)
    requires
        one@ == 1,
        quotient@ == truncated_quotient(a@, one@),
    ensures
        quotient.eq_spec(&a),
{
    lemma_div_basics(abs(a@) as int);
}

/// `a / a == 1` for `a` other than zero.
pub proof fn lemma_div_self(a: BigInt, quotient: BigInt)
    requires
        a@ != 0,
        quotient@ == truncated_quotient(a@, a@),
    ensures
        quotient@ == 1,
{
    lemma_div_basics(abs(a@) as int);
}

/// `a / b == 0` where the magnitude of `a` is below that of `b`.
pub proof fn lemma_div_smaller(a: BigInt, b: BigInt, quotient: BigInt)
    requires
        abs(a@) < abs(b@),
        quotient@ == truncated_quotient(a@, b@),
    ensures
        quotient@ == 0,
{
    lemma_basic_div(abs(a@) as int, abs(b@) as int);
}

/// Division rounds toward zero: what is left of `a` after taking `b` times
/// the quotient has a magnitude below that of `b` and does not have the sign
/// opposite to `a`.
pub proof fn lemma_div_truncates(a: BigInt, b: BigInt, quotient: BigInt)
    requires
        b@ != 0,
        quotient@ == truncated_quotient(a@, b@),
    ensures
        abs(a@ - quotient@ * b@) < abs(b@),
        a@ >= 0 ==> a@ - quotient@ * b@ >= 0,
        a@ <= 0 ==> a@ - quotient@ * b@ <= 0,
{
    let x = abs(a@) as int;
    let y = abs(b@) as int;
    let q = x / y;
    lemma_fundamental_div_mod(x, y);
    lemma_mod_bound(x, y);
    assert(x - y * q == x % y);
    if a@ >= 0 && b@ > 0 {
        assert(q * b@ == y * q) by (nonlinear_arith)
            requires
                b@ == y,
        ;
    } else if a@ >= 0 && b@ < 0 {
        assert((-q) * b@ == y * q) by (nonlinear_arith)
            requires
                b@ == -y,
        ;
    } else if a@ < 0 && b@ > 0 {
        assert((-q) * b@ == -(y * q)) by (nonlinear_arith)
            requires
                b@ == y,
        ;
    } else {
        assert(q * b@ == -(y * q)) by (nonlinear_arith)
            requires
                b@ == -y,
        ;
    }
}

} // verus!
