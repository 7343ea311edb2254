//! The arbitrary-precision integer: a sign and a canonical magnitude.
use crate::digits::{
    canonical, digits_value, lemma_canonical_unique, lemma_digits_of_value, lemma_value_single,
};
use crate::integer::{integer_order, truncated_quotient};
use crate::magnitude::{
    add_magnitudes, div_magnitudes, equal_digits, is_one, is_zero, less_than, mul_magnitudes,
    sub_magnitudes, trim_zero, zero,
};
use crate::text::{
    all_digit_chars, char_of_digit, decimal_text, decimal_value, digits_text, has_sign,
    is_digit_char, lemma_text_digits, text_digits, unsigned_part, valid_decimal,
};
use core::cmp::Ordering;
use core::ops::{Add, Div, Mul, Neg, Sub};
use vstd::arithmetic::div_mod::{lemma_basic_div, lemma_div_basics};
use vstd::math::abs;
use vstd::prelude::*;
use vstd::std_specs::cmp::{PartialEqSpecImpl, PartialOrdSpecImpl};
use vstd::std_specs::ops::{AddSpecImpl, DivSpecImpl, MulSpecImpl, NegSpecImpl, SubSpecImpl};
use vstd::string::is_ascii_spec_bytes;

verus! {

/// Why an operation gave no number.
#[derive(Debug, Clone, Copy, PartialEq, Eq)]
pub enum BigIntError {
    /// The text is not an optional sign followed by decimal digits.
    InvalidFormat,
    /// The divisor is zero.
    DivisionByZero,
}

/// An integer of any size, held as a sign and decimal digits.
///
/// The digits are canonical: most significant first, at least one, no leading
/// zero except in the number zero itself, which is never negative.
#[derive(Debug)]
pub struct BigInt {
    positive: bool,
    value: Vec<u8>,
}

impl View for BigInt {
    type V = int;

    /// The integer that this value holds.
    closed spec fn view(&self) -> int {
        if self.positive {
            digits_value(self.value@) as int
        } else {
            -digits_value(self.value@)
        }
    }
}

impl Clone for BigInt {
    fn clone(&self) -> (r: Self)
        ensures
            r@ == self@,
    {
        proof {
            use_type_invariant(self);
        }
        let value = self.value.clone();
        assert(value@ =~= self.value@);
        BigInt { positive: self.positive, value }
    }
}

const PLUS: u8 = 43;

const MINUS: u8 = 45;

const DIGIT_ZERO: u8 = 48;

const DIGIT_NINE: u8 = 57;

/// A valid decimal text holds ASCII characters only.
proof fn lemma_valid_is_ascii(t: Seq<char>)
    requires
        valid_decimal(t),
    ensures
        vstd::utf8::is_ascii_chars(t),
{
    let body = unsigned_part(t);
    assert forall|i: int| 0 <= i < t.len() implies '\0' <= #[trigger] t[i] <= '\u{7f}' by {
        if has_sign(t) {
            if i > 0 {
                assert(is_digit_char(body[i - 1]));
            }
        } else {
            assert(is_digit_char(body[i]));
        }
    }
}

/// The one-character text of the digit `d`.
fn digit_str(d: u8) -> (s: &'static str)
    requires
        d <= 9,
    ensures
        s@ == seq![char_of_digit(d)],
{
    proof {
        reveal_strlit("0");
        reveal_strlit("1");
        reveal_strlit("2");
        reveal_strlit("3");
        reveal_strlit("4");
        reveal_strlit("5");
        reveal_strlit("6");
        reveal_strlit("7");
        reveal_strlit("8");
        reveal_strlit("9");
    }
    let s = if d == 0 {
        "0"
    } else if d == 1 {
        "1"
    } else if d == 2 {
        "2"
    } else if d == 3 {
        "3"
    } else if d == 4 {
        "4"
    } else if d == 5 {
        "5"
    } else if d == 6 {
        "6"
    } else if d == 7 {
        "7"
    } else if d == 8 {
        "8"
    } else {
        "9"
    };
    assert(s@ =~= seq![char_of_digit(d)]);
    s
}

impl BigInt {
    /// What every value of the type satisfies: canonical digits and no
    /// negative zero.
    #[verifier::type_invariant]
    spec fn wf(&self) -> bool {
        &&& canonical(self.value@)
        &&& (digits_value(self.value@) == 0 ==> self.positive)
    }

    /// The value with the given sign and magnitude; zero is made positive.
    fn from_parts(positive: bool, value: Vec<u8>) -> (r: BigInt)
        requires
            canonical(value@),
        ensures
            r@ == if positive {
                digits_value(value@) as int
            } else {
                -digits_value(value@)
            },
    {
        let positive = positive || is_zero(&value);
        BigInt { positive, value }
    }

    /// Parses decimal text: an optional single `+` or `-`, then one or more
    /// decimal digits.  Leading zeros are accepted and dropped.
    pub fn new(v: &str) -> (r: Result<BigInt, BigIntError>)
        ensures
            valid_decimal(v@) ==> (r matches Ok(x) && x@ == decimal_value(v@)),
            !valid_decimal(v@) ==> (r matches Err(e) && e == BigIntError::InvalidFormat),
    {
        let ghost t = v@;
        if !v.is_ascii() {
            proof {
                if valid_decimal(t) {
                    lemma_valid_is_ascii(t);
                }
            }
            return Err(BigIntError::InvalidFormat);
        }
        let bytes = v.as_bytes();
        proof {
            is_ascii_spec_bytes(v);
        }
        let n = bytes.len();
        if n == 0 {
            return Err(BigIntError::InvalidFormat);
        }
        let first = bytes[0];
        let negative = first == MINUS;
        let start: usize = if first == MINUS || first == PLUS {
            1
        } else {
            0
        };
        let ghost body = unsigned_part(t);
        assert(body =~= t.skip(start as int));
        if start == n {
            return Err(BigIntError::InvalidFormat);
        }
        let mut digits: Vec<u8> = Vec::new();
        let mut i: usize = start;
        while i < n
            invariant
                start <= i <= n,
                t == v@,
                n == t.len(),
                n == bytes@.len(),
                vstd::utf8::is_ascii_chars(t),
                forall|k: int| 0 <= k < n ==> bytes@[k] == t[k] as u8,
                body == t.skip(start as int),
                body == unsigned_part(t),
                all_digit_chars(body.take(i - start)),
                digits@ == text_digits(body.take(i - start)),
            decreases n - i,
        {
            let b = bytes[i];
            if b < DIGIT_ZERO || b > DIGIT_NINE {
                proof {
                    let c = body[i - start];
                    assert(c == t[i as int]);
                    assert(b == c as u8);
                    assert('\0' <= c <= '\u{7f}');
                    assert(!is_digit_char(c));
                }
                return Err(BigIntError::InvalidFormat);
            }
            digits.push(b - DIGIT_ZERO);
            proof {
                let done = body.take(i - start);
                let next = body.take(i + 1 - start);
                assert(next[i - start] == t[i as int]);
                assert forall|k: int| 0 <= k < next.len() implies is_digit_char(next[k]) by {
                    if k < done.len() {
                        assert(next[k] == done[k]);
                    }
                }
                assert(digits@ =~= text_digits(next));
            }
            i += 1;
        }
        proof {
            assert(body.take(n - start) =~= body);
            lemma_text_digits(body);
        }
        let value = trim_zero(digits);
        Ok(BigInt::from_parts(!negative, value))
    }

    /// The canonical decimal text: a minus sign if negative, then the
    /// digits without leading zeros.
    pub fn to_string(&self) -> (s: String)
        ensures
            s@ == decimal_text(self@),
    {
        proof {
            use_type_invariant(self);
            lemma_digits_of_value(self.value@);
            reveal_strlit("-");
        }
        let mut s = String::new();
        if !self.positive {
            s.append("-");
        }
        let ghost sign = s@;
        let n = self.value.len();
        let mut i: usize = 0;
        while i < n
            invariant
                i <= n,
                n == self.value@.len(),
                canonical(self.value@),
                s@ == sign + digits_text(self.value@.take(i as int)),
            decreases n - i,
        {
            s.append(digit_str(self.value[i]));
            proof {
                assert(digits_text(self.value@.take(i + 1)) =~= digits_text(
                    self.value@.take(i as int),
                ) + seq![char_of_digit(self.value@[i as int])]);
            }
            i += 1;
        }
        proof {
            assert(self.value@.take(n as int) =~= self.value@);
            assert(sign =~= if self.positive {
                Seq::<char>::empty()
            } else {
                seq!['-']
            });
            assert(Seq::<char>::empty() + digits_text(self.value@) =~= digits_text(self.value@));
        }
        s
    }
}

impl BigInt {
    /// The magnitude of the value, as a non-negative value.
    pub fn abs(self) -> (r: BigInt)
        ensures
            r@ == abs(self@),
    {
        proof {
            use_type_invariant(&self);
        }
        BigInt { positive: true, value: self.value }
    }

    /// How the sign and the digits make up the value.
    proof fn lemma_parts(&self)
        requires
            self.wf(),
        ensures
            abs(self@) == digits_value(self.value@),
            self.positive <==> self@ >= 0,
    {
    }

    /// The sum of two signed magnitudes, by the four combinations of signs:
    /// equal signs add the magnitudes, opposite signs take the smaller
    /// magnitude from the larger and keep the sign of the larger.
    fn signed_sum(a_positive: bool, a: &Vec<u8>, b_positive: bool, b: &Vec<u8>) -> (r: BigInt)
        requires
            canonical(a@),
            canonical(b@),
        ensures
            r@ == (if a_positive {
                digits_value(a@) as int
            } else {
                -digits_value(a@)
            }) + (if b_positive {
                digits_value(b@) as int
            } else {
                -digits_value(b@)
            }),
    {
        if a_positive == b_positive {
            BigInt::from_parts(a_positive, add_magnitudes(a, b))
        } else if less_than(a, b) {
            BigInt::from_parts(b_positive, sub_magnitudes(b, a))
        } else {
            BigInt::from_parts(a_positive, sub_magnitudes(a, b))
        }
    }
}

impl PartialEq for BigInt {
    /// Whether the two values are the same number: the same sign and the
    /// same digits.
    fn eq(&self, other: &Self) -> (r: bool)
        ensures
            r == (self@ == other@),
    {
        proof {
            use_type_invariant(self);
            use_type_invariant(other);
            if self.positive == other.positive && self@ == other@ {
                lemma_canonical_unique(self.value@, other.value@);
            }
        }
        self.positive == other.positive && equal_digits(&self.value, &other.value)
    }
}

impl PartialEqSpecImpl for BigInt {
    open spec fn obeys_eq_spec() -> bool {
        true
    }

    open spec fn eq_spec(&self, other: &Self) -> bool {
        self@ == other@
    }
}

impl PartialOrd for BigInt {
    /// Compares as the integers compare.  A negative value comes before a
    /// non-negative one; two values of one sign are compared by the length
    /// of their digits and then digit by digit, and of two negative values
    /// the one with the larger magnitude comes first.
    fn partial_cmp(&self, other: &Self) -> (r: Option<Ordering>)
        ensures
            r == Some(integer_order(self@, other@)),
    {
        proof {
            use_type_invariant(self);
            use_type_invariant(other);
            self.lemma_parts();
            other.lemma_parts();
        }
        if self.positive != other.positive {
            if self.positive {
                Some(Ordering::Greater)
            } else {
                Some(Ordering::Less)
            }
        } else {
            let (smaller, larger) = if self.positive {
                (&self.value, &other.value)
            } else {
                (&other.value, &self.value)
            };
            if less_than(smaller, larger) {
                Some(Ordering::Less)
            } else if less_than(larger, smaller) {
                Some(Ordering::Greater)
            } else {
                Some(Ordering::Equal)
            }
        }
    }
}

impl PartialOrdSpecImpl for BigInt {
    open spec fn obeys_partial_cmp_spec() -> bool {
        true
    }

    open spec fn partial_cmp_spec(&self, other: &Self) -> Option<Ordering> {
        Some(integer_order(self@, other@))
    }
}

impl Neg for BigInt {
    type Output = BigInt;

    /// The negation; zero stays zero.
    fn neg(self) -> (r: BigInt)
        ensures
            r@ == -self@,
    {
        proof {
            use_type_invariant(&self);
        }
        BigInt::from_parts(!self.positive, self.value)
    }
}

impl Add for BigInt {
    type Output = BigInt;

    /// The sum.
    fn add(self, rhs: BigInt) -> (r: BigInt)
        ensures
            r@ == self@ + rhs@,
    {
        proof {
            use_type_invariant(&self);
            use_type_invariant(&rhs);
        }
        BigInt::signed_sum(self.positive, &self.value, rhs.positive, &rhs.value)
    }
}

impl Sub for BigInt {
    type Output = BigInt;

    /// The difference: the sum of `self` and the negation of `rhs`.
    fn sub(self, rhs: BigInt) -> (r: BigInt)
        ensures
            r@ == self@ - rhs@,
    {
        proof {
            use_type_invariant(&self);
            use_type_invariant(&rhs);
        }
        BigInt::signed_sum(self.positive, &self.value, !rhs.positive, &rhs.value)
    }
}

impl Mul for BigInt {
    type Output = BigInt;

    /// The product.
    fn mul(self, rhs: BigInt) -> (r: BigInt)
        ensures
            r@ == self@ * rhs@,
    {
        proof {
            use_type_invariant(&self);
            use_type_invariant(&rhs);
        }
        let ghost x = digits_value(self.value@) as int;
        let ghost y = digits_value(rhs.value@) as int;
        proof {
            assert(x * y == (-x) * (-y) && -(x * y) == (-x) * y && -(x * y) == x * (-y))
                by (nonlinear_arith);
            assert(0 * y == 0 && x * 0 == 0 && 1 * y == y && x * 1 == x) by (nonlinear_arith);
        }
        if is_zero(&self.value) || is_zero(&rhs.value) {
            return BigInt::from_parts(true, zero());
        }
        let positive = self.positive == rhs.positive;
        if is_one(&self.value) {
            BigInt::from_parts(positive, rhs.value)
        } else if is_one(&rhs.value) {
            BigInt::from_parts(positive, self.value)
        } else {
            BigInt::from_parts(positive, mul_magnitudes(&self.value, &rhs.value))
        }
    }
}

impl Div for BigInt {
    type Output = Result<BigInt, BigIntError>;

    /// The quotient rounded toward zero, or `DivisionByZero` where `rhs` is
    /// zero.
    fn div(self, rhs: BigInt) -> (r: Result<BigInt, BigIntError>)
        ensures
            rhs@ != 0 ==> (r matches Ok(q) && q@ == truncated_quotient(self@, rhs@)),
            rhs@ == 0 ==> (r matches Err(e) && e == BigIntError::DivisionByZero),
    {
        proof {
            use_type_invariant(&self);
            use_type_invariant(&rhs);
            self.lemma_parts();
            rhs.lemma_parts();
        }
        if is_zero(&rhs.value) {
            return Err(BigIntError::DivisionByZero);
        }
        let ghost x = digits_value(self.value@) as int;
        let ghost y = digits_value(rhs.value@) as int;
        let positive = self.positive == rhs.positive;
        proof {
            lemma_div_basics(x);
            if x < y {
                lemma_basic_div(x, y);
            }
        }
        let value = if is_one(&rhs.value) {
            self.value
        } else if less_than(&self.value, &rhs.value) {
            zero()
        } else if equal_digits(&self.value, &rhs.value) {
            let mut one: Vec<u8> = Vec::new();
            one.push(1);
            proof {
                assert(one@ =~= seq![1u8]);
                lemma_value_single(1);
            }
            one
        } else {
            div_magnitudes(&self.value, &rhs.value)
        };
        Ok(BigInt::from_parts(positive, value))
    }
}

/// What `-`, `+`, `*` and `/` return is stated by the `ensures` of the methods
/// above, over the integers that the values hold.  A specification cannot
/// build the digits of a result, so no spec-level `BigInt` stands for it and
/// the operator-level specifications promise nothing.
impl NegSpecImpl for BigInt {
    open spec fn obeys_neg_spec() -> bool {
        false
    }

    open spec fn neg_req(self) -> bool {
        true
    }

    open spec fn neg_spec(self) -> BigInt {
        arbitrary()
    }
}

impl AddSpecImpl for BigInt {
    open spec fn obeys_add_spec() -> bool {
        false
    }

    open spec fn add_req(self, rhs: BigInt) -> bool {
        true
    }

    open spec fn add_spec(self, rhs: BigInt) -> BigInt {
        arbitrary()
    }
}

impl SubSpecImpl for BigInt {
    open spec fn obeys_sub_spec() -> bool {
        false
    }

    open spec fn sub_req(self, rhs: BigInt) -> bool {
        true
    }

    open spec fn sub_spec(self, rhs: BigInt) -> BigInt {
        arbitrary()
    }
}

impl MulSpecImpl for BigInt {
    open spec fn obeys_mul_spec() -> bool {
        false
    }

    open spec fn mul_req(self, rhs: BigInt) -> bool {
        true
    }

    open spec fn mul_spec(self, rhs: BigInt) -> BigInt {
        arbitrary()
    }
}

impl DivSpecImpl for BigInt {
    open spec fn obeys_div_spec() -> bool {
        false
    }

    open spec fn div_req(self, rhs: BigInt) -> bool {
        true
    }

    open spec fn div_spec(self, rhs: BigInt) -> Result<BigInt, BigIntError> {
        arbitrary()
    }
}

} // verus!
