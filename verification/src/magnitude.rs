//! Arithmetic on magnitudes: vectors of decimal digits, most significant first.
//!
//! The arithmetic functions take canonical digit vectors, return a canonical
//! digit vector, and state the result as the number that the vector writes.
use crate::digits::{
    all_digits, canonical, digits_value, lemma_canonical_zero, lemma_first_difference,
    lemma_low_value_none, lemma_low_value_step, lemma_pow10_add, lemma_pow10_positive,
    lemma_shorter_is_smaller, lemma_value_bound, lemma_value_first, lemma_value_push,
    lemma_value_single, lemma_value_skip_zeros, lemma_value_update, low_value, pow10,
};
use vstd::arithmetic::div_mod::lemma_fundamental_div_mod_converse;
use vstd::prelude::*;

verus! {

/// The canonical zero.
pub fn zero() -> (r: Vec<u8>)
    ensures
        r@ == seq![0u8],
        canonical(r@),
        digits_value(r@) == 0,
{
    let mut r: Vec<u8> = Vec::new();
    r.push(0);
    proof {
        assert(r@ =~= seq![0u8]);
        lemma_value_single(0);
    }
    r
}

/// Whether `a` writes zero.
pub fn is_zero(a: &Vec<u8>) -> (r: bool)
    requires
        canonical(a@),
    ensures
        r == (digits_value(a@) == 0),
{
    proof {
        lemma_canonical_zero(a@);
    }
    a.len() == 1 && a[0] == 0
}

/// Whether `a` writes one.
pub fn is_one(a: &Vec<u8>) -> (r: bool)
    requires
        canonical(a@),
    ensures
        r == (digits_value(a@) == 1),
{
    proof {
        if a.len() == 1 {
            assert(a@ =~= seq![a@[0]]);
            lemma_value_single(a@[0]);
        } else {
            lemma_shorter_is_smaller(seq![1u8], a@);
            lemma_value_single(1);
        }
    }
    a.len() == 1 && a[0] == 1
}

/// Whether `a` and `b` hold the same digits.
pub fn equal_digits(a: &Vec<u8>, b: &Vec<u8>) -> (r: bool)
    ensures
        r == (a@ == b@),
{
    let n = a.len();
    if n != b.len() {
        return false;
    }
    let mut i: usize = 0;
    while i < n
        invariant
            n == a.len(),
            n == b.len(),
            i <= n,
            forall|k: int| 0 <= k < i ==> a[k] == b[k],
        decreases n - i,
    {
        if a[i] != b[i] {
            return false;
        }
        i += 1;
    }
    proof {
        assert(a@ =~= b@);
    }
    true
}

/// Removes leading zeros, keeping at least one digit.
pub fn trim_zero(v: Vec<u8>) -> (r: Vec<u8>)
    requires
        all_digits(v@),
    ensures
        canonical(r@),
        digits_value(r@) == digits_value(v@),
{
    let n = v.len();
    if n == 0 {
        return zero();
    }
    let mut i: usize = 0;
    while n - i > 1 && v[i] == 0
        invariant
            n == v.len(),
            i < n,
            forall|k: int| 0 <= k < i ==> v[k] == 0,
        decreases n - i,
    {
        i += 1;
    }
    let mut v = v;
    let ghost whole = v@;
    let r = v.split_off(i);
    proof {
        lemma_value_skip_zeros(whole, i as int);
        assert(r@ =~= whole.skip(i as int));
    }
    r
}

/// Whether `a` writes a smaller number than `b`.
pub fn less_than(a: &Vec<u8>, b: &Vec<u8>) -> (r: bool)
    requires
        canonical(a@),
        canonical(b@),
    ensures
        r == (digits_value(a@) < digits_value(b@)),
{
    let n = a.len();
    if n != b.len() {
        proof {
            if n < b.len() {
                lemma_shorter_is_smaller(a@, b@);
            } else {
                lemma_shorter_is_smaller(b@, a@);
            }
        }
        return n < b.len();
    }
    let mut i: usize = 0;
    while i < n
        invariant
            n == a.len(),
            n == b.len(),
            i <= n,
            all_digits(a@),
            all_digits(b@),
            forall|k: int| 0 <= k < i ==> a[k] == b[k],
        decreases n - i,
    {
        if a[i] != b[i] {
            proof {
                if a[i as int] < b[i as int] {
                    lemma_first_difference(a@, b@, i as int);
                } else {
                    lemma_first_difference(b@, a@, i as int);
                }
            }
            return a[i] < b[i];
        }
        i += 1;
    }
    proof {
        assert(a@ =~= b@);
    }
    false
}

/// The algebra of one column of a subtraction with borrow.
proof fn lemma_sub_column(
    v: int,
    v2: int,
    o: int,
    d: int,
    db: int,
    borrow: int,
    borrow2: int,
    p: int,
    low: int,
    a: int,
)
    by (nonlinear_arith)
    requires
        v2 + o * p == v + d * p,
        d == o - db - borrow + 10 * borrow2,
        v + low == a + borrow * p,
    ensures
        v2 + (db * p + low) == a + borrow2 * (10 * p),
{
}

/// The algebra of one column of an addition with carry.
proof fn lemma_add_column(
    v: int,
    v2: int,
    o: int,
    d: int,
    db: int,
    carry: int,
    carry2: int,
    p: int,
    low: int,
    a: int,
)
    by (nonlinear_arith)
    requires
        v2 + o * p == v + d * p,
        d + 10 * carry2 == o + db + carry,
        v + carry * p == a + low,
    ensures
        v2 + carry2 * (10 * p) == a + (db * p + low),
{
}

/// The difference of two magnitudes, the first being at least the second.
pub fn sub_magnitudes(a: &Vec<u8>, b: &Vec<u8>) -> (r: Vec<u8>)
    requires
        canonical(a@),
        canonical(b@),
        digits_value(a@) >= digits_value(b@),
    ensures
        canonical(r@),
        digits_value(r@) == digits_value(a@) - digits_value(b@),
{
    let n = a.len();
    let m = b.len();
    proof {
        if n < m {
            lemma_shorter_is_smaller(a@, b@);
        }
        lemma_low_value_none(b@);
    }
    let mut out = a.clone();
    assert(out@ =~= a@);
    let mut borrow: u8 = 0;
    let mut k: usize = 0;
    while k < n
        invariant
            n == a.len(),
            m == b.len(),
            m <= n,
            out.len() == n,
            k <= n,
            all_digits(out@),
            all_digits(b@),
            borrow <= 1,
            digits_value(out@) + low_value(b@, k as nat) == digits_value(a@) + borrow * pow10(
                k as nat,
            ),
        decreases n - k,
    {
        let i = n - 1 - k;
        let db: u8 = if k < m {
            b[m - 1 - k]
        } else {
            0
        };
        let t: u8 = out[i] + 10 - db - borrow;
        let d: u8 = t % 10;
        let next: u8 = if t < 10 {
            1
        } else {
            0
        };
        proof {
            lemma_value_update(out@, i as int, d);
            lemma_low_value_step(b@, k as nat);
            lemma_sub_column(
                digits_value(out@) as int,
                digits_value(out@.update(i as int, d)) as int,
                out@[i as int] as int,
                d as int,
                db as int,
                borrow as int,
                next as int,
                pow10(k as nat) as int,
                low_value(b@, k as nat) as int,
                digits_value(a@) as int,
            );
        }
        out.set(i, d);
        borrow = next;
        k += 1;
    }
    proof {
        lemma_value_bound(out@);
        lemma_pow10_positive(n as nat);
        if borrow == 1 {
            assert(1 * pow10(n as nat) == pow10(n as nat)) by (nonlinear_arith);
        } else {
            assert(0 * pow10(n as nat) == 0) by (nonlinear_arith);
        }
    }
    trim_zero(out)
}

/// The sum of two magnitudes.
pub fn add_magnitudes(a: &Vec<u8>, b: &Vec<u8>) -> (r: Vec<u8>)
    requires
        canonical(a@),
        canonical(b@),
    ensures
        canonical(r@),
        digits_value(r@) == digits_value(a@) + digits_value(b@),
{
    let (long, short) = if a.len() >= b.len() {
        (a, b)
    } else {
        (b, a)
    };
    let n = long.len();
    let m = short.len();
    // The longer operand, with one spare slot in front for the last carry.
    let mut out = long.clone();
    assert(out@ =~= long@);
    out.insert(0, 0u8);
    proof {
        lemma_value_skip_zeros(out@, 1);
        assert(out@.skip(1) =~= long@);
        lemma_low_value_none(short@);
        assert(0 * pow10(0) == 0) by (nonlinear_arith);
    }
    let mut carry: u8 = 0;
    let mut k: usize = 0;
    while k < n
        invariant
            n == long.len(),
            m == short.len(),
            m <= n,
            out.len() == n + 1,
            k <= n,
            all_digits(out@),
            all_digits(short@),
            out[0] == 0,
            carry <= 1,
            digits_value(out@) + carry * pow10(k as nat) == digits_value(long@) + low_value(
                short@,
                k as nat,
            ),
        decreases n - k,
    {
        let i = n - k;
        let db: u8 = if k < m {
            short[m - 1 - k]
        } else {
            0
        };
        let s: u8 = out[i] + db + carry;
        let d: u8 = s % 10;
        let next: u8 = s / 10;
        proof {
            lemma_value_update(out@, i as int, d);
            lemma_low_value_step(short@, k as nat);
            lemma_add_column(
                digits_value(out@) as int,
                digits_value(out@.update(i as int, d)) as int,
                out@[i as int] as int,
                d as int,
                db as int,
                carry as int,
                next as int,
                pow10(k as nat) as int,
                low_value(short@, k as nat) as int,
                digits_value(long@) as int,
            );
        }
        out.set(i, d);
        carry = next;
        k += 1;
    }
    proof {
        lemma_value_update(out@, 0, carry);
        assert(0 * pow10(n as nat) == 0) by (nonlinear_arith);
    }
    out.set(0, carry);
    trim_zero(out)
}

/// A vector of `n + m` zeros.
fn zeros(n: usize, m: usize) -> (r: Vec<u8>)
    ensures
        r.len() == n + m,
        forall|p: int| 0 <= p < r.len() ==> r[p] == 0,
        digits_value(r@) == 0,
{
    let mut r: Vec<u8> = Vec::new();
    let mut i: usize = 0;
    while i < n
        invariant
            i <= n,
            r.len() == i,
            forall|p: int| 0 <= p < r.len() ==> r[p] == 0,
        decreases n - i,
    {
        r.push(0);
        i += 1;
    }
    let mut j: usize = 0;
    while j < m
        invariant
            j <= m,
            r.len() == n + j,
            forall|p: int| 0 <= p < r.len() ==> r[p] == 0,
        decreases m - j,
    {
        r.push(0);
        j += 1;
    }
    proof {
        lemma_value_skip_zeros(r@, r@.len() as int);
        assert(r@.skip(r@.len() as int) =~= Seq::<u8>::empty());
    }
    r
}

/// The algebra of one digit product of a schoolbook multiplication: the
/// product of `x` and `y` enters the low slot, its tens move to the high slot.
proof fn lemma_mul_column(
    v: int,
    v1: int,
    v2: int,
    ol: int,
    dl: int,
    oh: int,
    nh: int,
    c: int,
    x: int,
    y: int,
    w: int,
    pa: int,
    pb: int,
    base: int,
    bj: int,
    bj1: int,
)
    requires
        v1 + ol * w == v + dl * w,
        v2 + oh * (10 * w) == v1 + nh * (10 * w),
        dl + 10 * c == x * y + ol,
        nh == oh + c,
        w == pa * pb,
        bj == y * pb + bj1,
        v == base + x * bj1 * pa,
    ensures
        v2 == base + x * bj * pa,
{
    assert(nh * (10 * w) == oh * (10 * w) + 10 * (c * w)) by (nonlinear_arith)
        requires
            nh == oh + c,
    ;
    assert(dl * w + 10 * (c * w) == (x * y) * w + ol * w) by (nonlinear_arith)
        requires
            dl + 10 * c == x * y + ol,
    ;
    assert(v2 == v + (x * y) * w);
    assert(x * bj * pa == (x * y) * w + x * bj1 * pa) by (nonlinear_arith)
        requires
            w == pa * pb,
            bj == y * pb + bj1,
    ;
}

/// The product of two magnitudes.
pub fn mul_magnitudes(a: &Vec<u8>, b: &Vec<u8>) -> (r: Vec<u8>)
    requires
        canonical(a@),
        canonical(b@),
    ensures
        canonical(r@),
        digits_value(r@) == digits_value(a@) * digits_value(b@),
{
    let n = a.len();
    let m = b.len();
    let mut out = zeros(n, m);
    let ghost vb = digits_value(b@) as int;
    proof {
        assert(a@.skip(n as int) =~= Seq::<u8>::empty());
        assert(0 * vb == 0) by (nonlinear_arith);
    }
    let mut i: usize = n;
    while i > 0
        invariant
            n == a.len(),
            m == b.len(),
            out.len() == n + m,
            i <= n,
            all_digits(a@),
            all_digits(b@),
            all_digits(out@),
            vb == digits_value(b@),
            forall|p: int| 0 <= p < i ==> out[p] == 0,
            digits_value(out@) == digits_value(a@.skip(i as int)) * vb,
        decreases i,
    {
        i -= 1;
        let x: u8 = a[i];
        let ghost base = digits_value(a@.skip(i + 1)) * vb;
        let ghost pa = pow10((n - 1 - i) as nat) as int;
        proof {
            assert(b@.skip(m as int) =~= Seq::<u8>::empty());
            assert(x * 0 * pa == 0) by (nonlinear_arith);
        }
        let mut j: usize = m;
        while j > 0
            invariant
                n == a.len(),
                m == b.len(),
                out.len() == n + m,
                i < n,
                j <= m,
                x == a[i as int],
                x <= 9,
                all_digits(b@),
                pa == pow10((n - 1 - i) as nat),
                forall|p: int| 0 <= p < out.len() && p != i + j ==> out[p] <= 9,
                out[i + j] <= 18,
                forall|p: int| 0 <= p < i ==> out[p] == 0,
                j > 0 ==> out[i as int] == 0,
                j == 0 ==> out[i as int] <= 9,
                digits_value(out@) == base + x * digits_value(b@.skip(j as int)) * pa,
            decreases j,
        {
            j -= 1;
            let h = i + j;
            let l = h + 1;
            let y: u8 = b[j];
            assert(x * y <= 81) by (nonlinear_arith)
                requires
                    x <= 9,
                    y <= 9,
            ;
            let p: u8 = x * y + out[l];
            let dl: u8 = p % 10;
            let c: u8 = p / 10;
            let nh: u8 = out[h] + c;
            let ghost before = out@;
            let ghost w = pow10((n + m - 1 - l) as nat) as int;
            let ghost pb = pow10((m - 1 - j) as nat) as int;
            out.set(l, dl);
            let ghost middle = out@;
            out.set(h, nh);
            proof {
                lemma_value_update(before, l as int, dl);
                lemma_value_update(middle, h as int, nh);
                lemma_pow10_add((n - 1 - i) as nat, (m - 1 - j) as nat);
                let t = b@.skip(j as int);
                lemma_value_first(t);
                assert(t.drop_first() =~= b@.skip(j + 1));
                lemma_mul_column(
                    digits_value(before) as int,
                    digits_value(middle) as int,
                    digits_value(out@) as int,
                    before[l as int] as int,
                    dl as int,
                    before[h as int] as int,
                    nh as int,
                    c as int,
                    x as int,
                    y as int,
                    w,
                    pa,
                    pb,
                    base,
                    digits_value(t) as int,
                    digits_value(b@.skip(j + 1)) as int,
                );
            }
        }
        proof {
            assert(b@.skip(0) =~= b@);
            let t = a@.skip(i as int);
            lemma_value_first(t);
            assert(t.drop_first() =~= a@.skip(i + 1));
            let rest = digits_value(a@.skip(i + 1)) as int;
            assert((x * pa + rest) * vb == rest * vb + x * vb * pa) by (nonlinear_arith);
        }
    }
    proof {
        assert(a@.skip(0) =~= a@);
    }
    trim_zero(out)
}

/// Appends the digit `d` to the canonical magnitude `r`, which multiplies it
/// by ten and adds `d`.
fn shift_in(r: &mut Vec<u8>, d: u8)
    requires
        canonical(old(r)@),
        d <= 9,
    ensures
        canonical(final(r)@),
        digits_value(final(r)@) == 10 * digits_value(old(r)@) + d,
{
    if is_zero(r) {
        proof {
            lemma_canonical_zero(r@);
        }
        r.set(0, d);
        proof {
            assert(r@ =~= seq![d]);
            lemma_value_single(d);
        }
    } else {
        proof {
            lemma_canonical_zero(r@);
            lemma_value_push(r@, d);
            if r@.len() == 1 {
                assert(r@ =~= seq![r@[0]]);
                lemma_value_single(r@[0]);
            }
        }
        r.push(d);
    }
}

/// The quotient of two magnitudes, the second not zero, by long division: each
/// quotient digit counts how often the divisor can be taken from the running
/// remainder.
pub fn div_magnitudes(a: &Vec<u8>, b: &Vec<u8>) -> (q: Vec<u8>)
    requires
        canonical(a@),
        canonical(b@),
        digits_value(b@) > 0,
    ensures
        canonical(q@),
        digits_value(q@) == digits_value(a@) / digits_value(b@),
{
    let n = a.len();
    let ghost vb = digits_value(b@) as int;
    let mut q: Vec<u8> = Vec::new();
    let mut r: Vec<u8> = zero();
    proof {
        assert(a@.take(0) =~= Seq::<u8>::empty());
        assert(0 * vb == 0) by (nonlinear_arith);
    }
    let mut i: usize = 0;
    while i < n
        invariant
            n == a.len(),
            i <= n,
            all_digits(a@),
            all_digits(q@),
            canonical(r@),
            canonical(b@),
            vb == digits_value(b@),
            vb > 0,
            digits_value(r@) < vb,
            digits_value(a@.take(i as int)) == digits_value(q@) * vb + digits_value(r@),
        decreases n - i,
    {
        let ghost before = digits_value(r@) as int;
        shift_in(&mut r, a[i]);
        let ghost brought = digits_value(r@) as int;
        let mut c: u8 = 0;
        proof {
            assert(0 * vb == 0) by (nonlinear_arith);
        }
        while !less_than(&r, b)
            invariant
                canonical(r@),
                canonical(b@),
                vb == digits_value(b@),
                vb > 0,
                c <= 9,
                brought < 10 * vb,
                digits_value(r@) + c * vb == brought,
            decreases digits_value(r@),
        {
            proof {
                assert(c < 9) by (nonlinear_arith)
                    requires
                        c * vb + vb <= brought,
                        brought < 10 * vb,
                        vb > 0,
                        c <= 9,
                ;
                assert((c + 1) * vb == c * vb + vb) by (nonlinear_arith);
            }
            r = sub_magnitudes(&r, b);
            c += 1;
        }
        proof {
            let vq = digits_value(q@) as int;
            lemma_value_push(q@, c);
            assert(a@.take(i + 1) =~= a@.take(i as int).push(a@[i as int]));
            lemma_value_push(a@.take(i as int), a@[i as int]);
            assert((10 * vq + c) * vb == 10 * (vq * vb) + c * vb) by (nonlinear_arith);
        }
        q.push(c);
        i += 1;
    }
    proof {
        assert(a@.take(n as int) =~= a@);
        lemma_fundamental_div_mod_converse(
            digits_value(a@) as int,
            vb,
            digits_value(q@) as int,
            digits_value(r@) as int,
        );
    }
    trim_zero(q)
}

} // verus!
