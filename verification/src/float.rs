//! IEEE 754 binary64 arithmetic on bit patterns, as far as the query
//! language needs it: ordering and equality of doubles, and rounding an
//! integer or a decimal literal to the nearest double (ties to even).
//!
//! A double is held as its 64-bit pattern: sign bit, 11 exponent bits,
//! 52 fraction bits.

use vstd::prelude::*;

verus! {

/// `2^n`.
pub open spec fn p2(n: nat) -> int
    decreases n,
{
    if n == 0 {
        1
    } else {
        2 * p2((n - 1) as nat)
    }
}

pub proof fn lemma_p2_pos(n: nat)
    ensures
        p2(n) >= 1,
    decreases n,
{
    if n > 0 {
        lemma_p2_pos((n - 1) as nat);
    }
}

pub proof fn lemma_p2_add(a: nat, b: nat)
    ensures
        p2(a + b) == p2(a) * p2(b),
    decreases b,
{
    if b > 0 {
        lemma_p2_add(a, (b - 1) as nat);
        assert(p2(a + b) == 2 * p2((a + b - 1) as nat));
        assert((a + b - 1) as nat == a + (b - 1) as nat);
        assert(p2(a) * p2(b) == p2(a) * (2 * p2((b - 1) as nat)));
        assert(p2(a) * (2 * p2((b - 1) as nat)) == 2 * (p2(a) * p2((b - 1) as nat))) by (nonlinear_arith);
    }
}

pub proof fn lemma_p2_values()
    ensures
        p2(52) == 0x10_0000_0000_0000,
        p2(53) == 0x20_0000_0000_0000,
        p2(63) == 0x8000_0000_0000_0000,
        p2(64) == 0x1_0000_0000_0000_0000,
{
    reveal_with_fuel(p2, 65);
}

/// The sign bit.
pub open spec fn sign_of(b: u64) -> bool {
    b >= 0x8000_0000_0000_0000
}

/// The biased exponent.
pub open spec fn exponent_of(b: u64) -> int {
    (b % 0x8000_0000_0000_0000) as int / 0x10_0000_0000_0000
}

/// The fraction bits.
pub open spec fn fraction_of(b: u64) -> int {
    b as int % 0x10_0000_0000_0000
}

/// Not a number: the top exponent with a non-zero fraction.
pub open spec fn is_nan(b: u64) -> bool {
    exponent_of(b) == 2047 && fraction_of(b) != 0
}

/// Where a double that is not NaN stands in the order of doubles: its
/// magnitude bits, negated for negative doubles, so that both zeros
/// stand at 0.
pub open spec fn order_key(b: u64) -> int {
    if sign_of(b) {
        -((b % 0x8000_0000_0000_0000) as int)
    } else {
        b as int
    }
}

/// An ordering of two doubles.
#[derive(Debug, Clone, Copy, PartialEq, Eq, Structural)]
pub enum FloatOrder {
    Less,
    Equal,
    Greater,
}

/// How two doubles compare: `None` when either is NaN.
pub open spec fn order_spec(a: u64, b: u64) -> Option<FloatOrder> {
    if is_nan(a) || is_nan(b) {
        None
    } else if order_key(a) < order_key(b) {
        Some(FloatOrder::Less)
    } else if order_key(a) == order_key(b) {
        Some(FloatOrder::Equal)
    } else {
        Some(FloatOrder::Greater)
    }
}

fn nan_bits(b: u64) -> (r: bool)
    ensures
        r == is_nan(b),
{
    let e = (b % 0x8000_0000_0000_0000) / 0x10_0000_0000_0000;
    let f = b % 0x10_0000_0000_0000;
    e == 2047 && f != 0
}

/// Compares two doubles given as bit patterns.
pub fn compare_bits(a: u64, b: u64) -> (r: Option<FloatOrder>)
    ensures
        r == order_spec(a, b),
{
    if nan_bits(a) || nan_bits(b) {
        return None;
    }
    let ma = a % 0x8000_0000_0000_0000;
    let mb = b % 0x8000_0000_0000_0000;
    let na = a >= 0x8000_0000_0000_0000;
    let nb = b >= 0x8000_0000_0000_0000;
    // Compare -ma / ma with -mb / mb without leaving unsigned integers.
    let less = if na && nb {
        mb < ma
    } else if na && !nb {
        !(ma == 0 && mb == 0)
    } else if !na && nb {
        false
    } else {
        ma < mb
    };
    let equal = if na == nb {
        ma == mb
    } else {
        ma == 0 && mb == 0
    };
    if less {
        Some(FloatOrder::Less)
    } else if equal {
        Some(FloatOrder::Equal)
    } else {
        Some(FloatOrder::Greater)
    }
}

/// Equality of doubles: never for NaN, and `0.0 == -0.0`.
pub open spec fn eq_spec(a: u64, b: u64) -> bool {
    order_spec(a, b) == Some(FloatOrder::Equal)
}

/// The bit pattern of the positive double `m * 2^(e - 52)`, for
/// `2^52 <= m < 2^53` and a normal exponent.
pub open spec fn pack(m: int, e: int) -> int {
    (e + 1023) * 0x10_0000_0000_0000 + (m - 0x10_0000_0000_0000)
}

/// The error of `m * 2^(e-52)` against `p / q`, and the unit in which it
/// is measured (one unit in the last place of `m`), both scaled to
/// integers by the same positive factor.
pub open spec fn round_err(p: int, q: int, m: int, e: int) -> (int, int) {
    let s = e - 52;
    if s >= 0 {
        (p - m * q * p2(s as nat), q * p2(s as nat))
    } else {
        (p * p2((-s) as nat) - m * q, q)
    }
}

/// `m * 2^(e-52)` is within half a unit in its last place of `p / q`,
/// and on a tie `m` is even: the rounding of `p / q` to nearest, ties to
/// even, at `m`'s precision.
pub open spec fn rounds_to(p: int, q: int, m: int, e: int) -> bool {
    let (d, unit) = round_err(p, q, m, e);
    &&& 2 * d <= unit
    &&& -unit <= 2 * d
    &&& (2 * d == unit || 2 * d == -unit) ==> m % 2 == 0
}

/// How many times `q` doubles before `p < 2q`.
pub open spec fn up_steps(p: int, q: int) -> nat
    decreases p - q,
{
    if q >= 1 && p >= 2 * q {
        1 + up_steps(p, 2 * q)
    } else {
        0
    }
}

/// How many times `p` doubles before `q <= p`.
pub open spec fn dn_steps(p: int, q: int) -> nat
    decreases (if p < q {
        q - p
    } else {
        0
    }),
{
    if p >= 1 && p < q {
        1 + dn_steps(2 * p, q)
    } else {
        0
    }
}

/// Long division of `num / den` (in `[1, 2)`) to 53 bits: the quotient
/// bits so far `m` and the remainder, from the `k`-th bit on.
pub open spec fn mant_bits(den: int, k: nat, m: int, rem: int) -> (int, int)
    decreases 53 - k,
{
    if k >= 53 {
        (m, rem)
    } else if 2 * rem >= den {
        mant_bits(den, k + 1, 2 * m + 1, 2 * rem - den)
    } else {
        mant_bits(den, k + 1, 2 * m, 2 * rem)
    }
}

/// The mantissa and exponent [`round_ratio`] gives for `p / q`: scale to
/// `[1, 2)`, take 53 bits, round half to even on the remainder.
pub open spec fn round_spec(p: int, q: int) -> (int, int) {
    let up = up_steps(p, q);
    let den = q * p2(up);
    let dn = if up == 0 {
        dn_steps(p, q)
    } else {
        0
    };
    let num = p * p2(dn);
    let (m0, rem) = mant_bits(den, 1, 1, num - den);
    let e0 = up - dn;
    if 2 * rem > den || (2 * rem == den && m0 % 2 == 1) {
        if m0 + 1 == 0x20_0000_0000_0000 {
            (0x10_0000_0000_0000, e0 + 1)
        } else {
            (m0 + 1, e0)
        }
    } else {
        (m0, e0)
    }
}

/// Rounds the positive ratio `p / q` to the nearest double (ties to even)
/// and returns its mantissa (with the leading bit) and exponent.
#[verifier::rlimit(50)]
pub fn round_ratio(p: u64, q: u64) -> (r: (u64, i64))
    requires
        p > 0,
        q > 0,
    ensures
        0x10_0000_0000_0000 <= r.0 < 0x20_0000_0000_0000,
        -66 <= r.1 <= 65,
        rounds_to(p as int, q as int, r.0 as int, r.1 as int),
        (r.0 as int, r.1 as int) == round_spec(p as int, q as int),
{
    let mut num: u128 = p as u128;
    let mut den: u128 = q as u128;
    let mut e: i64 = 0;
    // Scale so that den <= num < 2 den; then p / q = (num / den) * 2^e.
    let ghost mut up: nat = 0;
    let ghost mut dn: nat = 0;
    while num >= 2 * den
        invariant
            den >= 1,
            num == p,
            num < 0x1_0000_0000_0000_0000,
            den < 0x1_0000_0000_0000_0000,
            den == q * p2(up),
            up > 0 ==> den <= num,
            e == up,
            dn == 0,
            up <= 64,
            up_steps(p as int, q as int) == up + up_steps(p as int, den as int),
        decreases num - den,
    {
        den = den * 2;
        e = e + 1;
        proof {
            up = up + 1;
            assert(p2(up) == 2 * p2((up - 1) as nat));
            assert(q * p2(up) == 2 * (q * p2((up - 1) as nat))) by (nonlinear_arith)
                requires p2(up) == 2 * p2((up - 1) as nat);
            lemma_p2_values();
            if up > 64 {
                lemma_p2_mono(64, up);
                assert(q * p2(up) >= p2(up)) by (nonlinear_arith)
                    requires q >= 1, p2(up) >= 0;
            }
        }
    }
    while num < den
        invariant
            num >= 1,
            den < 0x1_0000_0000_0000_0000,
            num < 2 * den,
            den == q * p2(up),
            num == p * p2(dn),
            e == up - dn,
            up > 0 ==> den <= num,
            up == 0 || dn == 0,
            up <= 64,
            dn <= 64,
            up == up_steps(p as int, q as int),
            num < den ==> up == 0,
            up == 0 ==> dn_steps(p as int, q as int) == dn + dn_steps(num as int, den as int),
        decreases 64 - dn,
    {
        num = num * 2;
        e = e - 1;
        proof {
            dn = dn + 1;
            assert(p2(dn) == 2 * p2((dn - 1) as nat));
            assert(p * p2(dn) == 2 * (p * p2((dn - 1) as nat))) by (nonlinear_arith)
                requires p2(dn) == 2 * p2((dn - 1) as nat);
            lemma_p2_values();
            if dn > 64 {
                lemma_p2_mono(64, dn);
                assert(p * p2(dn) >= p2(dn)) by (nonlinear_arith)
                    requires p >= 1, p2(dn) >= 0;
            }
        }
    }
    // 53 bits of num / den: num * 2^(k-1) = m * den + rem.
    proof {
        lemma_p2_values();
        reveal_with_fuel(p2, 2);
        assert(up_steps(p as int, den as int) == 0);
        assert(dn_steps(num as int, den as int) == 0);
    }
    let mut m: u64 = 1;
    let mut rem: u128 = num - den;
    let mut k: u64 = 1;
    while k < 53
        invariant
            1 <= k <= 53,
            den <= num < 2 * den,
            den < 0x1_0000_0000_0000_0000,
            rem < den,
            p2((k - 1) as nat) <= m < p2(k as nat),
            num * p2((k - 1) as nat) == m * den + rem,
            mant_bits(den as int, 1, 1, num - den) == mant_bits(den as int, k as nat, m as int, rem as int),
        decreases 53 - k,
    {
        proof {
            lemma_p2_values();
            lemma_p2_mono(k as nat, 52);
        }
        let ghost m_prev = m;
        let ghost r_prev = rem;
        let twice = rem * 2;
        if twice >= den {
            m = 2 * m + 1;
            rem = twice - den;
        } else {
            m = 2 * m;
            rem = twice;
        }
        proof {
            assert(p2(k as nat) == 2 * p2((k - 1) as nat));
            assert(p2((k + 1) as nat) == 2 * p2(k as nat));
            assert(num * p2(k as nat) == 2 * (num * p2((k - 1) as nat))) by (nonlinear_arith)
                requires p2(k as nat) == 2 * p2((k - 1) as nat);
            assert(m * den + rem == 2 * (m_prev * den + r_prev)) by (nonlinear_arith)
                requires
                    (m == 2 * m_prev + 1 && rem == 2 * r_prev - den) || (m == 2 * m_prev && rem == 2 * r_prev);
        }
        k = k + 1;
    }
    proof {
        lemma_p2_values();
    }
    // Round on the remainder: rem / den against one half.
    let twice = rem * 2;
    let round_up = twice > den || (twice == den && m % 2 == 1);
    let ghost m0 = m;
    let ghost e0 = e;
    if round_up {
        m = m + 1;
        if m == 0x20_0000_0000_0000 {
            m = 0x10_0000_0000_0000;
            e = e + 1;
        }
    }
    proof {
        lemma_rounding(p as int, q as int, num as int, den as int, up, dn, m0 as int, rem as int, e0 as int, m as int, e as int, round_up);
    }
    (m, e)
}

pub proof fn lemma_p2_mono(a: nat, b: nat)
    requires
        a <= b,
    ensures
        p2(a) <= p2(b),
    decreases b,
{
    if a < b {
        lemma_p2_mono(a, (b - 1) as nat);
        lemma_p2_pos((b - 1) as nat);
    }
}

/// The rounding step of [`round_ratio`] meets [`rounds_to`].
#[verifier::rlimit(40)]
proof fn lemma_rounding(
    p: int,
    q: int,
    num: int,
    den: int,
    up: nat,
    dn: nat,
    m0: int,
    rem: int,
    e0: int,
    m: int,
    e: int,
    round_up: bool,
)
    requires
        p >= 1,
        q >= 1,
        den == q * p2(up),
        num == p * p2(dn),
        up == 0 || dn == 0,
        up <= 64,
        dn <= 64,
        e0 == up - dn,
        0 <= rem < den,
        num * p2(52) == m0 * den + rem,
        p2(52) <= m0 < p2(53),
        round_up == (2 * rem > den || (2 * rem == den && m0 % 2 == 1)),
        !round_up ==> m == m0 && e == e0,
        round_up && m0 + 1 < p2(53) ==> m == m0 + 1 && e == e0,
        round_up && m0 + 1 == p2(53) ==> m == p2(52) && e == e0 + 1,
    ensures
        rounds_to(p, q, m, e),
{
    lemma_p2_values();
    lemma_p2_pos(up);
    lemma_p2_pos(dn);
    let s0 = e0 - 52;
    let (d0, unit0) = round_err(p, q, m0, e0);
    // d0 * f == rem and unit0 * f == den for a positive factor f.
    let f: int = if s0 < 0 {
        p2(up)
    } else {
        p2(52)
    };
    if s0 < 0 {
        let t = (52 + dn - up) as nat;
        lemma_p2_add(t, up);
        lemma_p2_add(52, dn);
        let x = p2(t);
        let y = p2(up);
        let z = p2(dn);
        let w = p2(52);
        assert(x * y == w * z);
        assert(p * (x * y) == p * (w * z)) by (nonlinear_arith)
            requires x * y == w * z;
        assert(d0 == p * x - m0 * q);
        assert(d0 * y == p * (x * y) - m0 * (q * y)) by (nonlinear_arith)
            requires d0 == p * x - m0 * q;
        assert(num * w == p * (w * z)) by (nonlinear_arith)
            requires num == p * z;
        assert(d0 * f == rem);
        assert(unit0 * f == den);
    } else {
        let s = (up - 52) as nat;
        assert(dn == 0);
        lemma_p2_add(s, 52);
        assert(p2(dn) == 1) by {
            assert(p2(0) == 1);
        }
        assert(num == p * 1);
        let x = p2(s);
        let w = p2(52);
        assert(x * w == p2(up));
        assert(d0 == p - m0 * q * x);
        assert(d0 * w == p * w - m0 * (q * (x * w))) by (nonlinear_arith)
            requires d0 == p - m0 * q * x;
        assert(num == p);
        assert(d0 * f == rem);
        assert(unit0 * w == q * (x * w)) by (nonlinear_arith)
            requires unit0 == q * x;
        assert(unit0 * f == den);
    }
    assert(f >= 1);
    assert(unit0 >= 1) by (nonlinear_arith)
        requires unit0 * f == den, den >= 1, f >= 1;
    if !round_up {
        assert(2 * d0 <= unit0 && d0 >= 0) by (nonlinear_arith)
            requires d0 * f == rem, unit0 * f == den, f >= 1, 2 * rem <= den, rem >= 0;
        if 2 * d0 == unit0 {
            assert(2 * rem == den) by (nonlinear_arith)
                requires d0 * f == rem, unit0 * f == den, 2 * d0 == unit0;
        }
    } else {
        let d1 = d0 - unit0;
        assert(2 * d1 <= unit0 && -unit0 <= 2 * d1 && d1 < 0) by (nonlinear_arith)
            requires d0 * f == rem, unit0 * f == den, f >= 1, 2 * rem >= den, rem < den, d1 == d0 - unit0;
        if 2 * d1 == -unit0 {
            assert(2 * rem == den) by (nonlinear_arith)
                requires d0 * f == rem, unit0 * f == den, 2 * d1 == -unit0, d1 == d0 - unit0;
        }
        if m0 + 1 < p2(53) {
            if s0 < 0 {
                let t = (-s0) as nat;
                assert(p * p2(t) - (m0 + 1) * q == d1) by (nonlinear_arith)
                    requires d0 == p * p2(t) - m0 * q, d1 == d0 - unit0, unit0 == q;
            } else {
                let s = s0 as nat;
                assert(p - (m0 + 1) * q * p2(s) == d1) by (nonlinear_arith)
                    requires d0 == p - m0 * q * p2(s), d1 == d0 - unit0, unit0 == q * p2(s);
            }
        } else {
            assert(p2(53) == 2 * p2(52));
            assert(m % 2 == 0);
            if s0 >= 0 {
                let s = s0 as nat;
                let s1 = (s0 + 1) as nat;
                assert(p2(s1) == 2 * p2(s));
                let (d, u) = round_err(p, q, m, e);
                assert(d == p - p2(52) * q * p2(s1));
                assert(d == d1) by (nonlinear_arith)
                    requires
                        d == p - p2(52) * q * p2(s1),
                        p2(s1) == 2 * p2(s),
                        d0 == p - m0 * q * p2(s),
                        m0 + 1 == 2 * p2(52),
                        d1 == d0 - unit0,
                        unit0 == q * p2(s);
                assert(u == 2 * unit0) by (nonlinear_arith)
                    requires u == q * p2(s1), p2(s1) == 2 * p2(s), unit0 == q * p2(s);
            } else if s0 == -1 {
                let (d, u) = round_err(p, q, m, e);
                assert(p2(1) == 2) by {
                    reveal_with_fuel(p2, 2);
                }
                assert(d == p - p2(52) * q) by {
                    assert(e - 52 == 0);
                    assert(p2(0) == 1);
                    assert(m == p2(52));
                    assert(m * q * 1 == p2(52) * q);
                }
                assert(d0 == p * 2 - m0 * q);
                assert(2 * d == d1) by (nonlinear_arith)
                    requires
                        d == p - p2(52) * q,
                        d0 == p * 2 - m0 * q,
                        m0 + 1 == 2 * p2(52),
                        d1 == d0 - unit0,
                        unit0 == q;
                assert(u == q * p2(0));
                assert(p2(0) == 1);
                assert(u == q);
            } else {
                let t = (-s0) as nat;
                let t1 = (t - 1) as nat;
                assert(p2(t) == 2 * p2(t1));
                let (d, u) = round_err(p, q, m, e);
                assert(d == p * p2(t1) - p2(52) * q);
                assert(2 * d == d1) by (nonlinear_arith)
                    requires
                        d == p * p2(t1) - p2(52) * q,
                        p2(t) == 2 * p2(t1),
                        d0 == p * p2(t) - m0 * q,
                        m0 + 1 == 2 * p2(52),
                        d1 == d0 - unit0,
                        unit0 == q;
                assert(u == q);
            }
        }
    }
}

/// The bit pattern of `(-1)^neg * m * 2^(e - 52)`.
pub open spec fn bits_of(neg: bool, m: int, e: int) -> int {
    (if neg {
        0x8000_0000_0000_0000int
    } else {
        0int
    }) + pack(m, e)
}

/// `10^k`.
pub open spec fn p10(k: nat) -> int
    decreases k,
{
    if k == 0 {
        1
    } else {
        10 * p10((k - 1) as nat)
    }
}

/// The double nearest to `(-1)^neg * p / q` (ties to even), for `p > 0`.
pub open spec fn nearest(neg: bool, p: int, q: int, r: u64) -> bool {
    exists|m: int, e: int|
        0x10_0000_0000_0000 <= m < 0x20_0000_0000_0000 && -66 <= e <= 65 && rounds_to(p, q, m, e)
            && r == bits_of(neg, m, e)
}

fn assemble(neg: bool, m: u64, e: i64) -> (r: u64)
    requires
        0x10_0000_0000_0000 <= m < 0x20_0000_0000_0000,
        -66 <= e <= 65,
    ensures
        r == bits_of(neg, m as int, e as int),
{
    let biased: u64 = (e + 1023) as u64;
    let body: u64 = biased * 0x10_0000_0000_0000 + (m - 0x10_0000_0000_0000);
    if neg {
        body + 0x8000_0000_0000_0000
    } else {
        body
    }
}

/// The bits of the double nearest to `(-1)^neg * p / q`, as computed by
/// [`round_spec`]; a zero keeps its sign.
pub open spec fn ratio_bits(neg: bool, p: int, q: int) -> int {
    if p == 0 {
        if neg {
            0x8000_0000_0000_0000
        } else {
            0
        }
    } else {
        bits_of(neg, round_spec(p, q).0, round_spec(p, q).1)
    }
}

/// The bits of the double nearest to the integer `x` (`x as f64`).
pub open spec fn int_bits(x: i64) -> int {
    if x == 0 {
        0
    } else {
        ratio_bits(x < 0, if x < 0 { -x } else { x as int }, 1)
    }
}

/// The double nearest to an integer.
pub fn i64_to_f64_bits(x: i64) -> (r: u64)
    ensures
        r == int_bits(x),
        x == 0 ==> r == 0,
        x != 0 ==> nearest(x < 0, if x < 0 { -x } else { x as int }, 1, r),
{
    if x == 0 {
        return 0;
    }
    let neg = x < 0;
    let mag: u64 = if neg {
        if x == i64::MIN {
            0x8000_0000_0000_0000
        } else {
            (-x) as u64
        }
    } else {
        x as u64
    };
    let (m, e) = round_ratio(mag, 1);
    assemble(neg, m, e)
}

/// The double nearest to `(-1)^neg * digits / 10^frac_len`; a zero keeps
/// its sign.
pub fn decimal_to_f64_bits(neg: bool, digits: u64, frac_len: u32) -> (r: u64)
    requires
        frac_len <= 19,
    ensures
        digits == 0 ==> r == (if neg {
            0x8000_0000_0000_0000u64
        } else {
            0u64
        }),
        digits != 0 ==> nearest(neg, digits as int, p10(frac_len as nat), r),
        r == ratio_bits(neg, digits as int, p10(frac_len as nat)),
{
    if digits == 0 {
        return if neg {
            0x8000_0000_0000_0000
        } else {
            0
        };
    }
    let mut q: u64 = 1;
    let mut i: u32 = 0;
    while i < frac_len
        invariant
            i <= frac_len <= 19,
            q == p10(i as nat),
            1 <= q <= 10_000_000_000_000_000_000u64,
        decreases frac_len - i,
    {
        proof {
            lemma_p10_bound(i as nat);
        }
        q = q * 10;
        i = i + 1;
    }
    let (m, e) = round_ratio(digits, q);
    assemble(neg, m, e)
}

/// `up_steps` finds the power of two that brackets `p / q`.
proof fn lemma_up_steps(p: int, q: int)
    requires
        1 <= q <= p,
    ensures
        q * p2(up_steps(p, q)) <= p < q * p2(up_steps(p, q) + 1),
    decreases p - q,
{
    if p >= 2 * q {
        lemma_up_steps(p, 2 * q);
        let u = up_steps(p, 2 * q);
        assert(p2(u + 1) == 2 * p2(u));
        assert(p2(u + 2) == 2 * p2(u + 1));
        assert(up_steps(p, q) == u + 1);
        assert(2 * q * p2(u) == q * p2(u + 1)) by (nonlinear_arith)
            requires
                p2(u + 1) == 2 * p2(u),
        ;
        assert(2 * q * p2(u + 1) == q * p2(u + 2)) by (nonlinear_arith)
            requires
                p2(u + 2) == 2 * p2(u + 1),
        ;
    } else {
        assert(p2(1) == 2) by {
            reveal_with_fuel(p2, 2);
        }
        assert(up_steps(p, q) == 0);
        assert(p2(0) == 1);
        assert(q * p2(0) == q);
        assert(q * p2(1) == 2 * q);
    }
}

/// The long division of [`mant_bits`] keeps `num * 2^(k-1) == m * den + rem`
/// with `0 <= rem < den`, up to the 53rd bit.
proof fn lemma_mant_bits(num: int, den: int, k: nat, m: int, rem: int)
    requires
        den >= 1,
        1 <= k <= 53,
        0 <= rem < den,
        num * p2((k - 1) as nat) == m * den + rem,
    ensures
        num * p2(52) == mant_bits(den, k, m, rem).0 * den + mant_bits(den, k, m, rem).1,
        0 <= mant_bits(den, k, m, rem).1 < den,
    decreases 53 - k,
{
    if k < 53 {
        assert(p2(k) == 2 * p2((k - 1) as nat));
        assert(num * p2(k) == 2 * (num * p2((k - 1) as nat))) by (nonlinear_arith)
            requires
                p2(k) == 2 * p2((k - 1) as nat),
        ;
        if 2 * rem >= den {
            assert(num * p2(k) == (2 * m + 1) * den + (2 * rem - den)) by (nonlinear_arith)
                requires
                    num * p2(k) == 2 * (m * den + rem),
            ;
            lemma_mant_bits(num, den, k + 1, 2 * m + 1, 2 * rem - den);
        } else {
            assert(num * p2(k) == (2 * m) * den + 2 * rem) by (nonlinear_arith)
                requires
                    num * p2(k) == 2 * (m * den + rem),
            ;
            lemma_mant_bits(num, den, k + 1, 2 * m, 2 * rem);
        }
    }
}

/// Where the double nearest to the positive integer `x` stands among the
/// positive doubles: the pattern of the rounded mantissa and exponent.
pub open spec fn int_rank(x: int) -> int {
    pack(round_spec(x, 1).0, round_spec(x, 1).1)
}

/// The rank of a positive integer's rounding, through the truncated
/// mantissa `m0` and the rounding bit, at the bracketing power `2^u`.
proof fn lemma_int_rank_parts(x: int)
    requires
        1 <= x <= 0x8000_0000_0000_0000,
    ensures
        ({
            let u = up_steps(x, 1);
            let (m0, rem) = mant_bits(p2(u), 1, 1, x - p2(u));
            let ru: int = if 2 * rem > p2(u) || (2 * rem == p2(u) && m0 % 2 == 1) { 1 } else { 0 };
            &&& p2(u) <= x < 2 * p2(u)
            &&& u <= 63
            &&& x * p2(52) == m0 * p2(u) + rem
            &&& 0 <= rem < p2(u)
            &&& p2(52) <= m0 < p2(53)
            &&& int_rank(x) == (u + 1023) * p2(52) + m0 + ru - p2(52)
            &&& round_spec(x, 1).1 == u || (round_spec(x, 1).1 == u + 1 && round_spec(x, 1).0 == p2(52))
            &&& p2(52) <= round_spec(x, 1).0 < p2(53)
        }),
{
    lemma_up_steps(x, 1);
    let u = up_steps(x, 1);
    let d = p2(u);
    lemma_p2_values();
    lemma_p2_pos(u);
    assert(p2(u + 1) == 2 * d);
    if u >= 64 {
        lemma_p2_mono(64, u);
        assert(false);
    }
    assert(dn_steps(x, 1) == 0);
    assert(x * p2(0) == 1 * d + (x - d));
    lemma_mant_bits(x, d, 1, 1, x - d);
    let (m0, rem) = mant_bits(d, 1, 1, x - d);
    let big = p2(52);
    assert(x * big == m0 * d + rem);
    assert(m0 < p2(53)) by (nonlinear_arith)
        requires
            x * big == m0 * d + rem,
            x < 2 * d,
            0 <= rem,
            d >= 1,
            p2(53) == 2 * big,
            big >= 1,
    ;
    assert(big <= m0) by (nonlinear_arith)
        requires
            x * big == m0 * d + rem,
            d <= x,
            rem < d,
            d >= 1,
            big >= 1,
    ;
    assert(round_spec(x, 1) == if 2 * rem > d || (2 * rem == d && m0 % 2 == 1) {
        if m0 + 1 == 0x20_0000_0000_0000 {
            (0x10_0000_0000_0000int, (u + 1) as int)
        } else {
            (m0 + 1, u as int)
        }
    } else {
        (m0, u as int)
    });
}

/// Rounding positive integers to doubles keeps their order.
pub proof fn lemma_int_rank_mono(x: int, y: int)
    requires
        1 <= x <= y <= 0x8000_0000_0000_0000,
    ensures
        int_rank(x) <= int_rank(y),
        p2(52) <= int_rank(x) < 2047 * p2(52),
{
    lemma_int_rank_parts(x);
    lemma_int_rank_parts(y);
    lemma_p2_values();
    let ux = up_steps(x, 1);
    let uy = up_steps(y, 1);
    let (mx, rx) = mant_bits(p2(ux), 1, 1, x - p2(ux));
    let (my, ry) = mant_bits(p2(uy), 1, 1, y - p2(uy));
    if ux > uy {
        lemma_p2_mono(uy + 1, ux);
        assert(p2(uy + 1) == 2 * p2(uy));
        assert(false);
    }
    if ux < uy {
        assert(int_rank(x) <= (ux + 1024) * p2(52));
        assert((ux + 1024) * p2(52) <= (uy + 1023) * p2(52)) by (nonlinear_arith)
            requires
                ux + 1 <= uy,
                p2(52) >= 1,
        ;
    } else {
        let d = p2(ux);
        let big = p2(52);
        if mx > my {
            assert(x * big > y * big) by (nonlinear_arith)
                requires
                    x * big == mx * d + rx,
                    y * big == my * d + ry,
                    mx >= my + 1,
                    0 <= rx,
                    ry < d,
                    d >= 1,
            ;
            assert(x > y) by (nonlinear_arith)
                requires
                    x * big > y * big,
                    big >= 1,
            ;
        }
        if mx == my {
            assert(rx <= ry) by (nonlinear_arith)
                requires
                    x * big == mx * d + rx,
                    y * big == my * d + ry,
                    mx == my,
                    x <= y,
                    big >= 1,
            ;
        }
    }
    assert((ux + 1023) * p2(52) >= 1023 * p2(52)) by (nonlinear_arith)
        requires
            ux >= 0,
            p2(52) >= 1,
    ;
    assert((ux + 1023) * p2(52) <= 1086 * p2(52)) by (nonlinear_arith)
        requires
            ux <= 63,
            p2(52) >= 1,
    ;
}

/// The double nearest to an integer is a number (not NaN), and it stands
/// in the order of doubles where the integer's rounding does: at the
/// rank of its magnitude, negated for a negative integer.
pub proof fn lemma_int_bits_key(x: i64)
    ensures
        0 <= int_bits(x) < 0x1_0000_0000_0000_0000,
        !is_nan(int_bits(x) as u64),
        order_key(int_bits(x) as u64) == if x > 0 {
            int_rank(x as int)
        } else if x < 0 {
            -int_rank(-(x as int))
        } else {
            0
        },
{
    lemma_p2_values();
    if x != 0 {
        let a: int = if x < 0 { -(x as int) } else { x as int };
        lemma_int_rank_mono(a, a);
        lemma_int_rank_parts(a);
        let k = int_rank(a);
        assert(int_bits(x) == (if x < 0 { 0x8000_0000_0000_0000int } else { 0int }) + k);
        assert(k < 0x8000_0000_0000_0000);
        let b = int_bits(x) as u64;
        assert(b as int == int_bits(x));
        assert((b % 0x8000_0000_0000_0000) as int == k);
        assert(exponent_of(b) < 2047);
    }
}

/// Rounding integers to doubles keeps their order.
pub proof fn lemma_int_bits_mono(x: i64, y: i64)
    requires
        x <= y,
    ensures
        order_key(int_bits(x) as u64) <= order_key(int_bits(y) as u64),
{
    lemma_int_bits_key(x);
    lemma_int_bits_key(y);
    if x > 0 {
        lemma_int_rank_mono(x as int, y as int);
    } else if y < 0 {
        lemma_int_rank_mono(-(y as int), -(x as int));
    } else {
        if x < 0 {
            lemma_int_rank_mono(-(x as int), -(x as int));
        }
        if y > 0 {
            lemma_int_rank_mono(y as int, y as int);
        }
    }
}

/// A positive integer below `2^53` rounds to a double exactly: no bits
/// are lost, so distinct such integers keep their strict order.
pub proof fn lemma_int_rank_strict(x: int, y: int)
    requires
        1 <= x < y < 0x20_0000_0000_0000,
    ensures
        int_rank(x) < int_rank(y),
{
    lemma_int_rank_parts(x);
    lemma_int_rank_parts(y);
    lemma_p2_values();
    let ux = up_steps(x, 1);
    let uy = up_steps(y, 1);
    let (mx, rx) = mant_bits(p2(ux), 1, 1, x - p2(ux));
    let (my, ry) = mant_bits(p2(uy), 1, 1, y - p2(uy));
    lemma_exact_mantissa(x);
    lemma_exact_mantissa(y);
    if ux > uy {
        lemma_int_rank_mono(x, y);
        lemma_p2_mono(uy + 1, ux);
        assert(p2(uy + 1) == 2 * p2(uy));
        assert(false);
    }
    if ux < uy {
        assert(int_rank(x) < (ux + 1024) * p2(52));
        assert((ux + 1024) * p2(52) <= (uy + 1023) * p2(52)) by (nonlinear_arith)
            requires
                ux + 1 <= uy,
                p2(52) >= 1,
        ;
    } else {
        let d = p2(ux);
        assert(mx < my) by (nonlinear_arith)
            requires
                x * p2(52) == mx * d,
                y * p2(52) == my * d,
                x < y,
                p2(52) >= 1,
                d >= 1,
        ;
    }
}

/// Below `2^53` the long division leaves no remainder.
proof fn lemma_exact_mantissa(x: int)
    requires
        1 <= x < 0x20_0000_0000_0000,
    ensures
        mant_bits(p2(up_steps(x, 1)), 1, 1, x - p2(up_steps(x, 1))).1 == 0,
{
    lemma_int_rank_parts(x);
    lemma_p2_values();
    let u = up_steps(x, 1);
    let d = p2(u);
    let (m0, rem) = mant_bits(d, 1, 1, x - d);
    if u > 52 {
        lemma_p2_mono(53, u);
        assert(false);
    }
    let k = (52 - u) as nat;
    lemma_p2_add(k, u);
    assert(k + u == 52);
    assert(p2(52) == p2(k) * d);
    assert(rem == (x * p2(k) - m0) * d) by (nonlinear_arith)
        requires
            x * p2(52) == m0 * d + rem,
            p2(52) == p2(k) * d,
    ;
    if x * p2(k) - m0 > 0 {
        assert((x * p2(k) - m0) * d >= d) by (nonlinear_arith)
            requires
                x * p2(k) - m0 >= 1,
                d >= 1,
        ;
    }
    if x * p2(k) - m0 < 0 {
        assert((x * p2(k) - m0) * d < 0) by (nonlinear_arith)
            requires
                x * p2(k) - m0 <= -1,
                d >= 1,
        ;
    }
}

/// Integers of magnitude below `2^53` round to doubles that keep their
/// strict order.
pub proof fn lemma_int_bits_strict(x: i64, y: i64)
    requires
        -0x20_0000_0000_0000 < x < y < 0x20_0000_0000_0000,
    ensures
        order_key(int_bits(x) as u64) < order_key(int_bits(y) as u64),
{
    lemma_int_bits_key(x);
    lemma_int_bits_key(y);
    lemma_p2_values();
    if x > 0 {
        lemma_int_rank_strict(x as int, y as int);
    } else if y < 0 {
        lemma_int_rank_strict(-(y as int), -(x as int));
    } else {
        if x < 0 {
            lemma_int_rank_mono(-(x as int), -(x as int));
        }
        if y > 0 {
            lemma_int_rank_mono(y as int, y as int);
        }
    }
}

pub proof fn lemma_p10_mono(a: nat, b: nat)
    requires
        a <= b,
    ensures
        1 <= p10(a) <= p10(b),
    decreases b,
{
    if b > 0 {
        if a < b {
            lemma_p10_mono(a, (b - 1) as nat);
        } else {
            lemma_p10_mono((a - 1) as nat, (b - 1) as nat);
        }
    }
}

pub proof fn lemma_p10_bound(k: nat)
    requires
        k < 19,
    ensures
        1 <= p10(k) <= 1_000_000_000_000_000_000,
{
    lemma_p10_mono(k, 18);
    reveal_with_fuel(p10, 19);
}

} // verus!
