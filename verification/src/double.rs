//! Binary floating-point numbers of double precision, held as sign, mantissa and exponent.

use vstd::prelude::*;

verus! {

/// Two to the power `e`, for any integer `e`.
pub open spec fn two_to(e: int) -> real
    decreases
            (if e >= 0 {
                e
            } else {
                -e
            }),
{
    if e == 0 {
        1 as real
    } else if e > 0 {
        two_to(e - 1) * (2 as real)
    } else {
        two_to(e + 1) / (2 as real)
    }
}

/// The integer closest to `x`; of two equally close ones, the even one.
pub open spec fn half_even(x: real) -> int {
    let below = x.floor();
    let above = below + 1;
    if x - (below as real) < (above as real) - x {
        below
    } else if x - (below as real) > (above as real) - x {
        above
    } else if below % 2 == 0 {
        below
    } else {
        above
    }
}

/// A double: what the 64 bits of the binary interchange format stand for.
#[derive(Clone, Copy, Debug, PartialEq, Eq, Structural)]
pub enum Double {
    Nan,
    Infinite { negative: bool },
    /// The number `mantissa * 2^exponent`, negated if `negative` is set.
    Finite { negative: bool, mantissa: u64, exponent: i32 },
}

impl Double {
    /// Zero without a sign.
    #[verifier::allow_in_spec]
    pub fn zero() -> Double
        returns
            (Double::Finite { negative: false, mantissa: 0, exponent: -1074i32 }),
    {
        Double::Finite { negative: false, mantissa: 0, exponent: -1074 }
    }

    /// The representation is the canonical one: 53 significant bits, fewer only next to zero.
    pub open spec fn wf(self) -> bool {
        match self {
            Double::Finite { negative, mantissa, exponent } => {
                &&& mantissa < 0x20_0000_0000_0000
                &&& -1074 <= exponent <= 971
                &&& mantissa >= 0x10_0000_0000_0000 || exponent == -1074
            },
            _ => true,
        }
    }

    /// The distance from zero of a finite double.
    pub open spec fn magnitude(self) -> real {
        match self {
            Double::Finite { negative, mantissa, exponent } => (mantissa as real) * two_to(
                exponent as int,
            ),
            _ => 0 as real,
        }
    }

    /// The number that a finite double stands for.
    pub open spec fn value(self) -> real {
        if self.is_negative() {
            -self.magnitude()
        } else {
            self.magnitude()
        }
    }

    /// The sign is set.
    pub open spec fn is_negative(self) -> bool {
        match self {
            Double::Finite { negative, .. } => negative,
            Double::Infinite { negative } => negative,
            Double::Nan => false,
        }
    }

    /// Zero, with or without a sign.
    pub open spec fn is_zero(self) -> bool {
        self matches Double::Finite { mantissa, .. } && mantissa == 0
    }

    /// Zero, or a positive double far from both ends of the range of exponents.
    pub open spec fn is_moderate(self) -> bool {
        self == Double::zero() || (self.is_amount() && self->mantissa >= 0x10_0000_0000_0000
            && -300 <= self->exponent <= 300)
    }

    /// A finite double that is not below zero.
    pub open spec fn is_amount(self) -> bool {
        self matches Double::Finite { negative, .. } && !negative && self.wf()
    }
}

/// `x` lies where doubles are `2^e` apart.
pub open spec fn in_binade(x: real, e: int) -> bool {
    two_to(e + 52) <= x < two_to(e + 53)
}

/// The exponent of the doubles around the positive number `x`.
pub open spec fn scale(x: real) -> int {
    choose|e: int| in_binade(x, e)
}

/// The exponent of the doubles around `x`, which is not negative. Below `2^-1022` they are
/// `2^-1074` apart, down to zero.
pub open spec fn place(x: real) -> int {
    if x < two_to(-1022) {
        -1074
    } else {
        scale(x)
    }
}

/// The double `m * 2^e`, or infinity if it is beyond the largest one.
pub open spec fn composed(m: int, e: int) -> Double {
    if e > 971 {
        Double::Infinite { negative: false }
    } else {
        Double::Finite { negative: false, mantissa: m as u64, exponent: e as i32 }
    }
}

/// The double closest to `x`, which is not negative, ties going to the even mantissa. What is
/// rounded beyond the largest double becomes infinite.
pub open spec fn nearest(x: real) -> Double {
    let m = half_even(x / two_to(place(x)));
    if x == 0 as real {
        Double::zero()
    } else if m == 0x20_0000_0000_0000 {
        composed(0x10_0000_0000_0000, place(x) + 1)
    } else {
        composed(m, place(x))
    }
}

/// `d` with the sign set as `negative` says.
pub open spec fn signed(negative: bool, d: Double) -> Double {
    match d {
        Double::Finite { mantissa, exponent, .. } => Double::Finite {
            negative,
            mantissa,
            exponent,
        },
        Double::Infinite { .. } => Double::Infinite { negative },
        Double::Nan => Double::Nan,
    }
}

/// The rounded quotient of any two doubles.
pub open spec fn quotient(a: Double, b: Double) -> Double {
    let negative = a.is_negative() != b.is_negative();
    if a is Nan || b is Nan || (a is Infinite && b is Infinite) || (a.is_zero() && b.is_zero()) {
        Double::Nan
    } else if a is Infinite || b.is_zero() {
        Double::Infinite { negative }
    } else if b is Infinite {
        signed(negative, Double::zero())
    } else {
        signed(negative, nearest(a.magnitude() / b.magnitude()))
    }
}

/// The rounded product of any two doubles.
pub open spec fn product(a: Double, b: Double) -> Double {
    let negative = a.is_negative() != b.is_negative();
    if a is Nan || b is Nan || (a is Infinite && b.is_zero()) || (a.is_zero() && b is Infinite) {
        Double::Nan
    } else if a is Infinite || b is Infinite {
        Double::Infinite { negative }
    } else {
        signed(negative, nearest(a.magnitude() * b.magnitude()))
    }
}

/// The quotient of two integers as a real number.
pub open spec fn ratio(p: int, q: int) -> real {
    (p as real) / (q as real)
}

pub proof fn lemma_two_to_positive(e: int)
    ensures
        two_to(e) > 0 as real,
    decreases
            (if e >= 0 {
                e
            } else {
                -e
            }),
{
    if e > 0 {
        lemma_two_to_positive(e - 1);
    } else if e < 0 {
        lemma_two_to_positive(e + 1);
    }
}

pub proof fn lemma_two_to_next(e: int)
    ensures
        two_to(e + 1) == two_to(e) * (2 as real),
{
}

pub proof fn lemma_two_to_sum(a: int, b: int)
    ensures
        two_to(a + b) == two_to(a) * two_to(b),
    decreases
            (if b >= 0 {
                b
            } else {
                -b
            }),
{
    if b > 0 {
        lemma_two_to_sum(a, b - 1);
        lemma_two_to_next(a + b - 1);
        let x = two_to(a);
        let y = two_to(b - 1);
        assert((x * y) * (2 as real) == x * (y * (2 as real))) by (nonlinear_arith);
    } else if b < 0 {
        lemma_two_to_sum(a, b + 1);
        lemma_two_to_next(a + b);
        let x = two_to(a);
        let y = two_to(b + 1);
        assert((x * y) / (2 as real) == x * (y / (2 as real))) by (nonlinear_arith);
    } else {
        assert(two_to(a) * (1 as real) == two_to(a));
    }
}

pub proof fn lemma_two_to_monotone(a: int, b: int)
    requires
        a <= b,
    ensures
        two_to(a) <= two_to(b),
    decreases b - a,
{
    if a < b {
        lemma_two_to_monotone(a, b - 1);
        lemma_two_to_next(b - 1);
        lemma_two_to_positive(b - 1);
    }
}

pub(crate) proof fn lemma_two_to_52()
    ensures
        two_to(52) == 0x10_0000_0000_0000 as real,
        two_to(53) == 0x20_0000_0000_0000 as real,
{
    reveal_with_fuel(two_to, 54);
}

proof fn lemma_two_to_106()
    ensures
        two_to(66) == 0x4_0000_0000_0000_0000int as real,
        two_to(106) == 0x400_0000_0000_0000_0000_0000_0000int as real,
{
    lemma_two_to_52();
    lemma_two_to_sum(53, 53);
    assert(two_to(13) == 0x2000 as real) by {
        reveal_with_fuel(two_to, 14);
    }
    lemma_two_to_sum(53, 13);
}

pub(crate) proof fn lemma_two_to_64()
    ensures
        two_to(64) == 0x1_0000_0000_0000_0000int as real,
{
    lemma_two_to_106();
    lemma_two_to_next(64);
    lemma_two_to_next(65);
}

pub(crate) proof fn lemma_scale(x: real, e: int)
    requires
        in_binade(x, e),
    ensures
        scale(x) == e,
{
    let s = scale(x);
    assert(in_binade(x, s));
    if s < e {
        lemma_two_to_monotone(s + 53, e + 52);
    } else if e < s {
        lemma_two_to_monotone(e + 53, s + 52);
    }
}

pub(crate) proof fn lemma_floor(x: real, n: int)
    requires
        (n as real) <= x < ((n + 1) as real),
    ensures
        x.floor() == n,
{
}

/// The product of integers is their product as reals.
pub proof fn lemma_real_product(a: int, b: int)
    ensures
        (a * b) as real == (a as real) * (b as real),
{
    assert((a * b) as real == (a as real) * (b as real)) by (nonlinear_arith);
}

/// Rounding a quotient by its integer part and remainder.
pub(crate) proof fn lemma_half_even_ratio(a: int, b: int)
    requires
        0 <= a,
        0 < b,
    ensures
        ratio(a, b).floor() == a / b,
        half_even(ratio(a, b)) == (if 2 * (a % b) < b {
            a / b
        } else if 2 * (a % b) > b {
            a / b + 1
        } else if (a / b) % 2 == 0 {
            a / b
        } else {
            a / b + 1
        }),
{
    let f = a / b;
    let r = a % b;
    let x = ratio(a, b);
    assert(a == f * b + r && 0 <= r < b) by (nonlinear_arith)
        requires
            f == a / b,
            r == a % b,
            0 < b,
    ;
    let (fr, rr, br) = (f as real, r as real, b as real);
    lemma_real_product(f, b);
    assert(a as real == fr * br + rr);
    assert(x == fr + rr / br) by (nonlinear_arith)
        requires
            x == (fr * br + rr) / br,
            br > 0 as real,
    ;
    assert(0 as real <= rr / br < 1 as real) by (nonlinear_arith)
        requires
            0 as real <= rr < br,
    ;
    lemma_floor(x, f);
    assert((2 as real) * rr < br <==> (2 as real) * (rr / br) < 1 as real) by (nonlinear_arith)
        requires
            br > 0 as real,
    ;
    assert((2 as real) * rr > br <==> (2 as real) * (rr / br) > 1 as real) by (nonlinear_arith)
        requires
            br > 0 as real,
    ;
    assert((2 * r) as real == (2 as real) * rr);
}

proof fn lemma_ratio_one(p: int)
    ensures
        ratio(p, 1) == p as real,
{
    let x = p as real;
    assert(x / (1 as real) == x) by (nonlinear_arith);
}

/// A quotient between `2^52` and `2^53`, scaled by `2^x`, is rounded at the exponent `x`.
pub(crate) proof fn lemma_nearest_scaled(v: real, a: int, b: int, x: int)
    requires
        0 < b,
        b * 0x10_0000_0000_0000 <= a < b * 0x20_0000_0000_0000,
        v == ratio(a, b) * two_to(x),
    ensures
        v > 0 as real,
        in_binade(v, x),
        v / two_to(x) == ratio(a, b),
        -1074 <= x ==> place(v) == x,
        0x10_0000_0000_0000 <= half_even(ratio(a, b)) <= 0x20_0000_0000_0000,
{
    if -1074 <= x {
        lemma_two_to_monotone(-1022, x + 52);
    }
    let (ar, br, t, y) = (a as real, b as real, two_to(x), ratio(a, b));
    lemma_two_to_52();
    lemma_two_to_positive(x);
    lemma_two_to_sum(x, 52);
    lemma_two_to_sum(x, 53);
    assert((b * 0x10_0000_0000_0000) as real == br * (0x10_0000_0000_0000 as real));
    assert((b * 0x20_0000_0000_0000) as real == br * (0x20_0000_0000_0000 as real));
    let (lo, hi) = (two_to(52), two_to(53));
    assert(lo <= y < hi) by (nonlinear_arith)
        requires
            y == ar / br,
            br > 0 as real,
            br * lo <= ar < br * hi,
    ;
    assert(t * lo <= y * t < t * hi) by (nonlinear_arith)
        requires
            t > 0 as real,
            lo <= y < hi,
    ;
    assert(y * t > 0 as real) by (nonlinear_arith)
        requires
            t > 0 as real,
            lo <= y,
            lo > 0 as real,
    ;
    assert(in_binade(v, x));
    lemma_scale(v, x);
    assert((y * t) / t == y) by (nonlinear_arith)
        requires
            t > 0 as real,
    ;
    assert(y.floor() >= 0x10_0000_0000_0000);
    assert(y.floor() < 0x20_0000_0000_0000);
}

/// A quotient below `2^53`, scaled by so small a power of two that it lies next to zero.
proof fn lemma_nearest_tiny(v: real, a: int, b: int, x: int)
    requires
        0 <= a,
        0 < b,
        a < b * 0x20_0000_0000_0000,
        v == ratio(a, b) * two_to(x),
        x < -1074,
    ensures
        v < two_to(-1022),
        x < -1129 ==> half_even(v / two_to(-1074)) == 0,
{
    let (ar, br, t, y) = (a as real, b as real, two_to(x), ratio(a, b));
    lemma_two_to_52();
    lemma_two_to_positive(x);
    lemma_two_to_sum(x, 53);
    lemma_two_to_monotone(x + 53, -1022);
    assert((b * 0x20_0000_0000_0000) as real == br * (0x20_0000_0000_0000 as real));
    let hi = two_to(53);
    assert(0 as real <= y < hi) by (nonlinear_arith)
        requires
            y == ar / br,
            br > 0 as real,
            0 as real <= ar < br * hi,
    ;
    assert(0 as real <= y * t < t * hi) by (nonlinear_arith)
        requires
            t > 0 as real,
            0 as real <= y < hi,
    ;
    if x < -1129 {
        lemma_two_to_monotone(x + 53, -1077);
        lemma_two_to_next(-1077);
        lemma_two_to_next(-1076);
        lemma_two_to_next(-1075);
        let u = two_to(-1074);
        lemma_two_to_positive(-1074);
        assert(0 as real <= v / u && (8 as real) * (v / u) < 1 as real) by (nonlinear_arith)
            requires
                0 as real <= v,
                (8 as real) * v < u,
        ;
        lemma_floor(v / u, 0);
    }
}

/// The double closest to `a / b * 2^x`, where the quotient has 53 bits in front of the point.
fn round_scaled(a: u128, b: u128, x: i32) -> (r: Double)
    requires
        0 < a < 0x40_0000_0000_0000_0000_0000_0000_0000,
        0 < b,
        b * 0x10_0000_0000_0000 <= a < b * 0x20_0000_0000_0000,
        -4000 <= x <= 4000,
    ensures
        r == nearest(ratio(a as int, b as int) * two_to(x as int)),
        r.wf(),
        r !is Nan,
        !r.is_negative(),
        -1074 <= x <= 970 ==> {
            &&& r.is_amount()
            &&& x <= r->exponent <= x + 1
            &&& r->mantissa >= 0x10_0000_0000_0000
        },
{
    let ghost v = ratio(a as int, b as int) * two_to(x as int);
    proof {
        lemma_nearest_scaled(v, a as int, b as int, x as int);
    }
    if x < -1129 {
        proof {
            lemma_nearest_tiny(v, a as int, b as int, x as int);
        }
        return Double::zero();
    }
    let low: u32 = if x < -1074 {
        (-1074 - x) as u32
    } else {
        0
    };
    let at: i32 = if x < -1074 {
        -1074
    } else {
        x
    };
    let up: u128 = power_of_two(low);
    proof {
        lemma_two_to_52();
        lemma_two_to_next(53);
        lemma_two_to_next(54);
        lemma_two_to_monotone(low as int, 55);
        lemma_real_product(b as int, up as int);
        lemma_two_to_sum(x as int, low as int);
        lemma_two_to_positive(x as int);
        let (ar, br, t, u) = (a as real, b as real, two_to(x as int), up as real);
        assert((ar / br) * t == (ar / (br * u)) * (t * u)) by (nonlinear_arith)
            requires
                br > 0 as real,
                u > 0 as real,
        ;
        let w = t * u;
        lemma_two_to_positive(at as int);
        let y = ar / (br * u);
        assert((y * w) / w == y) by (nonlinear_arith)
            requires
                w > 0 as real,
        ;
        assert(0 < b * up < 0x200_0000_0000_0000_0000_0000_0000_0000) by (nonlinear_arith)
            requires
                0 < b < 0x4_0000_0000_0000_0000,
                0 < up <= 0x80_0000_0000_0000,
        ;
        assert(b <= b * up) by (nonlinear_arith)
            requires
                0 < b,
                1 <= up,
        ;
        if low > 0 {
            lemma_nearest_tiny(v, a as int, b as int, x as int);
        }
        lemma_half_even_ratio(a as int, b * up);
    }
    let whole: u128 = b * up;
    proof {
        let q = a as int / whole as int;
        assert(q < 0x20_0000_0000_0000) by (nonlinear_arith)
            requires
                a < b * 0x20_0000_0000_0000,
                0 < b <= whole,
                q == a as int / whole as int,
        ;
        if low > 0 {
            lemma_two_to_monotone(1, low as int);
            lemma_two_to_next(0);
            assert(2 * b <= whole) by (nonlinear_arith)
                requires
                    whole == b * up,
                    2 <= up,
                    0 < b,
            ;
            assert(q < 0x10_0000_0000_0000) by (nonlinear_arith)
                requires
                    a < b * 0x20_0000_0000_0000,
                    0 < b,
                    2 * b <= whole,
                    q == a as int / whole as int,
            ;
        }
    }
    let below: u128 = a / whole;
    let rest: u128 = a % whole;
    let m: u128 = if 2 * rest < whole || (2 * rest == whole && below % 2 == 0) {
        below
    } else {
        below + 1
    };
    if m == 0x20_0000_0000_0000 {
        if at >= 971 {
            Double::Infinite { negative: false }
        } else {
            Double::Finite { negative: false, mantissa: 0x10_0000_0000_0000, exponent: at + 1 }
        }
    } else if at > 971 {
        Double::Infinite { negative: false }
    } else {
        Double::Finite { negative: false, mantissa: m as u64, exponent: at }
    }
}

/// The double closest to `p / q * 2^e`.
fn round_ratio(p: u128, q: u128, e: i32) -> (r: Double)
    requires
        0 < p < 0x40_0000_0000_0000_0000_0000_0000_0000,
        0 < q < 0x40_0000_0000_0000,
        -3000 <= e <= 3000,
    ensures
        r == nearest(ratio(p as int, q as int) * two_to(e as int)),
        r.wf(),
        r !is Nan,
        !r.is_negative(),
        -900 <= e <= 900 ==> {
            &&& r.is_amount()
            &&& e - 106 <= r->exponent <= e + 67
            &&& r->mantissa >= 0x10_0000_0000_0000
        },
{
    let ghost v = ratio(p as int, q as int) * two_to(e as int);
    let mut a: u128 = p;
    let mut b: u128 = q;
    let mut x: i32 = e;
    let ghost mut k: int = 0;
    while a < b * 0x10_0000_0000_0000
        invariant
            0 < a < 0x40_0000_0000_0000_0000_0000_0000_0000,
            0 < b < 0x40_0000_0000_0000,
            v == ratio(a as int, b as int) * two_to(x as int),
            -3000 <= e <= 3000,
            0 <= k <= 106,
            x == e - k,
            two_to(k) <= a as real,
        decreases 106 - k,
    {
        proof {
            lemma_two_to_106();
            if k >= 106 {
                lemma_two_to_monotone(106, k);
            }
            lemma_two_to_next(k);
            lemma_two_to_next(x - 1);
            let (ar, br, t) = (a as real, b as real, two_to(x - 1));
            let two = 2 as real;
            assert((2 * a) as real == two * ar);
            assert((ar / br) * (t * two) == ((two * ar) / br) * t) by (nonlinear_arith)
                requires
                    br > 0 as real,
                    two == 2 as real,
            ;
        }
        a = a * 2;
        x = x - 1;
        proof {
            k = k + 1;
        }
    }
    let ghost mut j: int = 0;
    while a >= b * 0x20_0000_0000_0000
        invariant
            0 < a < 0x40_0000_0000_0000_0000_0000_0000_0000,
            0 < b < 0x80_0000_0000_0000_0000,
            v == ratio(a as int, b as int) * two_to(x as int),
            -3000 <= e <= 3000,
            0 <= k <= 106,
            0 <= j <= 66,
            x == e - k + j,
            two_to(j) <= b as real,
            b * 0x10_0000_0000_0000 <= a,
        decreases 66 - j,
    {
        proof {
            lemma_two_to_106();
            if j >= 66 {
                lemma_two_to_monotone(66, j);
            }
            lemma_two_to_next(j);
            lemma_two_to_next(x as int);
            let (ar, br, t) = (a as real, b as real, two_to(x as int));
            let two = 2 as real;
            assert((2 * b) as real == two * br);
            assert((ar / br) * t == (ar / (two * br)) * (t * two)) by (nonlinear_arith)
                requires
                    br > 0 as real,
                    two == 2 as real,
            ;
        }
        b = b * 2;
        x = x + 1;
        proof {
            j = j + 1;
        }
    }
    round_scaled(a, b, x)
}

/// A double is its own rounding.
pub proof fn lemma_nearest_exact(d: Double)
    requires
        d.is_amount(),
    ensures
        nearest(d.magnitude()) == d,
{
    let m = d->mantissa as int;
    let t = two_to(d->exponent as int);
    lemma_two_to_positive(d->exponent as int);
    lemma_ratio_one(m);
    lemma_half_even_ratio(m, 1);
    if m >= 0x10_0000_0000_0000 {
        lemma_nearest_scaled(d.magnitude(), m, 1, d->exponent as int);
    } else {
        let (a, b) = (m as real, two_to(52));
        lemma_two_to_52();
        lemma_two_to_sum(-1074, 52);
        assert(a * t < t * b && (a * t == 0 as real <==> a == 0 as real)) by (nonlinear_arith)
            requires
                0 as real <= a < b,
                t > 0 as real,
        ;
        assert((a * t) / t == a) by (nonlinear_arith)
            requires
                t > 0 as real,
        ;
    }
}

/// Two to the power `d`.
pub(crate) fn power_of_two(d: u32) -> (r: u128)
    requires
        d <= 64,
    ensures
        r as real == two_to(d as int),
        0 < r <= 0x1_0000_0000_0000_0000,
{
    let mut r: u128 = 1;
    let mut i: u32 = 0;
    proof {
        lemma_two_to_64();
    }
    while i < d
        invariant
            i <= d <= 64,
            r as real == two_to(i as int),
            two_to(64) == 0x1_0000_0000_0000_0000int as real,
            0 < r <= 0x1_0000_0000_0000_0000,
        decreases d - i,
    {
        proof {
            lemma_two_to_next(i as int);
            lemma_two_to_monotone(i + 1, 64);
        }
        r = r * 2;
        i = i + 1;
    }
    r
}

/// A summand below a quarter of the last place leaves the other one unchanged.
proof fn lemma_absorbed(m: u64, e: i32, n: u64, f: i32)
    requires
        0x10_0000_0000_0000 <= m < 0x20_0000_0000_0000,
        0 < n < 0x20_0000_0000_0000,
        -300 <= f,
        f + 64 < e <= 300,
    ensures
        nearest((m as real) * two_to(e as int) + (n as real) * two_to(f as int)) == (
        Double::Finite { negative: false, mantissa: m, exponent: e }),
{
    let (mr, nr, t, u) = (m as real, n as real, two_to(e as int), two_to(f as int));
    let v = mr * t + nr * u;
    lemma_two_to_52();
    lemma_two_to_positive(e as int);
    lemma_two_to_positive(f as int);
    lemma_two_to_sum(f as int, 53);
    lemma_two_to_monotone(f + 53, e - 2);
    lemma_two_to_next(e - 2);
    lemma_two_to_next(e - 1);
    lemma_two_to_sum(e as int, 52);
    lemma_two_to_sum(e as int, 53);
    let (lo, hi) = (two_to(52), two_to(53));
    let quarter = two_to(e - 2);
    assert(nr * u < quarter && nr * u > 0 as real) by (nonlinear_arith)
        requires
            u > 0 as real,
            (0 as real) < nr < hi,
            u * hi <= quarter,
    ;
    assert(mr + (1 as real) <= hi);
    assert(lo * t <= mr * t && mr * t + t <= hi * t) by (nonlinear_arith)
        requires
            t > 0 as real,
            lo <= mr,
            mr + (1 as real) <= hi,
    ;
    assert(t == quarter * (4 as real));
    assert(in_binade(v, e as int));
    lemma_scale(v, e as int);
    lemma_two_to_monotone(-1022, e + 52);
    let y = v / t;
    let d = (nr * u) / t;
    assert(y == mr + d) by (nonlinear_arith)
        requires
            t > 0 as real,
            y == (mr * t + nr * u) / t,
            d == (nr * u) / t,
    ;
    assert((0 as real) < d && d * (4 as real) < 1 as real) by (nonlinear_arith)
        requires
            t > 0 as real,
            t == quarter * (4 as real),
            (0 as real) < nr * u < quarter,
            d == (nr * u) / t,
    ;
    lemma_floor(y, m as int);
}

/// The rounded sum of `m * 2^e` and the number `n * 2^f` of the smaller exponent.
fn add_aligned(m: u64, e: i32, n: u64, f: i32) -> (r: Double)
    requires
        0x10_0000_0000_0000 <= m < 0x20_0000_0000_0000,
        0x10_0000_0000_0000 <= n < 0x20_0000_0000_0000,
        -300 <= f <= e <= 300,
    ensures
        r == nearest((m as real) * two_to(e as int) + (n as real) * two_to(f as int)),
        r.is_amount(),
{
    if e - f > 64 {
        proof {
            lemma_absorbed(m, e, n, f);
        }
        Double::Finite { negative: false, mantissa: m, exponent: e }
    } else {
        let up: u128 = power_of_two((e - f) as u32);
        proof {
            lemma_two_to_sum(e - f, f as int);
            lemma_real_product(m as int, up as int);
            lemma_ratio_one(m * up + n);
            let (mr, nr, t, u) = (m as real, n as real, two_to(e - f), two_to(f as int));
            assert((mr * t + nr) * u == mr * (t * u) + nr * u) by (nonlinear_arith);
            assert(m * up <= 0x20_0000_0000_0000 * 0x1_0000_0000_0000_0000) by (nonlinear_arith)
                requires
                    m < 0x20_0000_0000_0000,
                    up <= 0x1_0000_0000_0000_0000,
            ;
            assert(m * up >= 0) by (nonlinear_arith)
                requires
                    m >= 0,
                    up >= 0,
            ;
        }
        round_ratio(m as u128 * up + n as u128, 1, f)
    }
}

/// The double that a bit pattern stands for: a sign bit, eleven bits of exponent and
/// 52 bits of fraction.
pub open spec fn double_of_bits(bits: u64) -> Double {
    let negative = bits >= 0x8000_0000_0000_0000;
    let field = (bits / 0x10_0000_0000_0000) % 0x800;
    let fraction = bits % 0x10_0000_0000_0000;
    if field == 0x7ff {
        if fraction == 0 {
            Double::Infinite { negative }
        } else {
            Double::Nan
        }
    } else if field == 0 {
        Double::Finite { negative, mantissa: fraction, exponent: -1074i32 }
    } else {
        Double::Finite {
            negative,
            mantissa: (fraction + 0x10_0000_0000_0000) as u64,
            exponent: (field - 1075) as i32,
        }
    }
}

impl Double {
    /// Reads the bits of a double.
    pub fn from_bits(bits: u64) -> (r: Double)
        ensures
            r == double_of_bits(bits),
            r.wf(),
    {
        let negative = bits >= 0x8000_0000_0000_0000;
        let field: u64 = (bits / 0x10_0000_0000_0000) % 0x800;
        let fraction: u64 = bits % 0x10_0000_0000_0000;
        if field == 0x7ff {
            if fraction == 0 {
                Double::Infinite { negative }
            } else {
                Double::Nan
            }
        } else if field == 0 {
            Double::Finite { negative, mantissa: fraction, exponent: -1074 }
        } else {
            Double::Finite {
                negative,
                mantissa: fraction + 0x10_0000_0000_0000,
                exponent: field as i32 - 1075,
            }
        }
    }

    /// The double closest to the integer `n`.
    pub fn from_u64(n: u64) -> (r: Double)
        ensures
            r == nearest(n as real),
            r.is_moderate(),
    {
        if n == 0 {
            Double::zero()
        } else {
            proof {
                lemma_ratio_one(n as int);
            }
            round_ratio(n as u128, 1, 0)
        }
    }

    /// Sets the sign.
    pub(crate) fn with_sign(self, negative: bool) -> (r: Double)
        requires
            self.wf(),
        ensures
            r == signed(negative, self),
            r.wf(),
    {
        match self {
            Double::Finite { mantissa, exponent, .. } => Double::Finite {
                negative,
                mantissa,
                exponent,
            },
            Double::Infinite { .. } => Double::Infinite { negative },
            Double::Nan => Double::Nan,
        }
    }

    /// The rounded quotient.
    pub(crate) fn div(self, other: Double) -> (r: Double)
        requires
            self.wf(),
            other.wf(),
        ensures
            r == quotient(self, other),
            r.wf(),
            self.is_moderate() && other.is_moderate() && other != Double::zero() ==> {
                &&& r == nearest(self.magnitude() / other.magnitude())
                &&& r.is_amount()
            },
    {
        match (self, other) {
            (Double::Nan, _) | (_, Double::Nan) => Double::Nan,
            (Double::Infinite { .. }, Double::Infinite { .. }) => Double::Nan,
            (Double::Infinite { negative }, Double::Finite { negative: other_negative, .. }) => {
                Double::Infinite { negative: negative != other_negative }
            },
            (Double::Finite { negative, .. }, Double::Infinite { negative: other_negative }) => {
                Double::zero().with_sign(negative != other_negative)
            },
            (
                Double::Finite { negative, mantissa: m, exponent: e },
                Double::Finite { negative: other_negative, mantissa: n, exponent: f },
            ) => {
                let sign = negative != other_negative;
                if n == 0 {
                    if m == 0 {
                        Double::Nan
                    } else {
                        Double::Infinite { negative: sign }
                    }
                } else {
                    proof {
                        lemma_two_to_positive(f as int);
                        lemma_two_to_sum(e - f, f as int);
                        let (mr, nr, t, u) = (
                            m as real,
                            n as real,
                            two_to(e - f),
                            two_to(f as int),
                        );
                        assert((mr * (t * u)) / (nr * u) == (mr / nr) * t) by (nonlinear_arith)
                            requires
                                nr > 0 as real,
                                u > 0 as real,
                        ;
                        assert(((0 as real) / nr) * t == 0 as real) by (nonlinear_arith)
                            requires
                                nr > 0 as real,
                        ;
                    }
                    let size = if m == 0 {
                        Double::zero()
                    } else {
                        round_ratio(m as u128, n as u128, e - f)
                    };
                    size.with_sign(sign)
                }
            },
        }
    }

    /// The rounded product.
    pub(crate) fn mul(self, other: Double) -> (r: Double)
        requires
            self.wf(),
            other.wf(),
        ensures
            r == product(self, other),
            r.wf(),
            self.is_moderate() && other.is_moderate() ==> {
                &&& r == nearest(self.magnitude() * other.magnitude())
                &&& r.is_amount()
            },
    {
        match (self, other) {
            (Double::Nan, _) | (_, Double::Nan) => Double::Nan,
            (Double::Infinite { negative }, Double::Infinite { negative: other_negative }) => {
                Double::Infinite { negative: negative != other_negative }
            },
            (
                Double::Infinite { negative },
                Double::Finite { negative: other_negative, mantissa: n, .. },
            ) => {
                if n == 0 {
                    Double::Nan
                } else {
                    Double::Infinite { negative: negative != other_negative }
                }
            },
            (
                Double::Finite { negative, mantissa: m, .. },
                Double::Infinite { negative: other_negative },
            ) => {
                if m == 0 {
                    Double::Nan
                } else {
                    Double::Infinite { negative: negative != other_negative }
                }
            },
            (
                Double::Finite { negative, mantissa: m, exponent: e },
                Double::Finite { negative: other_negative, mantissa: n, exponent: f },
            ) => {
                proof {
                    lemma_two_to_sum(e as int, f as int);
                    lemma_real_product(m as int, n as int);
                    lemma_ratio_one(m * n);
                    let (mr, nr, t, u) = (
                        m as real,
                        n as real,
                        two_to(e as int),
                        two_to(f as int),
                    );
                    assert((mr * t) * (nr * u) == (mr * nr) * (t * u)) by (nonlinear_arith);
                    assert((0 as real) * nr == 0 as real) by (nonlinear_arith);
                    assert(mr * (0 as real) == 0 as real) by (nonlinear_arith);
                    assert((0 as real) * (t * u) == 0 as real) by (nonlinear_arith);
                    assert(m < 0x20_0000_0000_0000 && n < 0x20_0000_0000_0000 ==> m * n
                        < 0x400_0000_0000_0000_0000_0000_0000) by (nonlinear_arith);
                    assert(m > 0 && n > 0 ==> m * n > 0) by (nonlinear_arith);
                }
                let size = if m == 0 || n == 0 {
                    Double::zero()
                } else {
                    round_ratio(m as u128 * n as u128, 1, e + f)
                };
                size.with_sign(negative != other_negative)
            },
        }
    }

    /// The rounded sum.
    pub(crate) fn add(self, other: Double) -> (r: Double)
        requires
            self.is_moderate(),
            other.is_moderate(),
        ensures
            r == nearest(self.magnitude() + other.magnitude()),
            r.is_amount(),
    {
        match (self, other) {
            (
                Double::Finite { mantissa: m, exponent: e, .. },
                Double::Finite { mantissa: n, exponent: f, .. },
            ) => {
                proof {
                    lemma_nearest_exact(self);
                    lemma_nearest_exact(other);
                    assert((0 as real) * two_to(-1074) == 0 as real) by (nonlinear_arith);
                }
                if m == 0 {
                    other
                } else if n == 0 {
                    self
                } else if e >= f {
                    add_aligned(m, e, n, f)
                } else {
                    add_aligned(n, f, m, e)
                }
            },
            _ => Double::zero(),
        }
    }
}

} // verus!
