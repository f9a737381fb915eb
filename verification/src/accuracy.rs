//! How far rounding moves a number, and what it leaves in order.

use crate::double::{
    half_even, in_binade, lemma_real_product, lemma_scale, lemma_two_to_52, lemma_two_to_monotone,
    lemma_two_to_next, lemma_two_to_positive, lemma_two_to_sum, nearest, place, scale, two_to,
    Double,
};
use crate::reading::{size, tells};
use vstd::prelude::*;

verus! {

/// A number between two powers of two has a binade between them.
pub(crate) proof fn lemma_binade_exists(x: real, lo: int, hi: int)
    requires
        two_to(lo) <= x < two_to(hi),
    ensures
        in_binade(x, scale(x)),
        lo <= scale(x) + 52 < hi,
    decreases hi - lo,
{
    if hi <= lo {
        lemma_two_to_monotone(hi, lo);
    } else if x < two_to(hi - 1) {
        lemma_binade_exists(x, lo, hi - 1);
    } else {
        assert(in_binade(x, hi - 1 - 52));
        lemma_scale(x, hi - 1 - 52);
    }
}

proof fn lemma_below_power(n: int)
    requires
        0 <= n,
    ensures
        (n as real) < two_to(n),
    decreases n,
{
    if n > 0 {
        lemma_below_power(n - 1);
        lemma_two_to_next(n - 1);
        lemma_two_to_monotone(0, n - 1);
    }
}

/// Where the doubles around a positive number lie.
proof fn lemma_place(x: real)
    requires
        x > 0 as real,
    ensures
        place(x) >= -1074,
        x < two_to(place(x) + 53),
        x < two_to(-1022) ==> x < two_to(place(x) + 52),
        x >= two_to(-1022) ==> two_to(place(x) + 52) <= x,
{
    if x >= two_to(-1022) {
        let n = x.floor() + 1;
        lemma_below_power(n);
        lemma_binade_exists(x, -1022, n);
    } else {
        lemma_two_to_next(-1022);
        lemma_two_to_positive(-1022);
    }
}

/// The rounding of any positive number, spelled out.
proof fn lemma_rounded(x: real)
    requires
        x > 0 as real,
    ensures
        ({
            let p = place(x);
            let m = half_even(x / two_to(p));
            &&& 0 <= m <= 0x20_0000_0000_0000
            &&& x >= two_to(-1022) ==> two_to(p + 52) <= (m as real) * two_to(p)
            &&& (m as real) * two_to(p) <= two_to(p + 53)
            &&& nearest(x) is Finite <==> p < 971 || (p == 971 && m < 0x20_0000_0000_0000)
            &&& nearest(x) is Finite ==> nearest(x).is_amount() && nearest(x).magnitude() == (
            m as real) * two_to(p)
        }),
{
    lemma_place(x);
    let p = place(x);
    let t = two_to(p);
    lemma_two_to_positive(p);
    lemma_two_to_52();
    lemma_two_to_sum(p, 52);
    lemma_two_to_sum(p, 53);
    lemma_two_to_next(p);
    let y = x / t;
    let (a, b) = (two_to(52), two_to(53));
    assert((0 as real) <= y < b && (t * a <= x <==> a <= y)) by (nonlinear_arith)
        requires
            t > 0 as real,
            (0 as real) < x < t * b,
            y == x / t,
    ;
    let m = half_even(y);
    assert(0 <= y.floor() < 0x20_0000_0000_0000);
    assert(x >= two_to(-1022) ==> y.floor() >= 0x10_0000_0000_0000);
    assert(x < two_to(-1022) ==> y.floor() < 0x10_0000_0000_0000);
    let mr = m as real;
    assert(mr * t <= t * b && (a <= mr ==> t * a <= mr * t)) by (nonlinear_arith)
        requires
            t > 0 as real,
            mr <= b,
    ;
    if m == 0x20_0000_0000_0000 {
        assert(b * t == a * (t * (2 as real))) by (nonlinear_arith)
            requires
                b == a * (2 as real),
        ;
    }
}

/// Rounding to an integer keeps the order.
proof fn lemma_half_even_monotone(x: real, y: real)
    requires
        x <= y,
    ensures
        half_even(x) <= half_even(y),
{
    assert(x.floor() <= y.floor());
}

/// `x` is zero or in the range in which doubles have 53 significant bits.
pub open spec fn in_normal_range(x: real) -> bool {
    x == 0 as real || two_to(-900) <= x < two_to(900)
}

/// The rounding of a positive number, spelled out.
pub(crate) proof fn lemma_nearest_shape(x: real, lo: int, hi: int)
    requires
        two_to(lo) <= x < two_to(hi),
        -900 <= lo,
        hi <= 900,
    ensures
        nearest(x).is_amount(),
        nearest(x)->mantissa >= 0x10_0000_0000_0000,
        lo - 52 <= nearest(x)->exponent <= hi - 52,
        nearest(x).magnitude() == (half_even(x / two_to(scale(x))) as real) * two_to(scale(x)),
        two_to(scale(x) + 52) <= nearest(x).magnitude() <= two_to(scale(x) + 53),
        two_to(lo) <= nearest(x).magnitude() <= two_to(hi),
{
    lemma_binade_exists(x, lo, hi);
    lemma_two_to_positive(lo);
    lemma_two_to_monotone(-1022, lo);
    let s = scale(x);
    let t = two_to(s);
    lemma_two_to_positive(s);
    lemma_two_to_52();
    lemma_two_to_sum(s, 52);
    lemma_two_to_sum(s, 53);
    lemma_two_to_next(s);
    lemma_two_to_monotone(lo, s + 52);
    lemma_two_to_monotone(s + 53, hi);
    let y = x / t;
    let (a, b) = (two_to(52), two_to(53));
    assert(a <= y < b) by (nonlinear_arith)
        requires
            t > 0 as real,
            t * a <= x < t * b,
            y == x / t,
    ;
    let m = half_even(y);
    assert(0x10_0000_0000_0000 <= y.floor() < 0x20_0000_0000_0000);
    let mr = m as real;
    assert(t * a <= mr * t <= t * b) by (nonlinear_arith)
        requires
            t > 0 as real,
            a <= mr <= b,
    ;
    if m == 0x20_0000_0000_0000 {
        assert(b * t == a * (t * (2 as real))) by (nonlinear_arith)
            requires
                b == a * (2 as real),
        ;
    }
}

/// Rounding to a double keeps the order.
pub proof fn lemma_nearest_monotone(x: real, y: real)
    requires
        0 as real <= x <= y,
        nearest(y) is Finite,
    ensures
        nearest(x).is_amount(),
        nearest(y).is_amount(),
        nearest(x).magnitude() <= nearest(y).magnitude(),
{
    assert((0 as real) * two_to(-1074) == 0 as real) by (nonlinear_arith);
    if y > 0 as real {
        lemma_rounded(y);
        lemma_place(y);
        let r = place(y);
        let n = half_even(y / two_to(r)) as real;
        lemma_two_to_positive(r);
        assert(n * two_to(r) >= 0 as real) by (nonlinear_arith)
            requires
                n >= 0 as real,
                two_to(r) > 0 as real,
        ;
        if x > 0 as real {
            lemma_rounded(x);
            lemma_place(x);
            let p = place(x);
            if p > r {
                lemma_two_to_monotone(r + 53, p + 52);
            } else if p < r {
                lemma_two_to_monotone(p + 53, r + 52);
            } else {
                let t = two_to(p);
                assert(x / t <= y / t) by (nonlinear_arith)
                    requires
                        x <= y,
                        t > 0 as real,
                ;
                lemma_half_even_monotone(x / t, y / t);
                let m = half_even(x / t) as real;
                assert(m * t <= n * t) by (nonlinear_arith)
                    requires
                        m <= n,
                        t > 0 as real,
                ;
            }
        }
    }
}

/// The distance between two numbers.
pub open spec fn distance(x: real, y: real) -> real {
    if x <= y {
        y - x
    } else {
        x - y
    }
}

proof fn lemma_half_even_closest(y: real, k: int)
    ensures
        distance(half_even(y) as real, y) <= distance(k as real, y),
{
    assert(k <= y.floor() || k >= y.floor() + 1);
}

/// A power of two that is no fraction, as an integer.
pub(crate) proof fn lemma_two_to_integer(n: int) -> (p: int)
    requires
        0 <= n,
    ensures
        p as real == two_to(n),
    decreases n,
{
    if n == 0 {
        1
    } else {
        let q = lemma_two_to_integer(n - 1);
        lemma_two_to_next(n - 1);
        2 * q
    }
}

/// No double is closer to a number than the one that it is rounded to.
pub proof fn law_nearest_is_closest(x: real, d: Double)
    requires
        0 as real <= x,
        nearest(x) is Finite,
        d.is_amount(),
    ensures
        distance(nearest(x).magnitude(), x) <= distance(d.magnitude(), x),
{
    if x == 0 as real {
        assert((0 as real) * two_to(-1074) == 0 as real) by (nonlinear_arith);
        let (m, t) = (d->mantissa as real, two_to(d->exponent as int));
        lemma_two_to_positive(d->exponent as int);
        assert(m * t >= 0 as real) by (nonlinear_arith)
            requires
                m >= 0 as real,
                t > 0 as real,
        ;
    } else {
        lemma_rounded(x);
        lemma_place(x);
        let s = place(x);
        let t = two_to(s);
        lemma_two_to_positive(s);
        let y = x / t;
        let e = d->exponent as int;
        let k: int = if e >= s {
            let p = lemma_two_to_integer(e - s);
            lemma_two_to_sum(e - s, s);
            lemma_real_product(d->mantissa as int, p);
            let (a, b) = (d->mantissa as real, p as real);
            assert(a * (b * t) == (a * b) * t) by (nonlinear_arith);
            d->mantissa * p
        } else {
            lemma_two_to_52();
            lemma_two_to_sum(e, 53);
            lemma_two_to_sum(s, 52);
            lemma_two_to_monotone(e + 53, s + 52);
            lemma_two_to_positive(e);
            let (a, b, hi) = (d->mantissa as real, two_to(e), two_to(53));
            assert(a * b <= b * hi) by (nonlinear_arith)
                requires
                    a <= hi,
                    b > 0 as real,
            ;
            let lo = two_to(52);
            assert(lo * t == t * lo) by (nonlinear_arith);
            0x10_0000_0000_0000
        };
        lemma_half_even_closest(y, k);
        let (m, c) = (half_even(y) as real, k as real);
        assert(x == y * t) by (nonlinear_arith)
            requires
                y == x / t,
                t > 0 as real,
        ;
        assert((m - y) * t == m * t - x && (c - y) * t == c * t - x) by (nonlinear_arith)
            requires
                x == y * t,
        ;
        let (u, v) = (distance(m, y), distance(c, y));
        assert(u * t <= v * t) by (nonlinear_arith)
            requires
                u <= v,
                t > 0 as real,
        ;
        lemma_distance_scaled(m, y, t);
        lemma_distance_scaled(c, y, t);
    }
}

proof fn lemma_distance_scaled(a: real, b: real, t: real)
    requires
        t > 0 as real,
    ensures
        distance(a * t, b * t) == distance(a, b) * t,
{
    assert((b - a) * t == b * t - a * t && (a - b) * t == a * t - b * t) by (nonlinear_arith);
    assert(a <= b ==> a * t <= b * t) by (nonlinear_arith)
        requires
            t > 0 as real,
    ;
    assert(a > b ==> a * t > b * t) by (nonlinear_arith)
        requires
            t > 0 as real,
    ;
}

/// How much one rounding can stretch or shrink a number: `1 + 2^-53`.
pub open spec fn stretch() -> real {
    (1 as real) + two_to(-53)
}

/// What `k` roundings in a row can do.
pub open spec fn stretched(k: nat) -> real
    decreases k,
{
    if k == 0 {
        1 as real
    } else {
        stretched((k - 1) as nat) * stretch()
    }
}

/// `a` and `b` are apart by a factor of at most `(1 + 2^-53)^k`.
pub open spec fn within(a: real, b: real, k: nat) -> bool {
    &&& a <= b * stretched(k)
    &&& b <= a * stretched(k)
}

/// One rounding moves a number by a factor of at most `1 + 2^-53`.
pub proof fn lemma_nearest_within(x: real)
    requires
        in_normal_range(x),
    ensures
        within(nearest(x).magnitude(), x, 1),
{
    let g = stretch();
    lemma_two_to_positive(-53);
    lemma_two_to_positive(-900);
    assert(stretched(1) == g) by {
        assert(stretched(0) == 1 as real);
        assert((1 as real) * g == g);
    }
    assert((0 as real) * two_to(-1074) == 0 as real) by (nonlinear_arith);
    assert((0 as real) * g == 0 as real) by (nonlinear_arith);
    if x != 0 as real {
        lemma_nearest_shape(x, -900, 900);
        lemma_binade_exists(x, -900, 900);
        let s = scale(x);
        let t = two_to(s);
        lemma_two_to_positive(s);
        let y = x / t;
        let m = half_even(y) as real;
        assert(x == y * t) by (nonlinear_arith)
            requires
                y == x / t,
                t > 0 as real,
        ;
        let half = t / (2 as real);
        assert(-half <= (m - y) * t <= half) by (nonlinear_arith)
            requires
                -(1 as real) <= (2 as real) * (m - y) <= (1 as real),
                half == t / (2 as real),
                t > 0 as real,
        ;
        assert((m - y) * t == m * t - y * t) by (nonlinear_arith);
        let u = two_to(-53);
        let d = m * t;
        lemma_two_to_sum(s + 52, -53);
        lemma_two_to_next(s - 1);
        let lo = two_to(s + 52);
        assert(lo * u == half);
        assert(lo * u <= x * u && lo * u <= d * u) by (nonlinear_arith)
            requires
                lo <= x,
                lo <= d,
                u > 0 as real,
        ;
        assert(x * g == x + x * u && d * g == d + d * u) by (nonlinear_arith)
            requires
                g == (1 as real) + u,
        ;
    }
}

pub(crate) proof fn lemma_stretched_sum(j: nat, k: nat)
    ensures
        stretched(j + k) == stretched(j) * stretched(k),
    decreases k,
{
    if k == 0 {
        assert(stretched(j) * (1 as real) == stretched(j));
    } else {
        lemma_stretched_sum(j, (k - 1) as nat);
        let (a, b, g) = (stretched(j), stretched((k - 1) as nat), stretch());
        assert((a * b) * g == a * (b * g)) by (nonlinear_arith);
    }
}

pub(crate) proof fn lemma_stretched_at_least_one(k: nat)
    ensures
        stretched(k) >= 1 as real,
    decreases k,
{
    if k > 0 {
        lemma_stretched_at_least_one((k - 1) as nat);
        lemma_two_to_positive(-53);
        let (a, g) = (stretched((k - 1) as nat), stretch());
        assert(a * g >= 1 as real) by (nonlinear_arith)
            requires
                a >= 1 as real,
                g >= 1 as real,
        ;
    }
}

/// Up to `2^52` roundings stretch by no more than `2^-52` each.
pub(crate) proof fn lemma_stretched_linear(k: nat)
    requires
        k <= 0x10_0000_0000_0000,
    ensures
        stretched(k) <= (1 as real) + (k as real) * two_to(-52),
    decreases k,
{
    let w = two_to(-52);
    if k == 0 {
        assert((0 as real) * w == 0 as real) by (nonlinear_arith);
    } else {
        let j = (k - 1) as nat;
        lemma_stretched_linear(j);
        lemma_two_to_positive(-53);
        lemma_two_to_next(-53);
        lemma_two_to_sum(52, -52);
        lemma_two_to_52();
        let (a, u, i, top) = (stretched(j), two_to(-53), j as real, two_to(52));
        assert(i * w <= 1 as real) by (nonlinear_arith)
            requires
                i <= top,
                top * w == 1 as real,
                w > 0 as real,
        ;
        assert(a * ((1 as real) + u) <= ((1 as real) + i * w) * ((1 as real) + u))
            by (nonlinear_arith)
            requires
                a <= (1 as real) + i * w,
                u > 0 as real,
        ;
        assert((i * w) * u <= u) by (nonlinear_arith)
            requires
                i * w <= 1 as real,
                u > 0 as real,
        ;
        let p = i * w;
        assert(((1 as real) + p) * ((1 as real) + u) == (1 as real) + p + u + p * u)
            by (nonlinear_arith);
        assert((i + (1 as real)) * w == i * w + w) by (nonlinear_arith);
    }
}

pub(crate) proof fn lemma_within_chain(a: real, b: real, c: real, j: nat, k: nat)
    requires
        within(a, b, j),
        within(b, c, k),
    ensures
        within(a, c, j + k),
{
    lemma_stretched_sum(j, k);
    lemma_stretched_at_least_one(j);
    lemma_stretched_at_least_one(k);
    let (f, g) = (stretched(j), stretched(k));
    assert(a <= c * (f * g)) by (nonlinear_arith)
        requires
            a <= b * f,
            b <= c * g,
            f >= 1 as real,
    ;
    assert(c <= a * (f * g)) by (nonlinear_arith)
        requires
            c <= b * g,
            b <= a * f,
            g >= 1 as real,
    ;
}

pub(crate) proof fn lemma_within_weaken(a: real, b: real, j: nat, k: nat)
    requires
        within(a, b, j),
        j <= k,
        0 as real <= a,
        0 as real <= b,
    ensures
        within(a, b, k),
{
    let i = (k - j) as nat;
    lemma_stretched_sum(j, i);
    lemma_stretched_at_least_one(j);
    lemma_stretched_at_least_one(i);
    let (f, g) = (stretched(j), stretched(i));
    assert(b * f <= b * (f * g) && a * f <= a * (f * g)) by (nonlinear_arith)
        requires
            0 as real <= a,
            0 as real <= b,
            f >= 1 as real,
            g >= 1 as real,
    ;
}

pub(crate) proof fn lemma_within_sum(a: real, b: real, c: real, d: real, k: nat)
    requires
        within(a, b, k),
        within(c, d, k),
    ensures
        within(a + c, b + d, k),
{
    let g = stretched(k);
    assert((b + d) * g == b * g + d * g && (a + c) * g == a * g + c * g) by (nonlinear_arith);
}

pub(crate) proof fn lemma_within_product(a: real, b: real, c: real, d: real, j: nat, k: nat)
    requires
        within(a, b, j),
        within(c, d, k),
        0 as real <= a,
        0 as real <= b,
        0 as real <= c,
        0 as real <= d,
    ensures
        within(a * c, b * d, j + k),
{
    lemma_stretched_sum(j, k);
    lemma_stretched_at_least_one(j);
    lemma_stretched_at_least_one(k);
    let (f, g) = (stretched(j), stretched(k));
    lemma_product_bound(a, b * f, c, d * g);
    lemma_product_bound(b, a * f, d, c * g);
    assert((b * f) * (d * g) == (b * d) * (f * g)) by (nonlinear_arith);
    assert((a * f) * (c * g) == (a * c) * (f * g)) by (nonlinear_arith);
}

pub(crate) proof fn lemma_product_bound(a: real, b: real, c: real, d: real)
    requires
        0 as real <= a <= b,
        0 as real <= c <= d,
    ensures
        a * c <= b * d,
{
    assert(a * c <= b * d) by (nonlinear_arith)
        requires
            0 as real <= a <= b,
            0 as real <= c <= d,
    ;
}

pub(crate) proof fn lemma_within_quotient(a: real, b: real, c: real, d: real, j: nat, k: nat)
    requires
        within(a, b, j),
        within(c, d, k),
        0 as real <= a,
        0 as real <= b,
        (0 as real) < c,
        (0 as real) < d,
    ensures
        within(a / c, b / d, j + k),
{
    let (p, q) = ((1 as real) / c, (1 as real) / d);
    let g = stretched(k);
    lemma_stretched_at_least_one(k);
    assert(p <= q * g) by (nonlinear_arith)
        requires
            d <= c * g,
            (0 as real) < c,
            (0 as real) < d,
            p == (1 as real) / c,
            q == (1 as real) / d,
    ;
    assert(q <= p * g) by (nonlinear_arith)
        requires
            c <= d * g,
            (0 as real) < c,
            (0 as real) < d,
            p == (1 as real) / c,
            q == (1 as real) / d,
    ;
    assert(p > 0 as real && q > 0 as real) by (nonlinear_arith)
        requires
            (0 as real) < c,
            (0 as real) < d,
            p == (1 as real) / c,
            q == (1 as real) / d,
    ;
    lemma_within_product(a, b, p, q, j, k);
    assert(a / c == a * p && b / d == b * q) by (nonlinear_arith)
        requires
            (0 as real) < c,
            (0 as real) < d,
            p == (1 as real) / c,
            q == (1 as real) / d,
    ;
}

/// `text` tells a number that is apart from `x` by a factor of at most `(1 + 2^-53)^k`.
pub open spec fn tells_within(text: Seq<char>, x: real, k: nat) -> bool {
    exists|y: real| #[trigger] tells(text, y) && within(y, x, k)
}

/// `text` tells so many bytes: as exactly as it should if they have up to 53 bits, and otherwise
/// after one rounding.
pub open spec fn tells_bytes(text: Seq<char>, n: int) -> bool {
    &&& tells_within(text, n as real, 1)
    &&& n <= 0x20_0000_0000_0000 ==> tells(text, n as real)
}

/// `text` tells a change by `x`, behind its sign, after up to `k` roundings.
pub open spec fn tells_change(text: Seq<char>, x: real, k: nat) -> bool {
    &&& text.len() > 0
    &&& text[0] == (if x < 0 as real {
        '-'
    } else {
        '+'
    })
    &&& exists|y: real| #[trigger]
        tells(text, y) && (y < 0 as real <==> x < 0 as real) && within(size(y), size(x), k)
}

} // verus!
