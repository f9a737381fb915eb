//! Splitting the swap in use among processes in proportion to their compressed memory.

use crate::accuracy::{
    in_normal_range, lemma_nearest_monotone, lemma_nearest_shape, lemma_nearest_within,
    lemma_product_bound, lemma_stretched_at_least_one, lemma_stretched_linear,
    lemma_within_chain, lemma_within_product,
    lemma_within_quotient, lemma_within_sum, lemma_within_weaken, stretched, within,
};
use crate::double::{
    lemma_nearest_exact, lemma_two_to_64, lemma_two_to_monotone, lemma_two_to_next,
    lemma_two_to_positive, lemma_two_to_sum, nearest, product, quotient, signed, two_to, Double,
};
use vstd::prelude::*;

verus! {

/// The share in exact arithmetic: `swap_total * compressed / total_compressed`.
pub open spec fn exact_share(compressed: u64, total_compressed: u64, swap_total: u64) -> real {
    (swap_total as real) * ((compressed as real) / (total_compressed as real))
}

/// The share in double precision, of any doubles: the quotient is rounded, and then the product.
/// Where there is nothing to split by it is zero.
pub open spec fn proportion(
    compressed: Double,
    total_compressed: Double,
    swap_total: Double,
) -> Double {
    if total_compressed.is_zero() {
        Double::zero()
    } else {
        product(swap_total, quotient(compressed, total_compressed))
    }
}

/// The share in double precision, of amounts of bytes: each is rounded first.
pub open spec fn share(compressed: u64, total_compressed: u64, swap_total: u64) -> Double {
    proportion(
        nearest(compressed as real),
        nearest(total_compressed as real),
        nearest(swap_total as real),
    )
}

/// The sum of integers.
pub open spec fn sum_of(amounts: Seq<u64>) -> nat
    decreases amounts.len(),
{
    if amounts.len() == 0 {
        0
    } else {
        sum_of(amounts.drop_last()) + amounts.last() as nat
    }
}

/// The shares of all of `compressed` added up in double precision, from the first on.
pub open spec fn estimate_sum(
    compressed: Seq<u64>,
    total_compressed: u64,
    swap_total: u64,
) -> Double
    decreases compressed.len(),
{
    if compressed.len() == 0 {
        Double::zero()
    } else {
        nearest(
            estimate_sum(compressed.drop_last(), total_compressed, swap_total).magnitude() + share(
                compressed.last(),
                total_compressed,
                swap_total,
            ).magnitude(),
        )
    }
}

pub(crate) proof fn lemma_zero_magnitude()
    ensures
        Double::zero().magnitude() == 0 as real,
{
    assert((0 as real) * two_to(-1074) == 0 as real) by (nonlinear_arith);
}

/// A positive moderate double lies between two powers of two.
proof fn lemma_moderate_bounds(d: Double)
    requires
        d.is_moderate(),
        d != Double::zero(),
    ensures
        two_to(-248) <= d.magnitude(),
{
    let e = d->exponent as int;
    let (m, t) = (d->mantissa as real, two_to(e));
    lemma_two_to_positive(e);
    crate::double::lemma_two_to_52();
    lemma_two_to_sum(e, 52);
    lemma_two_to_monotone(-248, e + 52);
    let lo = two_to(52);
    assert(t * lo <= m * t) by (nonlinear_arith)
        requires
            lo <= m,
            t > 0 as real,
    ;
}

/// What rounding does to a 64-bit integer.
pub(crate) proof fn lemma_rounded_integer(n: u64)
    ensures
        nearest(n as real).is_moderate(),
        in_normal_range(n as real),
        n == 0 <==> nearest(n as real) == Double::zero(),
        n > 0 ==> two_to(0) <= nearest(n as real).magnitude() <= two_to(64),
{
    lemma_two_to_64();
    lemma_two_to_monotone(-900, 0);
    lemma_two_to_monotone(64, 900);
    if n > 0 {
        lemma_nearest_shape(n as real, 0, 64);
    }
}

/// Where the rounded quotient of two rounded integers lies.
proof fn lemma_rounded_part(c: u64, t: u64)
    requires
        t > 0,
    ensures
        ({
            let q = nearest(c as real).magnitude() / nearest(t as real).magnitude();
            &&& in_normal_range(q)
            &&& nearest(q).is_moderate()
            &&& c == 0 ==> q == 0 as real
            &&& c > 0 ==> two_to(-64) <= nearest(q).magnitude() <= two_to(65)
        }),
{
    lemma_rounded_integer(c);
    lemma_rounded_integer(t);
    lemma_zero_magnitude();
    let (a, b) = (nearest(c as real).magnitude(), nearest(t as real).magnitude());
    let q = a / b;
    if c == 0 {
        assert((0 as real) / b == 0 as real) by (nonlinear_arith)
            requires
                b >= 1 as real,
        ;
    } else {
        lemma_two_to_64();
        lemma_two_to_sum(-64, 64);
        let (lo, hi) = (two_to(-64), two_to(64));
        lemma_two_to_positive(-64);
        assert(lo <= q <= hi) by (nonlinear_arith)
            requires
                1 as real <= a <= hi,
                1 as real <= b <= hi,
                lo * hi == 1 as real,
                q == a / b,
                lo > 0 as real,
        ;
        lemma_two_to_next(64);
        lemma_two_to_monotone(-900, -64);
        lemma_two_to_monotone(65, 900);
        lemma_nearest_shape(q, -64, 65);
    }
}

/// The share of amounts of bytes, spelled out: a moderate double, zero only where it has to be.
pub(crate) proof fn lemma_share_moderate(c: u64, t: u64, s: u64)
    ensures
        share(c, t, s).is_moderate(),
        t == 0 ==> share(c, t, s) == Double::zero(),
        t > 0 ==> share(c, t, s) == nearest(
            nearest(s as real).magnitude() * nearest(
                nearest(c as real).magnitude() / nearest(t as real).magnitude(),
            ).magnitude(),
        ),
        t > 0 ==> in_normal_range(
            nearest(s as real).magnitude() * nearest(
                nearest(c as real).magnitude() / nearest(t as real).magnitude(),
            ).magnitude(),
        ),
{
    lemma_zero_magnitude();
    lemma_rounded_integer(t);
    if t > 0 {
        lemma_rounded_integer(c);
        lemma_rounded_integer(s);
        lemma_rounded_part(c, t);
        let (a, b) = (
            nearest(s as real).magnitude(),
            nearest(nearest(c as real).magnitude() / nearest(t as real).magnitude()).magnitude(),
        );
        if s == 0 || c == 0 {
            assert((0 as real) * b == 0 as real) by (nonlinear_arith);
            assert(a * (0 as real) == 0 as real) by (nonlinear_arith);
        } else {
            let (lo, h, k) = (two_to(-64), two_to(64), two_to(65));
            lemma_two_to_64();
            lemma_two_to_positive(-64);
            lemma_two_to_sum(64, 65);
            lemma_two_to_next(129);
            lemma_two_to_positive(129);
            lemma_product_bound(1 as real, a, lo, b);
            lemma_product_bound(a, h, b, k);
            assert((1 as real) * lo == lo);
            lemma_two_to_monotone(-900, -64);
            lemma_two_to_monotone(130, 900);
            lemma_nearest_shape(a * b, -64, 130);
        }
    }
}

/// Estimates the swap of a process by its part of the compressed memory.
pub fn swap_share(compressed: Double, total_compressed: Double, swap_total: Double) -> (r: Double)
    requires
        compressed.wf(),
        total_compressed.wf(),
        swap_total.wf(),
    ensures
        r == proportion(compressed, total_compressed, swap_total),
        r.wf(),
{
    match total_compressed {
        Double::Finite { mantissa: 0, .. } => Double::zero(),
        _ => swap_total.mul(compressed.div(total_compressed)),
    }
}

/// Estimates the swap of a process by amounts of bytes.
pub fn bytes_share(compressed: u64, total_compressed: u64, swap_total: u64) -> (r: Double)
    ensures
        r == share(compressed, total_compressed, swap_total),
        r.is_moderate(),
{
    proof {
        lemma_share_moderate(compressed, total_compressed, swap_total);
    }
    swap_share(
        Double::from_u64(compressed),
        Double::from_u64(total_compressed),
        Double::from_u64(swap_total),
    )
}

/// Tells whether estimates can be made: the total is known and there is something to split by.
pub fn swap_estimates_available(swap_total: Option<u64>, total_compressed: u64) -> (r: bool)
    ensures
        r == (swap_total is Some && total_compressed > 0),
{
    swap_total.is_some() && total_compressed > 0
}

proof fn lemma_one()
    ensures
        ({
            let one = nearest(1 as real);
            one.is_amount() && !one.is_zero() && one.magnitude() == 1 as real
        }),
{
    let one = Double::Finite {
        negative: false,
        mantissa: 0x10_0000_0000_0000,
        exponent: -52i32,
    };
    lemma_two_to_sum(-52, 52);
    crate::double::lemma_two_to_52();
    assert(two_to(-52) * two_to(52) == two_to(52) * two_to(-52)) by (nonlinear_arith);
    assert(one.magnitude() == 1 as real);
    lemma_nearest_exact(one);
}

/// All of the compressed memory gets all of the swap in use, to the last bit.
pub proof fn law_all_memory_gets_all_swap(total_compressed: Double, swap_total: Double)
    requires
        total_compressed.wf() && total_compressed is Finite && !total_compressed.is_zero(),
        swap_total.wf(),
    ensures
        proportion(total_compressed, total_compressed, swap_total) == swap_total,
{
    let (m, e) = (total_compressed->mantissa as real, total_compressed->exponent as int);
    let (t, x) = (two_to(e), total_compressed.magnitude());
    lemma_two_to_positive(e);
    assert(m * t > 0 as real) by (nonlinear_arith)
        requires
            m > 0 as real,
            t > 0 as real,
    ;
    assert(x / x == 1 as real) by (nonlinear_arith)
        requires
            x > 0 as real,
    ;
    lemma_one();
    if swap_total is Finite {
        let bare = signed(false, swap_total);
        lemma_nearest_exact(bare);
        assert(swap_total.magnitude() * (1 as real) == bare.magnitude());
    }
}

proof fn lemma_amount(d: Double)
    requires
        d is Finite,
    ensures
        d.magnitude() >= 0 as real,
{
    let (m, t) = (d->mantissa as real, two_to(d->exponent as int));
    lemma_two_to_positive(d->exponent as int);
    assert(m * t >= 0 as real) by (nonlinear_arith)
        requires
            m >= 0 as real,
            t > 0 as real,
    ;
}

/// What the magnitude and the sign of a finite double that is not below zero are.
proof fn lemma_not_below_zero(d: Double)
    requires
        d.wf() && d is Finite,
        d.value() >= 0 as real,
    ensures
        d.magnitude() == d.value(),
        d.is_negative() ==> d.magnitude() == 0 as real,
{
    lemma_amount(d);
}

/// The share of a part of the compressed memory, spelled out.
proof fn lemma_proportion(c: Double, t: Double, s: Double)
    requires
        c.wf() && c is Finite,
        t.wf() && t is Finite,
        s.wf() && s is Finite,
        0 as real <= c.value() <= t.value(),
        t.value() > 0 as real,
        s.value() >= 0 as real,
    ensures
        ({
            let part = nearest(c.magnitude() / t.magnitude());
            let whole = nearest(s.magnitude() * part.magnitude());
            &&& 0 as real <= c.magnitude() / t.magnitude()
            &&& part.is_amount()
            &&& 0 as real <= part.magnitude() <= 1 as real
            &&& 0 as real <= s.magnitude() * part.magnitude()
            &&& whole.is_amount()
            &&& proportion(c, t, s) is Finite
            &&& proportion(c, t, s).value() == whole.magnitude()
            &&& 0 as real <= whole.magnitude() <= s.magnitude()
        }),
{
    lemma_not_below_zero(c);
    lemma_not_below_zero(t);
    lemma_not_below_zero(s);
    lemma_one();
    lemma_zero_magnitude();
    let (x, y, z) = (c.magnitude(), t.magnitude(), s.magnitude());
    let q = x / y;
    assert(0 as real <= q <= 1 as real && (x == 0 as real ==> q == 0 as real)) by (nonlinear_arith)
        requires
            0 as real <= x <= y,
            y > 0 as real,
            q == x / y,
    ;
    if t.is_zero() {
        let u = two_to(t->exponent as int);
        assert((0 as real) * u == 0 as real) by (nonlinear_arith);
    }
    lemma_nearest_monotone(q, 1 as real);
    let part = nearest(q);
    let p = part.magnitude();
    lemma_amount(part);
    let w = z * p;
    assert(0 as real <= w <= z && (z == 0 as real || p == 0 as real ==> w == 0 as real))
        by (nonlinear_arith)
        requires
            0 as real <= p <= 1 as real,
            0 as real <= z,
            w == z * p,
    ;
    let bare = signed(false, s);
    lemma_nearest_exact(bare);
    assert(bare.magnitude() == z);
    lemma_nearest_monotone(w, z);
    lemma_amount(nearest(w));
}

/// More compressed memory never gets a smaller share, no share is negative, and none exceeds
/// that of all of the compressed memory, which is all of the swap in use.
pub proof fn law_shares_are_ordered(
    c: Double,
    d: Double,
    total_compressed: Double,
    swap_total: Double,
)
    requires
        c.wf() && c is Finite,
        d.wf() && d is Finite,
        total_compressed.wf() && total_compressed is Finite,
        swap_total.wf() && swap_total is Finite,
        0 as real <= c.value() <= d.value() <= total_compressed.value(),
        total_compressed.value() > 0 as real,
        swap_total.value() >= 0 as real,
    ensures
        proportion(c, total_compressed, swap_total) is Finite,
        proportion(d, total_compressed, swap_total) is Finite,
        0 as real <= proportion(c, total_compressed, swap_total).value() <= proportion(
            d,
            total_compressed,
            swap_total,
        ).value() <= proportion(total_compressed, total_compressed, swap_total).value(),
        proportion(total_compressed, total_compressed, swap_total) == swap_total,
{
    lemma_proportion(c, total_compressed, swap_total);
    lemma_proportion(d, total_compressed, swap_total);
    lemma_not_below_zero(c);
    lemma_not_below_zero(d);
    lemma_not_below_zero(total_compressed);
    lemma_not_below_zero(swap_total);
    if total_compressed.is_zero() {
        let u = two_to(total_compressed->exponent as int);
        assert((0 as real) * u == 0 as real) by (nonlinear_arith);
    }
    law_all_memory_gets_all_swap(total_compressed, swap_total);
    let (x, y) = (c.magnitude(), d.magnitude());
    let (t, s) = (total_compressed.magnitude(), swap_total.magnitude());
    assert(x / t <= y / t) by (nonlinear_arith)
        requires
            x <= y,
            t > 0 as real,
    ;
    lemma_nearest_monotone(x / t, y / t);
    let (p, q) = (nearest(x / t).magnitude(), nearest(y / t).magnitude());
    assert(s * p <= s * q) by (nonlinear_arith)
        requires
            p <= q,
            0 as real <= s,
    ;
    lemma_nearest_monotone(s * p, s * q);
}

/// A process with more compressed memory never gets a smaller estimate.
pub proof fn law_share_is_monotone(c: u64, d: u64, total_compressed: u64, swap_total: u64)
    requires
        c <= d,
    ensures
        share(c, total_compressed, swap_total).magnitude() <= share(
            d,
            total_compressed,
            swap_total,
        ).magnitude(),
{
    lemma_share_moderate(c, total_compressed, swap_total);
    lemma_share_moderate(d, total_compressed, swap_total);
    if total_compressed > 0 {
        lemma_rounded_integer(c);
        lemma_rounded_integer(d);
        lemma_rounded_integer(total_compressed);
        lemma_rounded_integer(swap_total);
        lemma_rounded_part(c, total_compressed);
        lemma_rounded_part(d, total_compressed);
        lemma_zero_magnitude();
        lemma_two_to_positive(0);
        lemma_two_to_positive(-64);
        lemma_nearest_monotone(c as real, d as real);
        let t = nearest(total_compressed as real).magnitude();
        let s = nearest(swap_total as real).magnitude();
        let (x, y) = (nearest(c as real).magnitude(), nearest(d as real).magnitude());
        assert(0 as real <= x / t <= y / t) by (nonlinear_arith)
            requires
                0 as real <= x <= y,
                t > 0 as real,
        ;
        lemma_nearest_monotone(x / t, y / t);
        let (a, b) = (nearest(x / t).magnitude(), nearest(y / t).magnitude());
        assert(0 as real <= s * a <= s * b) by (nonlinear_arith)
            requires
                0 as real <= a <= b,
                0 as real <= s,
        ;
        lemma_nearest_monotone(s * a, s * b);
    }
}

/// No single process is credited with more than all of the swap in use, and one that holds all
/// of the compressed memory is credited with all of it, rounded to a double.
pub proof fn law_share_is_capped(compressed: u64, total_compressed: u64, swap_total: u64)
    requires
        compressed <= total_compressed,
    ensures
        share(compressed, total_compressed, swap_total).magnitude() <= nearest(
            swap_total as real,
        ).magnitude(),
        total_compressed > 0 ==> share(total_compressed, total_compressed, swap_total) == nearest(
            swap_total as real,
        ),
{
    lemma_zero_magnitude();
    lemma_rounded_integer(total_compressed);
    lemma_rounded_integer(swap_total);
    lemma_two_to_positive(0);
    if total_compressed > 0 {
        law_share_is_monotone(compressed, total_compressed, total_compressed, swap_total);
        law_all_memory_gets_all_swap(
            nearest(total_compressed as real),
            nearest(swap_total as real),
        );
    } else {
        lemma_share_moderate(compressed, total_compressed, swap_total);
    }
}

/// Adding a share to a running sum of shares stays far from the largest double.
proof fn lemma_add_share(a: Double, b: Double)
    requires
        a.is_moderate(),
        b.is_moderate(),
        a.magnitude() <= two_to(118),
        b.magnitude() <= two_to(64),
    ensures
        in_normal_range(a.magnitude() + b.magnitude()),
        nearest(a.magnitude() + b.magnitude()).is_moderate(),
        nearest(a.magnitude() + b.magnitude()).magnitude() <= two_to(118),
{
    let x = a.magnitude() + b.magnitude();
    lemma_zero_magnitude();
    lemma_two_to_positive(118);
    lemma_two_to_positive(-248);
    if a == Double::zero() && b == Double::zero() {
    } else {
        if a != Double::zero() {
            lemma_moderate_bounds(a);
        }
        if b != Double::zero() {
            lemma_moderate_bounds(b);
        }
        lemma_two_to_next(118);
        lemma_two_to_monotone(64, 117);
        lemma_two_to_next(117);
        lemma_two_to_positive(117);
        lemma_two_to_monotone(-900, -248);
        lemma_two_to_monotone(119, 900);
        lemma_nearest_shape(x, -248, 119);
        if x < two_to(118) {
            lemma_nearest_shape(x, -248, 118);
        } else {
            assert(crate::double::in_binade(x, 66));
            crate::double::lemma_scale(x, 66);
            lemma_two_to_monotone(-1022, 118);
            lemma_two_to_sum(66, 52);
            lemma_two_to_next(64);
            lemma_two_to_next(65);
            lemma_two_to_positive(64);
            crate::double::lemma_two_to_52();
            let (t, lo, d) = (two_to(66), two_to(52), x - two_to(118));
            let y = x / t;
            assert(y == lo + d / t) by (nonlinear_arith)
                requires
                    y == x / t,
                    x == t * lo + d,
                    t > 0 as real,
            ;
            assert(0 as real <= d / t && (4 as real) * (d / t) <= 1 as real) by (nonlinear_arith)
                requires
                    0 as real <= d,
                    (4 as real) * d <= t,
                    t > 0 as real,
            ;
            assert(y.floor() == 0x10_0000_0000_0000);
            assert(crate::double::half_even(y) == 0x10_0000_0000_0000);
            assert(lo * t == t * lo) by (nonlinear_arith);
        }
    }
}

/// The running sum of the shares is a moderate double.
proof fn lemma_estimate_sum(
    compressed: Seq<u64>,
    total_compressed: u64,
    swap_total: u64,
)
    requires
        forall|i: int| 0 <= i < compressed.len() ==> compressed[i] <= total_compressed,
    ensures
        estimate_sum(compressed, total_compressed, swap_total).is_moderate(),
        estimate_sum(compressed, total_compressed, swap_total).magnitude() <= two_to(118),
        compressed.len() > 0 ==> in_normal_range(
            estimate_sum(compressed.drop_last(), total_compressed, swap_total).magnitude() + share(
                compressed.last(),
                total_compressed,
                swap_total,
            ).magnitude(),
        ),
    decreases compressed.len(),
{
    lemma_zero_magnitude();
    lemma_two_to_positive(118);
    lemma_two_to_positive(64);
    if compressed.len() > 0 {
        let c = compressed.last();
        lemma_estimate_sum(compressed.drop_last(), total_compressed, swap_total);
        lemma_share_moderate(c, total_compressed, swap_total);
        law_share_is_capped(c, total_compressed, swap_total);
        lemma_rounded_integer(swap_total);
        lemma_add_share(
            estimate_sum(compressed.drop_last(), total_compressed, swap_total),
            share(c, total_compressed, swap_total),
        );
    }
}

/// The sum of the first shares in exact arithmetic.
pub open spec fn exact_sum(compressed: Seq<u64>, total_compressed: u64, swap_total: u64) -> real
    decreases compressed.len(),
{
    if compressed.len() == 0 {
        0 as real
    } else {
        exact_sum(compressed.drop_last(), total_compressed, swap_total) + exact_share(
            compressed.last(),
            total_compressed,
            swap_total,
        )
    }
}

/// In exact arithmetic, the shares of some processes make up what their memory makes up.
proof fn lemma_exact_sum(compressed: Seq<u64>, total_compressed: u64, swap_total: u64)
    requires
        total_compressed > 0,
    ensures
        exact_sum(compressed, total_compressed, swap_total) == (swap_total as real) * ((sum_of(
            compressed,
        ) as real) / (total_compressed as real)),
        exact_sum(compressed, total_compressed, swap_total) >= 0 as real,
    decreases compressed.len(),
{
    let (s, t) = (swap_total as real, total_compressed as real);
    if compressed.len() > 0 {
        lemma_exact_sum(compressed.drop_last(), total_compressed, swap_total);
        let (a, b) = (sum_of(compressed.drop_last()) as real, compressed.last() as real);
        assert(s * (a / t) + s * (b / t) == s * ((a + b) / t)) by (nonlinear_arith)
            requires
                t > 0 as real,
        ;
        assert(s * (b / t) >= 0 as real) by (nonlinear_arith)
            requires
                t > 0 as real,
                s >= 0 as real,
                b >= 0 as real,
        ;
    } else {
        assert(s * ((0 as real) / t) == 0 as real) by (nonlinear_arith)
            requires
                t > 0 as real,
        ;
    }
}

/// In exact arithmetic the shares of all processes add up to the swap in use.
pub proof fn law_exact_shares_add_up(
    compressed: Seq<u64>,
    total_compressed: u64,
    swap_total: u64,
)
    requires
        sum_of(compressed) == total_compressed,
        total_compressed > 0,
    ensures
        exact_sum(compressed, total_compressed, swap_total) == swap_total as real,
{
    lemma_exact_sum(compressed, total_compressed, swap_total);
    let (s, t) = (swap_total as real, total_compressed as real);
    assert(s * (t / t) == s) by (nonlinear_arith)
        requires
            t > 0 as real,
    ;
}

/// A share in double precision is off by at most five roundings.
pub proof fn law_share_is_accurate(compressed: u64, total_compressed: u64, swap_total: u64)
    requires
        total_compressed > 0,
    ensures
        within(
            share(compressed, total_compressed, swap_total).magnitude(),
            exact_share(compressed, total_compressed, swap_total),
            5,
        ),
{
    let (c, t, s) = (compressed as real, total_compressed as real, swap_total as real);
    let (x, y, z) = (nearest(c).magnitude(), nearest(t).magnitude(), nearest(s).magnitude());
    lemma_rounded_integer(compressed);
    lemma_rounded_integer(total_compressed);
    lemma_rounded_integer(swap_total);
    lemma_rounded_part(compressed, total_compressed);
    lemma_share_moderate(compressed, total_compressed, swap_total);
    lemma_zero_magnitude();
    lemma_two_to_positive(0);
    lemma_two_to_positive(-64);
    lemma_nearest_within(c);
    lemma_nearest_within(t);
    lemma_nearest_within(s);
    lemma_within_quotient(x, c, y, t, 1, 1);
    lemma_nearest_within(x / y);
    let part = nearest(x / y).magnitude();
    lemma_within_chain(part, x / y, c / t, 1, 2);
    assert(c / t >= 0 as real) by (nonlinear_arith)
        requires
            c >= 0 as real,
            t > 0 as real,
    ;
    lemma_within_product(z, s, part, c / t, 1, 3);
    lemma_nearest_within(z * part);
    lemma_within_chain(
        share(compressed, total_compressed, swap_total).magnitude(),
        z * part,
        s * (c / t),
        1,
        4,
    );
}

proof fn lemma_estimate_sum_within(compressed: Seq<u64>, total_compressed: u64, swap_total: u64)
    requires
        total_compressed > 0,
        forall|i: int| 0 <= i < compressed.len() ==> compressed[i] <= total_compressed,
    ensures
        within(
            estimate_sum(compressed, total_compressed, swap_total).magnitude(),
            exact_sum(compressed, total_compressed, swap_total),
            compressed.len() + 5,
        ),
    decreases compressed.len(),
{
    lemma_zero_magnitude();
    let n = compressed.len();
    if n == 0 {
        let g = stretched(5);
        assert((0 as real) * g == 0 as real) by (nonlinear_arith);
    } else {
        let rest = compressed.drop_last();
        let c = compressed.last();
        lemma_estimate_sum_within(rest, total_compressed, swap_total);
        lemma_estimate_sum(compressed, total_compressed, swap_total);
        law_share_is_accurate(c, total_compressed, swap_total);
        lemma_share_moderate(c, total_compressed, swap_total);
        lemma_exact_sum(rest, total_compressed, swap_total);
        let a = estimate_sum(rest, total_compressed, swap_total).magnitude();
        let b = exact_sum(rest, total_compressed, swap_total);
        let x = share(c, total_compressed, swap_total).magnitude();
        let y = exact_share(c, total_compressed, swap_total);
        let (s, p, t) = (swap_total as real, c as real, total_compressed as real);
        assert(s * (p / t) >= 0 as real) by (nonlinear_arith)
            requires
                t > 0 as real,
                s >= 0 as real,
                p >= 0 as real,
        ;
        if share(c, total_compressed, swap_total) != Double::zero() {
            lemma_moderate_bounds(share(c, total_compressed, swap_total));
            lemma_two_to_positive(-248);
        }
        lemma_within_weaken(x, y, 5, (n + 4) as nat);
        lemma_within_sum(a, b, x, y, (n + 4) as nat);
        lemma_nearest_within(a + x);
        lemma_within_chain(nearest(a + x).magnitude(), a + x, b + y, 1, (n + 4) as nat);
    }
}

pub(crate) proof fn lemma_sum_prefix(amounts: Seq<u64>, n: int)
    requires
        0 <= n <= amounts.len(),
    ensures
        sum_of(amounts.take(n)) <= sum_of(amounts),
    decreases amounts.len(),
{
    if n == amounts.len() {
        assert(amounts.take(n) =~= amounts);
    } else {
        lemma_sum_prefix(amounts.drop_last(), n);
        assert(amounts.drop_last().take(n) =~= amounts.take(n));
    }
}

pub(crate) proof fn lemma_summand(amounts: Seq<u64>, i: int)
    requires
        0 <= i < amounts.len(),
    ensures
        amounts[i] <= sum_of(amounts),
    decreases amounts.len(),
{
    if i < amounts.len() - 1 {
        lemma_summand(amounts.drop_last(), i);
    }
}

/// The estimates of all processes, added up in double precision, make up the swap in use
/// but for a factor of at most `(1 + 2^-53)^(n + 5)`, where `n` is the number of processes.
pub proof fn law_estimates_conserve_swap(
    compressed: Seq<u64>,
    total_compressed: u64,
    swap_total: u64,
)
    requires
        sum_of(compressed) == total_compressed,
        total_compressed > 0,
    ensures
        within(
            estimate_sum(compressed, total_compressed, swap_total).magnitude(),
            swap_total as real,
            compressed.len() + 5,
        ),
{
    assert forall|i: int| 0 <= i < compressed.len() implies compressed[i] <= total_compressed by {
        lemma_summand(compressed, i);
    }
    lemma_estimate_sum_within(compressed, total_compressed, swap_total);
    law_exact_shares_add_up(compressed, total_compressed, swap_total);
}

/// The same bound as a distance: the sum of the estimates of `n` processes misses the swap
/// in use by at most its `(n + 5) / 2^52`-th part, for any number of processes up to `2^52`.
pub proof fn law_estimates_miss_little(
    compressed: Seq<u64>,
    total_compressed: u64,
    swap_total: u64,
)
    requires
        sum_of(compressed) == total_compressed,
        total_compressed > 0,
        compressed.len() + 5 <= 0x10_0000_0000_0000,
    ensures
        ({
            let sum = estimate_sum(compressed, total_compressed, swap_total).magnitude();
            let slack = (swap_total as real) * (((compressed.len() + 5) as real) * two_to(-52));
            (swap_total as real) - slack <= sum <= (swap_total as real) + slack
        }),
{
    law_estimates_conserve_swap(compressed, total_compressed, swap_total);
    let k = (compressed.len() + 5) as nat;
    lemma_stretched_linear(k);
    lemma_stretched_at_least_one(k);
    let (a, b, g) = (
        estimate_sum(compressed, total_compressed, swap_total).magnitude(),
        swap_total as real,
        stretched(k),
    );
    let h = (k as real) * two_to(-52);
    assert(b * g <= b + b * h) by (nonlinear_arith)
        requires
            b >= 0 as real,
            g <= (1 as real) + h,
    ;
    assert(b - b * h <= a) by (nonlinear_arith)
        requires
            b >= 0 as real,
            b <= a * g,
            1 as real <= g <= (1 as real) + h,
    ;
}

/// The estimates of some processes, added up in double precision, make up the part of the swap
/// in use that is in proportion to their compressed memory, but for a factor of at most
/// `(1 + 2^-53)^(n + 5)`, where `n` is the number of these processes.
pub proof fn law_estimates_of_some_processes(
    compressed: Seq<u64>,
    total_compressed: u64,
    swap_total: u64,
)
    requires
        total_compressed > 0,
        forall|i: int| 0 <= i < compressed.len() ==> compressed[i] <= total_compressed,
    ensures
        estimate_sum(compressed, total_compressed, swap_total).is_amount(),
        within(
            estimate_sum(compressed, total_compressed, swap_total).magnitude(),
            (swap_total as real) * ((compressed.fold_left(0int, |sum: int, n: u64| sum + n) as real)
                / (total_compressed as real)),
            compressed.len() + 5,
        ),
{
    lemma_estimate_sum(compressed, total_compressed, swap_total);
    lemma_estimate_sum_within(compressed, total_compressed, swap_total);
    lemma_exact_sum(compressed, total_compressed, swap_total);
    law_sum_is_one_by_one(compressed);
}

/// Adds amounts up, unless the sum is out of range.
pub fn checked_sum(amounts: &Vec<u64>) -> (r: Option<u64>)
    ensures
        r == (if sum_of(amounts@) <= u64::MAX {
            Some(sum_of(amounts@) as u64)
        } else {
            None
        }),
{
    let mut sum: u64 = 0;
    let mut i: usize = 0;
    assert(amounts@.take(0) =~= Seq::<u64>::empty());
    while i < amounts.len()
        invariant
            i <= amounts@.len(),
            sum == sum_of(amounts@.take(i as int)),
        decreases amounts@.len() - i,
    {
        proof {
            assert(amounts@.take(i + 1).drop_last() =~= amounts@.take(i as int));
            lemma_sum_prefix(amounts@, i + 1);
        }
        if amounts[i] > u64::MAX - sum {
            return None;
        }
        sum = sum + amounts[i];
        i = i + 1;
    }
    assert(amounts@.take(amounts@.len() as int) =~= amounts@);
    Some(sum)
}

/// Adds the estimates for some processes up.
pub fn estimate_total(compressed: &Vec<u64>, total_compressed: u64, swap_total: u64) -> (r: Double)
    requires
        forall|i: int| 0 <= i < compressed@.len() ==> compressed@[i] <= total_compressed,
    ensures
        r == estimate_sum(compressed@, total_compressed, swap_total),
        r.is_moderate(),
{
    let mut sum = Double::zero();
    let mut i: usize = 0;
    assert(compressed@.take(0) =~= Seq::<u64>::empty());
    while i < compressed.len()
        invariant
            i <= compressed@.len(),
            forall|k: int| 0 <= k < compressed@.len() ==> compressed@[k] <= total_compressed,
            sum == estimate_sum(compressed@.take(i as int), total_compressed, swap_total),
            sum.is_moderate(),
        decreases compressed@.len() - i,
    {
        proof {
            assert(compressed@.take(i + 1).drop_last() =~= compressed@.take(i as int));
            lemma_estimate_sum(compressed@.take(i + 1), total_compressed, swap_total);
        }
        sum = sum.add(bytes_share(compressed[i], total_compressed, swap_total));
        i = i + 1;
    }
    assert(compressed@.take(compressed@.len() as int) =~= compressed@);
    sum
}

/// The sum of amounts is what adding them one after the other gives.
pub proof fn law_sum_is_one_by_one(amounts: Seq<u64>)
    ensures
        sum_of(amounts) == amounts.fold_left(0int, |sum: int, n: u64| sum + n),
    decreases amounts.len(),
{
    if amounts.len() > 0 {
        law_sum_is_one_by_one(amounts.drop_last());
    }
}

/// An integer of up to 53 bits is a double itself.
pub proof fn law_small_integers_are_exact(n: u64)
    requires
        n <= 0x20_0000_0000_0000,
    ensures
        nearest(n as real).magnitude() == n as real,
        nearest(n as real).value() == n as real,
{
    lemma_rounded_integer(n);
    lemma_zero_magnitude();
    if n > 0 {
        let x = n as real;
        lemma_two_to_64();
        assert(two_to(0) <= x < two_to(64));
        crate::accuracy::lemma_binade_exists(x, 0, 64);
        crate::accuracy::lemma_nearest_shape(x, 0, 64);
        let s = crate::double::scale(x);
        crate::double::lemma_two_to_52();
        if n == 0x20_0000_0000_0000 {
            crate::double::lemma_scale(x, 1);
            lemma_two_to_next(53);
            lemma_two_to_next(0);
            let d = Double::Finite {
                negative: false,
                mantissa: 0x10_0000_0000_0000,
                exponent: 1i32,
            };
            lemma_nearest_exact(d);
        } else {
            if s > 0 {
                lemma_two_to_monotone(53, s + 52);
            }
            let p = crate::accuracy::lemma_two_to_integer(-s);
            lemma_two_to_sum(-s, s);
            lemma_two_to_positive(s);
            crate::double::lemma_real_product(n as int, p);
            let (q, t) = (p as real, two_to(s));
            let y = x / t;
            assert(y == x * q) by (nonlinear_arith)
                requires
                    q * t == 1 as real,
                    t > 0 as real,
                    y == x / t,
            ;
            crate::double::lemma_floor(y, n * p);
            assert(crate::double::half_even(y) == n * p);
            assert((x * q) * t == x) by (nonlinear_arith)
                requires
                    q * t == 1 as real,
            ;
        }
    }
}

} // verus!
