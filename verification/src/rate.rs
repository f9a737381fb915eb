//! Growth, the time it took, and its rate, in double precision.

use crate::accuracy::{
    in_normal_range, lemma_nearest_shape, lemma_nearest_within, lemma_within_chain,
    lemma_within_quotient, within,
};
use crate::double::{
    double_of_bits, lemma_half_even_ratio, lemma_nearest_scaled, lemma_two_to_64,
    lemma_two_to_monotone, lemma_two_to_positive, lemma_two_to_sum, nearest, quotient, ratio,
    signed, two_to, Double,
};
use crate::human::{lemma_compare_power, lemma_magnitude};
use crate::reading::size as distance_from_zero;
use crate::share::{law_small_integers_are_exact, lemma_rounded_integer, lemma_zero_magnitude};
use vstd::prelude::*;

verus! {

/// The shortest time that growth is taken to need: a billionth of a second.
pub open spec fn shortest() -> Double {
    Double::Finite { negative: false, mantissa: 0x11_2E0B_E826_D695, exponent: -82i32 }
}

/// The shortest time is the double closest to `1 / 10^9`.
pub proof fn law_shortest_is_a_nanosecond()
    ensures
        shortest() == nearest(ratio(1, 1_000_000_000)),
{
    let v = ratio(1, 1_000_000_000);
    let (a, b) = (0x4_0000_0000_0000_0000_0000int, 1_000_000_000int);
    lemma_two_to_64();
    assert(two_to(18) == 0x4_0000 as real) by {
        reveal_with_fuel(two_to, 19);
    }
    lemma_two_to_sum(64, 18);
    lemma_two_to_sum(82, -82);
    let (p, q, t) = (a as real, b as real, two_to(-82));
    assert(((1 as real) / q) == (p / q) * t) by (nonlinear_arith)
        requires
            p * t == 1 as real,
            q > 0 as real,
    ;
    lemma_nearest_scaled(v, a, b, -82);
    lemma_half_even_ratio(a, b);
}

/// A time that growth can be divided by: not below the shortest one, and below `2^65` seconds.
pub open spec fn is_elapsed(d: Double) -> bool {
    &&& d.is_amount()
    &&& d->mantissa >= 0x10_0000_0000_0000
    &&& -82 <= d->exponent <= 12
    &&& d.magnitude() >= shortest().magnitude()
}

/// The larger of a time and the shortest one. What is not a number, or is negative, is smaller.
pub open spec fn at_least_shortest(d: Double) -> Double {
    if d.is_amount() && d.magnitude() >= shortest().magnitude() {
        d
    } else {
        shortest()
    }
}

/// `d` has no upper bound or is `2^65` seconds or more.
pub open spec fn is_endless(d: Double) -> bool {
    d == Double::Infinite { negative: false } || (d.is_amount() && d.magnitude() >= two_to(65))
}

/// The seconds that the bits of a double stand for, if growth can be divided by them.
pub open spec fn elapsed_in(bits: u64) -> Option<Double> {
    if is_endless(double_of_bits(bits)) {
        None
    } else {
        Some(at_least_shortest(double_of_bits(bits)))
    }
}

/// The bigger mantissa or exponent of two positive doubles decides.
proof fn lemma_compare_shortest(m: u64, e: int)
    requires
        m < 0x20_0000_0000_0000,
        m >= 0x10_0000_0000_0000 || e == -1074,
    ensures
        ((m as real) * two_to(e) >= shortest().magnitude()) == (m >= 0x10_0000_0000_0000 && (e
            > -82 || (e == -82 && m >= 0x11_2E0B_E826_D695))),
{
    let (a, b) = (m as real, 0x11_2E0B_E826_D695 as real);
    let (t, u) = (two_to(e), two_to(-82));
    lemma_two_to_positive(e);
    lemma_two_to_positive(-82);
    lemma_magnitude(m, e);
    lemma_magnitude(0x11_2E0B_E826_D695, -82);
    if m < 0x10_0000_0000_0000 || e < -82 {
        lemma_two_to_monotone(e + 53, -82 + 52);
    } else if e > -82 {
        lemma_two_to_monotone(-82 + 53, e + 52);
    } else {
        assert((a * t >= b * t) == (a >= b)) by (nonlinear_arith)
            requires
                t > 0 as real,
        ;
    }
}

/// The seconds between two samples, by the bits of a double. There are none where the bits
/// stand for more seconds than any clock counts.
pub fn elapsed_seconds(bits: u64) -> (r: Option<Double>)
    ensures
        r == elapsed_in(bits),
        r matches Some(d) ==> is_elapsed(d),
{
    let given = Double::from_bits(bits);
    let floor = Double::Finite {
        negative: false,
        mantissa: 0x11_2E0B_E826_D695,
        exponent: -82,
    };
    match given {
        Double::Finite { negative, mantissa: m, exponent: e } => {
            proof {
                lemma_compare_shortest(m, e as int);
                lemma_compare_power(m, e as int, 65);
                lemma_compare_shortest(0x11_2E0B_E826_D695, -82);
            }
            if negative {
                Some(floor)
            } else if e > 12 {
                None
            } else if m >= 0x10_0000_0000_0000 && (e > -82 || (e == -82 && m
                >= 0x11_2E0B_E826_D695)) {
                Some(given)
            } else {
                Some(floor)
            }
        },
        Double::Infinite { negative: false } => None,
        _ => {
            proof {
                lemma_compare_shortest(0x11_2E0B_E826_D695, -82);
            }
            Some(floor)
        },
    }
}

/// The distance of an integer from zero.
pub open spec fn size_of(n: int) -> int {
    if n < 0 {
        -n
    } else {
        n
    }
}

/// A difference of two amounts of bytes as a double.
pub open spec fn growth(delta: i128) -> Double {
    signed(delta < 0, nearest(size_of(delta as int) as real))
}

/// A difference per second: rounded itself, then divided by the time, then rounded again.
pub open spec fn rate_of(delta: i128, elapsed: Double) -> Double {
    quotient(growth(delta), elapsed)
}

/// The size of a difference of two amounts of bytes.
fn size(delta: i128) -> (r: u64)
    requires
        -0x1_0000_0000_0000_0000 < delta < 0x1_0000_0000_0000_0000,
    ensures
        r == size_of(delta as int),
{
    if delta < 0 {
        (-delta) as u64
    } else {
        delta as u64
    }
}

/// Rounds a difference of two amounts of bytes to a double.
pub fn growth_of(delta: i128) -> (r: Double)
    requires
        -0x1_0000_0000_0000_0000 < delta < 0x1_0000_0000_0000_0000,
    ensures
        r == growth(delta),
        r.wf(),
{
    Double::from_u64(size(delta)).with_sign(delta < 0)
}

/// Divides a difference of two amounts of bytes by the time it took.
pub fn rate(delta: i128, elapsed: Double) -> (r: Double)
    requires
        -0x1_0000_0000_0000_0000 < delta < 0x1_0000_0000_0000_0000,
        elapsed.wf(),
    ensures
        r == rate_of(delta, elapsed),
        r.wf(),
{
    growth_of(delta).div(elapsed)
}

/// A rate has the sign of the growth, and its size is off by at most two roundings.
pub proof fn law_rate_is_accurate(delta: i128, elapsed: Double)
    requires
        -0x1_0000_0000_0000_0000 < delta < 0x1_0000_0000_0000_0000,
        is_elapsed(elapsed),
    ensures
        rate_of(delta, elapsed) matches Double::Finite { negative, .. } && negative == (delta < 0),
        rate_of(delta, elapsed).wf(),
        rate_of(delta, elapsed).value() < 0 as real <==> delta < 0,
        within(
            distance_from_zero(rate_of(delta, elapsed).value()),
            distance_from_zero(delta as real) / elapsed.value(),
            2,
        ),
{
    let n = size_of(delta as int) as u64;
    let x = n as real;
    let a = nearest(x).magnitude();
    let t = elapsed.magnitude();
    lemma_rounded_integer(n);
    lemma_zero_magnitude();
    lemma_two_to_64();
    lemma_two_to_positive(-30);
    lemma_two_to_positive(65);
    lemma_magnitude(0x11_2E0B_E826_D695, -82);
    lemma_magnitude(elapsed->mantissa, elapsed->exponent as int);
    lemma_two_to_monotone(elapsed->exponent + 53, 65);
    let q = a / t;
    assert(in_normal_range(q)) by {
        if n == 0 {
            assert((0 as real) / t == 0 as real) by (nonlinear_arith)
                requires
                    t > 0 as real,
            ;
        } else {
            lemma_two_to_sum(-65, 65);
            lemma_two_to_sum(64, 30);
            lemma_two_to_sum(-30, 30);
            let (lo, hi, u, v, w) = (two_to(-65), two_to(65), two_to(-30), two_to(30), two_to(64));
            lemma_two_to_positive(-65);
            lemma_two_to_positive(30);
            assert(lo <= q) by (nonlinear_arith)
                requires
                    1 as real <= a,
                    (0 as real) < t <= hi,
                    lo * hi == 1 as real,
                    lo > 0 as real,
                    q == a / t,
            ;
            assert(q <= w * v) by (nonlinear_arith)
                requires
                    (0 as real) < a <= w,
                    u <= t,
                    u > 0 as real,
                    u * v == 1 as real,
                    v > 0 as real,
                    q == a / t,
            ;
            lemma_two_to_monotone(-900, -65);
            lemma_two_to_monotone(95, 900);
            crate::double::lemma_two_to_next(94);
            lemma_two_to_positive(94);
        }
    }
    lemma_nearest_within(x);
    lemma_nearest_within(q);
    assert(nearest(q).is_amount()) by {
        if q != 0 as real {
            lemma_nearest_shape(q, -900, 900);
        }
    }
    assert(t * (1 as real) == t);
    assert(within(t, t, 0));
    lemma_within_quotient(a, x, t, t, 1, 0);
    lemma_within_chain(nearest(q).magnitude(), q, x / t, 1, 1);
    assert(x == distance_from_zero(delta as real));
    let r = nearest(q);
    assert(r.magnitude() >= 0 as real && (n > 0 ==> r.magnitude() > 0 as real)) by {
        lemma_two_to_positive(-900);
        lemma_two_to_positive(0);
        if n == 0 {
            assert((0 as real) / t == 0 as real) by (nonlinear_arith)
                requires
                    t > 0 as real,
            ;
        } else {
            assert(q > 0 as real) by (nonlinear_arith)
                requires
                    a > 0 as real,
                    t > 0 as real,
                    q == a / t,
            ;
            lemma_nearest_shape(q, -900, 900);
        }
    }
}

/// A difference of two amounts of bytes becomes a double with its sign: the same number if it has
/// up to 53 bits, and otherwise one that is off by one rounding.
pub proof fn law_growth_is_the_difference(delta: i128)
    requires
        -0x1_0000_0000_0000_0000 < delta < 0x1_0000_0000_0000_0000,
    ensures
        growth(delta).wf() && growth(delta) is Finite,
        growth(delta).value() < 0 as real <==> delta < 0,
        within(distance_from_zero(growth(delta).value()), distance_from_zero(delta as real), 1),
        -0x20_0000_0000_0000 <= delta <= 0x20_0000_0000_0000 ==> growth(delta).value()
            == delta as real,
{
    let n = size_of(delta as int) as u64;
    lemma_rounded_integer(n);
    lemma_zero_magnitude();
    lemma_two_to_positive(0);
    lemma_nearest_within(n as real);
    assert(n as real == distance_from_zero(delta as real));
    if n <= 0x20_0000_0000_0000 {
        law_small_integers_are_exact(n);
    }
}

/// An exponent of ones stands for infinity, or for no number if a fraction follows it.
pub proof fn law_bits_of_no_number(negative: bool, fraction: u64)
    requires
        fraction < 0x10_0000_0000_0000,
    ensures
        ({
            let bits = (if negative {
                0xfff0_0000_0000_0000
            } else {
                0x7ff0_0000_0000_0000int
            }) + fraction;
            double_of_bits(bits as u64) == (if fraction == 0 {
                Double::Infinite { negative }
            } else {
                Double::Nan
            })
        }),
{
}

/// Growth is divided by the time that the clock told, or by a nanosecond if that is longer; a
/// time that is endless or `2^65` seconds or more is told from all others.
pub proof fn law_elapsed_is_a_nanosecond_at_least(bits: u64)
    ensures
        ({
            let told = double_of_bits(bits);
            let least = nearest((1 as real) / (1_000_000_000 as real));
            let endless = match told {
                Double::Nan => false,
                Double::Infinite { negative } => !negative,
                Double::Finite { .. } => told.value() >= two_to(65),
            };
            &&& elapsed_in(bits) is None <==> endless
            &&& !endless && told is Finite && told.value() >= least.value() ==> elapsed_in(bits)
                == Some(told)
            &&& !endless && !(told is Finite && told.value() >= least.value()) ==> elapsed_in(bits)
                == Some(least)
        }),
{
    let told = double_of_bits(bits);
    law_shortest_is_a_nanosecond();
    lemma_two_to_positive(65);
    lemma_two_to_positive(-82);
    lemma_magnitude(0x11_2E0B_E826_D695, -82);
    lemma_two_to_positive(-30);
    if told is Finite {
        let (m, t) = (told->mantissa as real, two_to(told->exponent as int));
        lemma_two_to_positive(told->exponent as int);
        assert(m * t >= 0 as real) by (nonlinear_arith)
            requires
                m >= 0 as real,
                t > 0 as real,
        ;
        lemma_bits(bits);
    }
}

proof fn lemma_bits(bits: u64)
    ensures
        double_of_bits(bits).wf(),
{
}

/// The bits of a double are a sign, an exponent of eleven bits and a fraction of 52 bits.
pub proof fn law_bits_are_sign_exponent_and_fraction(negative: bool, field: u64, fraction: u64)
    requires
        field < 0x7ff,
        fraction < 0x10_0000_0000_0000,
    ensures
        ({
            let bits = (if negative {
                0x8000_0000_0000_0000
            } else {
                0int
            }) + field * 0x10_0000_0000_0000 + fraction;
            let d = double_of_bits(bits as u64);
            &&& 0 <= bits <= u64::MAX
            &&& d is Finite && d.wf()
            &&& d.is_negative() == negative
            &&& field == 0 ==> d.magnitude() == (fraction as real) * two_to(-1074)
            &&& field > 0 ==> d.magnitude() == ((0x10_0000_0000_0000 + fraction) as real) * two_to(
                field - 1075,
            )
        }),
{
    let bits = (if negative {
        0x8000_0000_0000_0000
    } else {
        0int
    }) + field * 0x10_0000_0000_0000 + fraction;
    let high: int = if negative {
        0x800
    } else {
        0
    };
    assert(bits == (high + field) * 0x10_0000_0000_0000 + fraction);
    assert(bits / 0x10_0000_0000_0000 == high + field);
    assert(bits % 0x10_0000_0000_0000 == fraction);
    lemma_bits(bits as u64);
}

} // verus!
