//! Amounts of memory in the form that people read.

use crate::double::{
    half_even, lemma_floor, lemma_half_even_ratio, lemma_real_product, lemma_two_to_52,
    lemma_two_to_monotone, lemma_two_to_next, lemma_two_to_positive, lemma_two_to_sum,
    power_of_two, ratio, two_to, Double,
};
use crate::reading::{
    all_digits, amount, decimal_value, decimals, is_plain, is_word, lemma_until, signed_number, size,
    tells, unit_worth, until, without_sign, worth,
};
use crate::text::{
    decimal, digit, digit_text, last_digits, law_decimal_is_read_back,
    law_last_digits_are_read_back, push_decimal, push_last_digits,
};
use vstd::arithmetic::power::{lemma_pow1, lemma_pow_adds, pow};
use vstd::prelude::*;

verus! {

/// Ten to the power `places`.
pub open spec fn ten_to(places: nat) -> nat
    decreases places,
{
    if places == 0 {
        1
    } else {
        10 * ten_to((places - 1) as nat)
    }
}

/// `x` rounded to `places` decimals, ties going to the even digit.
pub open spec fn fixed(x: real, places: nat) -> Seq<char> {
    let n = half_even(x * (ten_to(places) as real)) as nat;
    decimal(n / ten_to(places)) + seq!['.'] + last_digits(n, places)
}

/// The number with the decimal digits `ds`, the last place first.
spec fn number(ds: Seq<u8>) -> nat
    decreases ds.len(),
{
    if ds.len() == 0 {
        0
    } else {
        ds[0] as nat + 10 * number(ds.drop_first())
    }
}

/// Decimal digits, the last place first, without leading zeros.
spec fn are_digits(ds: Seq<u8>) -> bool {
    &&& ds.len() > 0
    &&& ds.last() != 0
    &&& forall|i: int| 0 <= i < ds.len() ==> ds[i] < 10
}

proof fn lemma_number_push(ds: Seq<u8>, d: u8)
    ensures
        number(ds.push(d)) == number(ds) + d * ten_to(ds.len()),
    decreases ds.len(),
{
    if ds.len() == 0 {
        assert(ds.push(d).drop_first() =~= ds);
        assert(d * ten_to(0) == d) by (nonlinear_arith)
            requires
                ten_to(0) == 1,
        ;
    } else {
        assert(ds.push(d).drop_first() =~= ds.drop_first().push(d));
        lemma_number_push(ds.drop_first(), d);
        let t = ten_to((ds.len() - 1) as nat);
        assert(10 * (d * t) == d * (10 * t)) by (nonlinear_arith);
    }
}

proof fn lemma_number_positive(ds: Seq<u8>)
    requires
        ds.len() > 0,
        ds.last() != 0,
    ensures
        number(ds) > 0,
    decreases ds.len(),
{
    if ds.len() > 1 {
        lemma_number_positive(ds.drop_first());
    }
}

/// Reading digits from the highest place down gives the number in decimal.
proof fn lemma_decimal_of_digits(ds: Seq<u8>)
    requires
        are_digits(ds),
    ensures
        decimal(number(ds)) == Seq::new(ds.len(), |i: int| digit(ds[ds.len() - 1 - i] as int)),
    decreases ds.len(),
{
    let rest = ds.drop_first();
    if ds.len() == 1 {
        assert(number(rest) == 0);
        assert(decimal(number(ds)) =~= Seq::new(
            ds.len(),
            |i: int| digit(ds[ds.len() - 1 - i] as int),
        ));
    } else {
        lemma_number_positive(rest);
        lemma_decimal_of_digits(rest);
        assert(number(ds) / 10 == number(rest));
        assert(number(ds) % 10 == ds[0]);
        assert(decimal(number(ds)) =~= Seq::new(
            ds.len(),
            |i: int| digit(ds[ds.len() - 1 - i] as int),
        ));
    }
}

/// Replaces the number by its double.
fn double_digits(ds: &mut Vec<u8>)
    requires
        are_digits(old(ds)@),
    ensures
        are_digits(final(ds)@),
        number(final(ds)@) == 2 * number(old(ds)@),
{
    let ghost before = ds@;
    let len: usize = ds.len();
    let mut carry: u8 = 0;
    let mut i: usize = 0;
    assert(ds@.take(0) =~= Seq::<u8>::empty());
    while i < len
        invariant
            len == ds.len(),
            len == before.len(),
            are_digits(before),
            i <= len,
            carry <= 1,
            forall|j: int| 0 <= j < i ==> ds@[j] < 10,
            forall|j: int| i <= j < len ==> ds@[j] == before[j],
            number(ds@.take(i as int)) + carry * ten_to(i as nat) == 2 * number(
                before.take(i as int),
            ),
            i == len && carry == 0 ==> ds@[len - 1] != 0,
        decreases len - i,
    {
        let ghost prefix = ds@.take(i as int);
        assert(ds@[i as int] == before[i as int]);
        let t: u8 = 2 * ds[i] + carry;
        let ghost c = carry;
        ds.set(i, t % 10);
        carry = t / 10;
        proof {
            let p = ten_to(i as nat);
            assert(ds@.take(i + 1) =~= prefix.push(t % 10));
            assert(before.take(i + 1) =~= before.take(i as int).push(before[i as int]));
            lemma_number_push(prefix, t % 10);
            lemma_number_push(before.take(i as int), before[i as int]);
            let (low, high, d) = ((t % 10) as int, (t / 10) as int, before[i as int] as int);
            assert(low * p + high * (10 * p) == 2 * (d * p) + c * p) by (nonlinear_arith)
                requires
                    low + 10 * high == 2 * d + c,
            ;
        }
        i = i + 1;
    }
    assert(ds@.take(len as int) =~= ds@);
    assert(before.take(len as int) =~= before);
    if carry > 0 {
        proof {
            lemma_number_push(ds@, carry);
        }
        ds.push(carry);
    } else {
        assert(0 * ten_to(len as nat) == 0) by (nonlinear_arith);
    }
}

/// `m` doubled `e` times.
spec fn doubled(m: nat, e: nat) -> nat
    decreases e,
{
    if e == 0 {
        m
    } else {
        2 * doubled(m, (e - 1) as nat)
    }
}

proof fn lemma_doubled(m: nat, e: nat)
    ensures
        doubled(m, e) as real == (m as real) * two_to(e as int),
    decreases e,
{
    let x = m as real;
    if e == 0 {
        assert(x * (1 as real) == x);
    } else {
        lemma_doubled(m, (e - 1) as nat);
        lemma_two_to_next(e - 1);
        let t = two_to(e - 1);
        assert((2 as real) * (x * t) == x * (t * (2 as real))) by (nonlinear_arith);
    }
}

/// Appends `m * 2^e` in decimal.
fn push_doubled(out: &mut String, m: u64, e: u32)
    requires
        m > 0,
    ensures
        final(out)@ == old(out)@ + decimal(doubled(m as nat, e as nat)),
{
    let mut ds: Vec<u8> = Vec::new();
    let mut n: u64 = m;
    assert(n * ten_to(0) == n) by (nonlinear_arith)
        requires
            ten_to(0) == 1,
    ;
    while n > 0
        invariant
            m > 0,
            number(ds@) + n * ten_to(ds@.len()) == m,
            forall|i: int| 0 <= i < ds.len() ==> ds@[i] < 10,
            n == 0 ==> ds@.len() > 0 && ds@.last() != 0,
        decreases n,
    {
        let d: u8 = (n % 10) as u8;
        proof {
            lemma_number_push(ds@, d);
            let t = ten_to(ds@.len());
            let (q, k) = ((n / 10) as int, n as int);
            assert(q * (10 * t) + d * t == k * t) by (nonlinear_arith)
                requires
                    10 * q + d == k,
            ;
        }
        ds.push(d);
        n = n / 10;
    }
    assert(0 * ten_to(ds@.len()) == 0) by (nonlinear_arith);
    let mut i: u32 = 0;
    while i < e
        invariant
            i <= e,
            are_digits(ds@),
            number(ds@) == doubled(m as nat, i as nat),
        decreases e - i,
    {
        double_digits(&mut ds);
        i = i + 1;
    }
    proof {
        lemma_decimal_of_digits(ds@);
    }
    let ghost all = decimal(number(ds@));
    let mut k: usize = 0;
    assert(out@ =~= old(out)@ + all.take(0));
    while k < ds.len()
        invariant
            k <= ds@.len(),
            are_digits(ds@),
            all == Seq::new(ds@.len(), |i: int| digit(ds@[ds@.len() - 1 - i] as int)),
            out@ == old(out)@ + all.take(k as int),
        decreases ds@.len() - k,
    {
        out.append(digit_text(ds[ds.len() - 1 - k]));
        assert(old(out)@ + all.take(k + 1) =~= old(out)@ + all.take(k as int) + seq![
            all[k as int],
        ]);
        k = k + 1;
    }
    assert(all.take(ds@.len() as int) =~= all);
}

/// Dividing by `2^k` as multiplying by `2^-k`.
proof fn lemma_ratio_power(n: int, k: int, q: int)
    requires
        q as real == two_to(k),
    ensures
        ratio(n, q) == (n as real) * two_to(-k),
{
    lemma_two_to_sum(k, -k);
    lemma_two_to_positive(k);
    let (x, a, b) = (n as real, two_to(k), two_to(-k));
    assert(x / a == x * b) by (nonlinear_arith)
        requires
            a * b == 1 as real,
            a > 0 as real,
    ;
}

proof fn lemma_zero_decimals(v: nat, places: nat)
    ensures
        last_digits(v * ten_to(places), places) == last_digits(0, places),
        (v * ten_to(places)) / ten_to(places) == v,
        ten_to(places) > 0,
    decreases places,
{
    if places > 0 {
        let p = (places - 1) as nat;
        lemma_zero_decimals(v, p);
        let t = ten_to(p);
        assert(v * (10 * t) == 10 * (v * t)) by (nonlinear_arith);
        assert((v * (10 * t)) / (10 * t) == v) by (nonlinear_arith)
            requires
                t > 0,
        ;
    } else {
        assert(v * 1 == v);
    }
}

/// Appends `m * 2^e` with one or two decimals.
pub(crate) fn push_fixed(out: &mut String, m: u64, e: i32, places: u32)
    requires
        0 < m < 0x20_0000_0000_0000,
        -2000 <= e <= 2000,
        1 <= places <= 2,
    ensures
        final(out)@ == old(out)@ + fixed((m as real) * two_to(e as int), places as nat),
{
    let ghost x = (m as real) * two_to(e as int);
    let ten: u64 = if places == 1 {
        10
    } else {
        100
    };
    proof {
        reveal_with_fuel(ten_to, 3);
        reveal_strlit(".");
        assert("."@ =~= seq!['.']);
    }
    if e >= 0 {
        let ghost v = doubled(m as nat, e as nat);
        proof {
            lemma_doubled(m as nat, e as nat);
            lemma_real_product(v as int, ten as int);
            lemma_floor(x * (ten as real), (v * ten) as int);
            lemma_zero_decimals(v, places as nat);
        }
        push_doubled(out, m, e as u32);
        out.append(".");
        push_last_digits(out, 0, places);
    } else {
        let num: u64 = m * ten;
        let ghost k = -e;
        proof {
            let (a, b, t) = (m as real, ten as real, two_to(e as int));
            lemma_real_product(m as int, ten as int);
            assert((a * t) * b == (a * b) * t) by (nonlinear_arith);
        }
        let n: u64 = if e < -64 {
            proof {
                lemma_two_to_monotone(e as int, -65);
                lemma_two_to_positive(e as int);
                lemma_two_to_sum(53, -65);
                lemma_two_to_52();
                reveal_with_fuel(two_to, 13);
                let (a, t, top, lo) = (num as real, two_to(e as int), two_to(53), two_to(-65));
                assert(a <= top * (100 as real));
                assert(0 as real <= a * t && a * t <= (top * (100 as real)) * lo)
                    by (nonlinear_arith)
                    requires
                        0 as real <= a <= top * (100 as real),
                        (0 as real) < t <= lo,
                ;
                assert((top * (100 as real)) * lo == (top * lo) * (100 as real))
                    by (nonlinear_arith);
                lemma_floor(a * t, 0);
            }
            0
        } else {
            let unit: u128 = power_of_two((-e) as u32);
            proof {
                lemma_ratio_power(num as int, k as int, unit as int);
                lemma_half_even_ratio(num as int, unit as int);
            }
            let below: u128 = num as u128 / unit;
            let rest: u128 = num as u128 % unit;
            assert(below <= num) by (nonlinear_arith)
                requires
                    below == num as u128 / unit,
                    unit > 0,
            ;
            if 2 * rest < unit || (2 * rest == unit && below % 2 == 0) {
                below as u64
            } else {
                below as u64 + 1
            }
        };
        push_decimal(out, n / ten);
        out.append(".");
        push_last_digits(out, n, places);
    }
}

/// How many times 1024 can be divided out of `x`, up to four times, before less than 1024
/// is left.
pub open spec fn unit_of(x: real) -> int {
    if x < two_to(10) {
        0
    } else if x < two_to(20) {
        1
    } else if x < two_to(30) {
        2
    } else if x < two_to(40) {
        3
    } else {
        4
    }
}

/// The letter for a power of 1024.
pub open spec fn unit_text(i: int) -> Seq<char> {
    if i == 0 {
        "B"@
    } else if i == 1 {
        "K"@
    } else if i == 2 {
        "M"@
    } else if i == 3 {
        "G"@
    } else {
        "T"@
    }
}

/// A minus sign where one is due.
pub open spec fn minus(due: bool) -> Seq<char> {
    if due {
        "-"@
    } else {
        Seq::empty()
    }
}

/// An amount in the largest unit of which it makes up at least one: bytes are whole and
/// cut off, the other units have two decimals.
pub open spec fn human_text(d: Double) -> Seq<char> {
    match d {
        Double::Nan => "0B"@,
        Double::Infinite { negative } => minus(negative) + "infT"@,
        Double::Finite { negative, mantissa, exponent } => {
            let x = d.magnitude();
            let i = unit_of(x);
            if i == 0 {
                minus(negative && x >= 1 as real) + decimal(x.floor() as nat) + unit_text(0)
            } else {
                minus(negative) + fixed(x / two_to(10 * i), 2) + unit_text(i)
            }
        },
    }
}

/// The powers of two around a double with 53 significant bits.
pub(crate) proof fn lemma_magnitude(m: u64, e: int)
    requires
        m < 0x20_0000_0000_0000,
    ensures
        (m as real) * two_to(e) < two_to(e + 53),
        m >= 0x10_0000_0000_0000 ==> two_to(e + 52) <= (m as real) * two_to(e),
{
    lemma_two_to_52();
    lemma_two_to_positive(e);
    lemma_two_to_sum(e, 52);
    lemma_two_to_sum(e, 53);
    let (a, t, lo, hi) = (m as real, two_to(e), two_to(52), two_to(53));
    assert(a * t < t * hi) by (nonlinear_arith)
        requires
            a < hi,
            t > 0 as real,
    ;
    if m >= 0x10_0000_0000_0000 {
        assert(t * lo <= a * t) by (nonlinear_arith)
            requires
                lo <= a,
                t > 0 as real,
        ;
    }
}

pub(crate) proof fn lemma_compare_power(m: u64, e: int, k: int)
    requires
        m < 0x20_0000_0000_0000,
        m >= 0x10_0000_0000_0000 || e + 53 <= k,
    ensures
        ((m as real) * two_to(e) < two_to(k)) == (e + 53 <= k),
{
    lemma_magnitude(m, e);
    if e + 53 <= k {
        lemma_two_to_monotone(e + 53, k);
    } else {
        lemma_two_to_monotone(k, e + 52);
    }
}

/// The whole part of `m * 2^e` for an amount below 1024.
fn whole_part(m: u64, e: i32) -> (r: u64)
    requires
        m < 0x20_0000_0000_0000,
        -1074 <= e <= -43,
    ensures
        r == ((m as real) * two_to(e as int)).floor(),
        r >= 1 <==> (m as real) * two_to(e as int) >= 1 as real,
{
    let ghost x = (m as real) * two_to(e as int);
    if e < -64 {
        proof {
            lemma_magnitude(m, e as int);
            lemma_two_to_monotone(e + 53, 0);
            lemma_two_to_positive(e as int);
            let (a, t) = (m as real, two_to(e as int));
            assert(a * t >= 0 as real) by (nonlinear_arith)
                requires
                    a >= 0 as real,
                    t > 0 as real,
            ;
            lemma_floor(x, 0);
        }
        0
    } else {
        let unit: u128 = power_of_two((-e) as u32);
        proof {
            lemma_ratio_power(m as int, -e as int, unit as int);
            lemma_half_even_ratio(m as int, unit as int);
        }
        let r: u128 = m as u128 / unit;
        assert(r <= m) by (nonlinear_arith)
            requires
                r == m as u128 / unit,
                unit > 0,
        ;
        r as u64
    }
}

/// Writes an amount of bytes for people to read.
pub fn human(bytes: Double) -> (r: String)
    requires
        bytes.wf(),
    ensures
        r@ == human_text(bytes),
{
    let mut out = String::new();
    match bytes {
        Double::Nan => {
            out.append("0B");
            assert(out@ =~= "0B"@);
        },
        Double::Infinite { negative } => {
            if negative {
                out.append("-");
            }
            out.append("infT");
            assert(out@ =~= minus(negative) + "infT"@);
        },
        Double::Finite { negative, mantissa: m, exponent: e } => {
            let ghost x = bytes.magnitude();
            proof {
                if m < 0x10_0000_0000_0000 {
                    lemma_compare_power(m, e as int, 10);
                } else {
                    lemma_compare_power(m, e as int, 10);
                    lemma_compare_power(m, e as int, 20);
                    lemma_compare_power(m, e as int, 30);
                    lemma_compare_power(m, e as int, 40);
                }
            }
            if e <= -43 {
                let n: u64 = whole_part(m, e);
                if negative && n >= 1 {
                    out.append("-");
                }
                assert(out@ =~= minus(negative && x >= 1 as real));
                push_decimal(&mut out, n);
                out.append("B");
            } else {
                if negative {
                    out.append("-");
                }
                assert(out@ =~= minus(negative));
                let i: i32 = if e <= -33 {
                    1
                } else if e <= -23 {
                    2
                } else if e <= -13 {
                    3
                } else {
                    4
                };
                proof {
                    lemma_two_to_sum(e - 10 * i, 10 * i);
                    lemma_two_to_positive(10 * i);
                    let (a, t, u) = (m as real, two_to(e - 10 * i), two_to(10 * i));
                    assert((a * (t * u)) / u == a * t) by (nonlinear_arith)
                        requires
                            u > 0 as real,
                    ;
                }
                push_fixed(&mut out, m, e - 10 * i, 2);
                match i {
                    1 => out.append("K"),
                    2 => out.append("M"),
                    3 => out.append("G"),
                    _ => out.append("T"),
                }
            }
        },
    }
    out
}

/// A double is below zero.
pub open spec fn below_zero(d: Double) -> bool {
    match d {
        Double::Nan => false,
        Double::Infinite { negative } => negative,
        Double::Finite { negative, mantissa, .. } => negative && mantissa > 0,
    }
}

/// A double without its sign.
pub open spec fn unsigned(d: Double) -> Double {
    match d {
        Double::Nan => Double::Nan,
        Double::Infinite { negative } => Double::Infinite { negative: false },
        Double::Finite { negative, mantissa, exponent } => Double::Finite {
            negative: false,
            mantissa,
            exponent,
        },
    }
}

/// An amount behind the sign of its change.
pub open spec fn human_signed_text(d: Double) -> Seq<char> {
    (if below_zero(d) {
        "-"@
    } else {
        "+"@
    }) + human_text(unsigned(d))
}

/// Writes a change of an amount of bytes for people to read.
pub fn human_signed(delta: Double) -> (r: String)
    requires
        delta.wf(),
    ensures
        r@ == human_signed_text(delta),
{
    let (below, size) = match delta {
        Double::Nan => (false, Double::Nan),
        Double::Infinite { negative } => (negative, Double::Infinite { negative: false }),
        Double::Finite { negative, mantissa, exponent } => (
            negative && mantissa > 0,
            Double::Finite { negative: false, mantissa, exponent },
        ),
    };
    let mut out = String::new();
    if below {
        out.append("-");
    } else {
        out.append("+");
    }
    out.append(human(size).as_str());
    assert(out@ =~= human_signed_text(delta));
    out
}

proof fn lemma_pow_100()
    ensures
        pow(10, 2) == 100,
        pow(10, 1) == 10,
{
    lemma_pow1(10);
    lemma_pow_adds(10, 1, 1);
}

/// Digits without a point are read as the number that they are worth.
proof fn lemma_number_whole(s: Seq<char>)
    requires
        all_digits(s),
    ensures
        until(s, '.') == s.len(),
        decimal_value(s) == worth(s) as real,
        !crate::reading::has_sign(s),
{
    lemma_until(s, '.', s.len() as int);
    assert(s.take(s.len() as int) =~= s);
}

/// A number with decimals is read as what it was rounded to: it is off by at most half of the
/// last digit.
pub(crate) proof fn lemma_fixed(x: real, places: nat)
    requires
        x >= 0 as real,
        1 <= places <= 2,
    ensures
        ({
            let s = fixed(x, places);
            let p = until(s, '.');
            &&& 0 < p < s.len()
            &&& is_plain(s.take(p))
            &&& all_digits(s.skip(p + 1))
            &&& decimals(s) == places
            &&& !crate::reading::has_sign(s)
            &&& -(1 as real) <= (2 as real) * (pow(10, places) as real) * (decimal_value(s) - x) <= 1
                as real
        }),
{
    reveal_with_fuel(ten_to, 3);
    lemma_pow_100();
    let t = ten_to(places);
    let scaled = x * (t as real);
    assert(scaled >= 0 as real) by (nonlinear_arith)
        requires
            x >= 0 as real,
            t > 0,
            scaled == x * (t as real),
    ;
    let n = half_even(scaled) as nat;
    assert(half_even(scaled) >= 0);
    let (whole, rest) = (decimal(n / t), last_digits(n, places));
    let s = fixed(x, places);
    law_decimal_is_read_back(n / t);
    law_last_digits_are_read_back(n, places);
    assert(s =~= whole + seq!['.'] + rest);
    lemma_until(s, '.', whole.len() as int);
    assert(s.take(whole.len() as int) =~= whole);
    assert(s.skip((whole.len() + 1) as int) =~= rest);
    let (a, b, tr) = ((n / t) as real, (n % t) as real, t as real);
    assert(n == (n / t) * t + n % t) by (nonlinear_arith)
        requires
            t > 0,
    ;
    lemma_real_product((n / t) as int, t as int);
    assert((a + b / tr) * tr == a * tr + b) by (nonlinear_arith)
        requires
            tr > 0 as real,
    ;
    let y = a + b / tr;
    assert(decimal_value(s) == y);
    assert((2 as real) * tr * (y - x) == (2 as real) * (y * tr - x * tr)) by (nonlinear_arith);
}

proof fn lemma_units()
    ensures
        two_to(0) == 1 as real,
        two_to(10) == 1024 as real,
        two_to(20) == (1024 * 1024) as real,
        two_to(30) == (1024 * 1024 * 1024) as real,
        two_to(40) == (1024 * 1024 * 1024 * 1024) as real,
        unit_text(0) == seq!['B'],
        unit_text(1) == seq!['K'],
        unit_text(2) == seq!['M'],
        unit_text(3) == seq!['G'],
        unit_text(4) == seq!['T'],
{
    reveal_with_fuel(two_to, 11);
    lemma_two_to_sum(10, 10);
    lemma_two_to_sum(20, 10);
    lemma_two_to_sum(30, 10);
    reveal_strlit("B");
    reveal_strlit("K");
    reveal_strlit("M");
    reveal_strlit("G");
    reveal_strlit("T");
    assert(unit_text(0) =~= seq!['B']);
    assert(unit_text(1) =~= seq!['K']);
    assert(unit_text(2) =~= seq!['M']);
    assert(unit_text(3) =~= seq!['G']);
    assert(unit_text(4) =~= seq!['T']);
}

/// What is written of any amount tells it: read back as a number in its unit, the text misses the
/// amount by at most half of the last digit printed, or, below 1024 bytes, by less than a byte.
pub proof fn law_human_tells_the_amount(d: Double)
    requires
        d.wf() && d is Finite,
    ensures
        tells(human_text(d), d.value()),
        d.value() >= 0 as real ==> !crate::reading::has_sign(human_text(d)),
{
    let (m, e) = (d->mantissa, d->exponent as int);
    let x = d.magnitude();
    let i = unit_of(x);
    lemma_units();
    lemma_two_to_positive(e);
    let (mr, t) = (m as real, two_to(e));
    assert(mr * t >= 0 as real && (mr > 0 as real ==> mr * t > 0 as real)) by (nonlinear_arith)
        requires
            mr >= 0 as real,
            t > 0 as real,
    ;
    assert(size(d.value()) == x);
    let text = human_text(d);
    reveal_strlit("-");
    assert("-"@ =~= seq!['-']);
    if i == 0 {
        let n = x.floor() as nat;
        let sign = minus(d.is_negative() && x >= 1 as real);
        law_decimal_is_read_back(n);
        lemma_number_whole(decimal(n));
        let body = text.drop_last();
        assert(body =~= sign + decimal(n));
        assert(without_sign(body) =~= decimal(n));
        assert(decimal(n).take(decimal(n).len() as int) =~= decimal(n));
        let v = signed_number(body);
        assert(v * (1 as real) == v) by (nonlinear_arith);
        assert(text.last() == 'B');
    } else {
        let u = two_to(10 * i);
        let y = x / u;
        lemma_two_to_positive(10 * i);
        assert(y >= 0 as real && y * u == x) by (nonlinear_arith)
            requires
                x >= 0 as real,
                u > 0 as real,
                y == x / u,
        ;
        lemma_fixed(y, 2);
        lemma_pow_100();
        let digits = fixed(y, 2);
        let body = text.drop_last();
        assert(body =~= minus(d.is_negative()) + digits);
        assert(without_sign(body) =~= digits);
        assert(text.last() == unit_text(i)[0]);
        assert(unit_worth(text.last()) as real == u);
        let v = decimal_value(digits);
        let g = v - y;
        assert((200 as real) * (v * u - x) <= u && -u <= (200 as real) * (v * u - x))
            by (nonlinear_arith)
            requires
                u > 0 as real,
                y * u == x,
                -(1 as real) <= (200 as real) * (v - y) <= 1 as real,
        ;
        assert((-v) * u == -(v * u)) by (nonlinear_arith);
    }
}

/// What is no finite amount is written as such: an infinite one as `inf` with its sign and the
/// largest unit, what is no number as nothing.
pub proof fn law_human_of_no_amount(d: Double)
    requires
        !(d is Finite),
    ensures
        human_text(d) == (if d is Nan {
            seq!['0', 'B']
        } else if d.is_negative() {
            seq!['-', 'i', 'n', 'f', 'T']
        } else {
            seq!['i', 'n', 'f', 'T']
        }),
{
    reveal_strlit("0B");
    reveal_strlit("infT");
    reveal_strlit("-");
    assert(human_text(d) =~= (if d is Nan {
        seq!['0', 'B']
    } else if d.is_negative() {
        seq!['-', 'i', 'n', 'f', 'T']
    } else {
        seq!['i', 'n', 'f', 'T']
    }));
}

/// What is written of a change tells it too, behind its sign: a minus exactly if it is below zero.
pub proof fn law_human_signed_tells_the_change(d: Double)
    requires
        d.wf() && d is Finite,
    ensures
        human_signed_text(d).len() > 0,
        human_signed_text(d)[0] == (if d.value() < 0 as real {
            '-'
        } else {
            '+'
        }),
        !crate::reading::has_sign(human_signed_text(d).skip(1)),
        tells(human_signed_text(d).skip(1), size(d.value())),
        tells(human_signed_text(d), d.value()),
{
    let bare = unsigned(d);
    law_human_tells_the_amount(bare);
    reveal_strlit("-");
    reveal_strlit("+");
    let text = human_signed_text(d);
    let rest = human_text(bare);
    let (mr, t) = (d->mantissa as real, two_to(d->exponent as int));
    lemma_two_to_positive(d->exponent as int);
    assert(mr * t >= 0 as real && (mr > 0 as real <==> mr * t > 0 as real)) by (nonlinear_arith)
        requires
            mr >= 0 as real,
            t > 0 as real,
    ;
    assert(text.skip(1) =~= rest);
    assert(bare.value() == size(d.value()));
    let body = text.drop_last();
    assert(body.skip(1) =~= rest.drop_last());
    assert(without_sign(body) == rest.drop_last());
    assert(text.last() == rest.last());
    let (v, u) = (decimal_value(rest.drop_last()), unit_worth(text.last()) as real);
    assert((-v) * u == -(v * u)) by (nonlinear_arith);
    if rest.len() > 1 {
        assert(rest.drop_last()[0] == rest[0]);
    }
    assert(without_sign(rest.drop_last()) == rest.drop_last());
}

/// What is written of an amount is one word.
pub(crate) proof fn lemma_human_is_a_word(d: Double)
    requires
        d.wf(),
    ensures
        is_word(human_text(d)),
        is_word(human_signed_text(d)),
{
    lemma_human_word(d);
    lemma_human_word(unsigned(d));
    reveal_strlit("-");
    reveal_strlit("+");
}

proof fn lemma_human_word(d: Double)
    requires
        d.wf(),
    ensures
        is_word(human_text(d)),
{
    lemma_units();
    reveal_strlit("-");
    if d is Finite {
        let x = d.magnitude();
        let i = unit_of(x);
        let (mr, t) = (d->mantissa as real, two_to(d->exponent as int));
        lemma_two_to_positive(d->exponent as int);
        assert(mr * t >= 0 as real) by (nonlinear_arith)
            requires
                mr >= 0 as real,
                t > 0 as real,
        ;
        if i == 0 {
            law_decimal_is_read_back(x.floor() as nat);
        } else {
            let u = two_to(10 * i);
            let y = x / u;
            lemma_two_to_positive(10 * i);
            let n = half_even(y * (ten_to(2) as real)) as nat;
            law_decimal_is_read_back(n / ten_to(2));
            law_last_digits_are_read_back(n, 2);
        }
    } else {
        law_human_of_no_amount(d);
    }
}

} // verus!
