//! Doubles, shares of swap, and amounts as people read them.

use macswapi::double::Double;
use macswapi::human::{human, human_signed};
use macswapi::rate::{elapsed_seconds, growth_of, rate};
use macswapi::share::{
    bytes_share, checked_sum, estimate_total, swap_estimates_available, swap_share,
};

fn double(x: f64) -> Double {
    Double::from_bits(x.to_bits())
}

fn value(d: Double) -> f64 {
    match d {
        Double::Nan => f64::NAN,
        Double::Infinite { negative } => {
            if negative {
                f64::NEG_INFINITY
            } else {
                f64::INFINITY
            }
        }
        Double::Finite { negative, mantissa, exponent } => {
            let x = mantissa as f64 * 2f64.powi(exponent / 2) * 2f64.powi(exponent - exponent / 2);
            if negative {
                -x
            } else {
                x
            }
        }
    }
}

/// The text that the arithmetic of the machine gives.
fn expected(bytes: f64) -> String {
    let units = ["B", "K", "M", "G", "T"];
    let mut v = bytes;
    let mut i = 0;
    while v.abs() >= 1024.0 && i < units.len() - 1 {
        v /= 1024.0;
        i += 1;
    }
    if i == 0 {
        format!("{}{}", v as i64, units[i])
    } else {
        format!("{:.2}{}", v, units[i])
    }
}

/// Numbers spread over all sizes, the same in each run.
fn spread(count: u64) -> Vec<u64> {
    let mut state = 0x9E37_79B9_7F4A_7C15u64;
    let mut out = vec![];
    for i in 0..count {
        state ^= state << 13;
        state ^= state >> 7;
        state ^= state << 17;
        out.push(state >> (i % 64));
    }
    out
}

#[test]
fn test_human() {
    assert_eq!(human(double(0.0)), "0B");
    assert_eq!(human(double(1024.0)), "1.00K");
    assert_eq!(human(double(1048576.0)), "1.00M");
    assert_eq!(human(double(1073741824.0)), "1.00G");
    assert_eq!(human(double(8_978_432.0)), "8.56M");
}

#[test]
fn test_human_signed() {
    assert_eq!(human_signed(double(0.0)), "+0B");
    assert_eq!(human_signed(double(1024.0)), "+1.00K");
    assert_eq!(human_signed(double(-1048576.0)), "-1.00M");
}

#[test]
fn test_swap_share() {
    let share = |c: f64, t: f64, s: f64| swap_share(double(c), double(t), double(s));
    assert_eq!(share(50.0, 0.0, 1000.0), double(0.0)); // zero total
    assert_eq!(share(50.0, 100.0, 1000.0), double(500.0)); // proportional
    assert_eq!(share(50.0, 100.0, 0.0), double(0.0)); // zero swap
}

#[test]
fn test_swap_estimates_available_requires_total_and_denominator() {
    assert!(!swap_estimates_available(None, 100));
    assert!(!swap_estimates_available(Some(1000), 0));
    assert!(swap_estimates_available(Some(1000), 1));
}

#[test]
fn test_conservation() {
    let compressed = [10u64, 25, 3, 100, 7, 512, 64, 1];
    let total: u64 = compressed.iter().sum();
    let swap = 4_294_967_296.0f64; // 4G
    let sum: f64 = compressed
        .iter()
        .map(|&c| value(swap_share(double(c as f64), double(total as f64), double(swap))))
        .sum();
    assert!((sum - swap).abs() < 1e-3, "sum={sum} swap={swap}");
    let added = estimate_total(&compressed.to_vec(), total, 4_294_967_296);
    assert_eq!(added, double(sum));
}

#[test]
fn doubles_are_read_from_their_bits() {
    let normal = Double::Finite {
        negative: true,
        mantissa: 0x18_0000_0000_0000,
        exponent: -52,
    };
    assert_eq!(double(-1.5), normal);
    let least = Double::Finite { negative: false, mantissa: 1, exponent: -1074 };
    assert_eq!(double(5e-324), least);
    assert_eq!(double(f64::INFINITY), Double::Infinite { negative: false });
    assert_eq!(double(f64::NEG_INFINITY), Double::Infinite { negative: true });
    assert_eq!(double(f64::NAN), Double::Nan);
    assert_eq!(double(0.0), Double::zero());
}

#[test]
fn integers_are_rounded_as_the_machine_does() {
    assert_eq!(Double::from_u64(0), Double::zero());
    for n in [1, 3, 1 << 53, (1 << 53) + 1, (1 << 53) + 3, u64::MAX, u64::MAX - 1024] {
        assert_eq!(Double::from_u64(n), double(n as f64), "{n}");
    }
    for n in spread(4000) {
        assert_eq!(Double::from_u64(n), double(n as f64), "{n}");
    }
}

#[test]
fn shares_are_those_of_the_machine() {
    let numbers = spread(3000);
    for w in numbers.windows(3) {
        let (c, t, s) = (w[0], w[1], w[2]);
        let machine = if t == 0 {
            0.0
        } else {
            s as f64 * (c as f64 / t as f64)
        };
        assert_eq!(bytes_share(c, t, s), double(machine), "{c} {t} {s}");
    }
}

fn machine_share(c: f64, t: f64, s: f64) -> f64 {
    if t == 0.0 {
        0.0
    } else {
        s * (c / t)
    }
}

#[test]
fn shares_of_any_doubles_are_those_of_the_machine() {
    let special = [
        0.0,
        -0.0,
        1.0,
        -1.5,
        5e-324,
        -5e-324,
        3e-323,
        2.2250738585072009e-308,
        f64::MIN_POSITIVE,
        1.0000000000000002,
        1e-200,
        1e200,
        f64::MAX,
        -f64::MAX,
        f64::INFINITY,
        f64::NEG_INFINITY,
        f64::NAN,
    ];
    for c in special {
        for t in special {
            for s in special {
                let share = swap_share(double(c), double(t), double(s));
                assert_eq!(share, double(machine_share(c, t, s)), "{c:e} {t:e} {s:e}");
            }
        }
    }
    for w in spread(6000).windows(3) {
        let (c, t, s) = (f64::from_bits(w[0]), f64::from_bits(w[1]), f64::from_bits(w[2]));
        let share = swap_share(double(c), double(t), double(s));
        assert_eq!(share, double(machine_share(c, t, s)), "{c:e} {t:e} {s:e}");
    }
}

#[test]
fn tiny_shares_are_rounded_next_to_zero() {
    // Exponents around the point where doubles lose significant bits.
    for (i, w) in spread(3000).windows(2).enumerate() {
        let c = f64::from_bits((w[0] >> 12) | ((1 + i as u64 % 120) << 52));
        let t = f64::from_bits((w[1] >> 12) | (1023 << 52));
        let s = f64::from_bits(((1023 - 60 + i as u64 % 61) << 52) | (w[0] >> 13));
        let share = swap_share(double(c), double(t), double(s));
        assert_eq!(share, double(machine_share(c, t, s)), "{c:e} {t:e} {s:e}");
    }
    // A tie between zero and the smallest double goes to zero, and one above it does not.
    let least = 5e-324f64;
    assert_eq!(swap_share(double(least), double(2.0), double(1.0)), double(0.0));
    assert_eq!(swap_share(double(3.0 * least), double(2.0), double(1.0)), double(2.0 * least));
    assert_eq!(swap_share(double(1e308), double(1e-10), double(1.0)), double(f64::INFINITY));
}

#[test]
fn all_memory_gets_all_swap() {
    for t in [5e-324, 0.1, 3.0, 1e300, f64::MAX] {
        for s in [0.0, 5e-324, 0.1, 7.0, f64::MAX] {
            assert_eq!(swap_share(double(t), double(t), double(s)), double(s));
            let third = swap_share(double(t / 3.0), double(t), double(s));
            let half = swap_share(double(t / 2.0), double(t), double(s));
            assert!(0.0 <= value(third) && value(third) <= value(half) && value(half) <= s);
        }
    }
    assert_eq!(bytes_share(u64::MAX, u64::MAX, u64::MAX), double(u64::MAX as f64));
}

#[test]
fn sums_of_shares_are_those_of_the_machine() {
    let compressed: Vec<u64> = spread(500).iter().map(|n| n >> 12).collect();
    let total: u64 = compressed.iter().sum();
    assert_eq!(checked_sum(&compressed), Some(total));
    for swap in [0u64, 1, 12345, 1 << 34, u64::MAX] {
        let mut sum = 0.0f64;
        for &c in &compressed {
            sum += swap as f64 * (c as f64 / total as f64);
        }
        assert_eq!(estimate_total(&compressed, total, swap), double(sum));
        let slack = swap as f64 * 505.0 / 2f64.powi(52);
        assert!((sum - swap as f64).abs() <= slack);
    }
}

#[test]
fn larger_memory_gets_no_smaller_share() {
    let mut last = 0.0;
    for c in 0..2000u64 {
        let share = value(bytes_share(c, 1999, 987_654_321));
        assert!(share >= last && share <= 987_654_321.0);
        last = share;
    }
    assert_eq!(last, 987_654_321.0);
}

#[test]
fn sums_out_of_range_are_refused() {
    assert_eq!(checked_sum(&vec![]), Some(0));
    assert_eq!(checked_sum(&vec![u64::MAX, 0]), Some(u64::MAX));
    assert_eq!(checked_sum(&vec![u64::MAX, 1]), None);
    assert_eq!(checked_sum(&vec![1, u64::MAX, 5]), None);
}

#[test]
fn amounts_are_written_as_the_machine_writes_them() {
    for n in spread(4000) {
        assert_eq!(human(double(n as f64)), expected(n as f64), "{n}");
    }
    for n in spread(4000) {
        let x = f64::from_bits(n);
        assert_eq!(human(double(x)), expected(x), "{x}");
        let y = -(n as f64) / 1000.0;
        assert_eq!(human(double(y)), expected(y), "{y}");
    }
    for x in [
        -0.0,
        0.5,
        -0.5,
        -1.0,
        1023.0,
        1023.999,
        1024.0 * 1.005,
        1024.0 * 1.125,
        1024.0 * 2.375,
        1024.0 * 1024.0 - 0.5,
        1048575.0,
        1e300,
        -1e300,
        f64::MAX,
        f64::MIN_POSITIVE,
        f64::INFINITY,
        f64::NEG_INFINITY,
        f64::NAN,
    ] {
        assert_eq!(human(double(x)), expected(x), "{x}");
    }
}

#[test]
fn ties_go_to_the_even_digit() {
    assert_eq!(human(double(1024.0 * 1.125)), "1.12K");
    assert_eq!(human(double(1024.0 * 1.375)), "1.38K");
    assert_eq!(human(double(1023.9)), "1023B");
    assert_eq!(human(double(f64::INFINITY)), "infT");
    assert_eq!(human(double(f64::NAN)), "0B");
    assert_eq!(human_signed(double(f64::NEG_INFINITY)), "-infT");
    assert_eq!(human_signed(double(-0.0)), "+0B");
    assert_eq!(human_signed(double(-0.25)), "-0B");
}

#[test]
fn growth_and_rate_are_those_of_the_machine() {
    let seconds = [1.0, 3.000_123, 0.001, 1e-9, 59.9, 1e6];
    for w in spread(3000).windows(2) {
        let delta = w[0] as i128 - w[1] as i128;
        assert_eq!(growth_of(delta), double(delta as f64));
        for s in seconds {
            let elapsed = elapsed_seconds(f64::to_bits(s)).unwrap();
            assert_eq!(rate(delta, elapsed), double(delta as f64 / s), "{delta} {s}");
        }
    }
}

#[test]
fn elapsed_time_has_bounds() {
    let shortest = double(1e-9);
    for x in [0.0, -1.0, 1e-10, f64::NAN, f64::NEG_INFINITY, 5e-324, 1e-9] {
        assert_eq!(elapsed_seconds(x.to_bits()), Some(shortest));
    }
    for x in [1.1e-9f64, 0.5, 3.0, 1e19] {
        assert_eq!(elapsed_seconds(x.to_bits()), Some(double(x)));
    }
    for x in [1e20, f64::MAX, f64::INFINITY] {
        assert_eq!(elapsed_seconds(x.to_bits()), None);
    }
}
