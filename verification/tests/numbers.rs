use matrix_io::float64::Float64;

fn number(x: f64) -> Float64 {
    Float64 { bits: x.to_bits() }
}

fn native(x: Float64) -> f64 {
    f64::from_bits(x.bits)
}

/// A sequence of patterns, the same at every run.
struct Patterns {
    state: u64,
}

impl Patterns {
    fn next(&mut self) -> u64 {
        self.state = self.state.wrapping_mul(6364136223846793005).wrapping_add(1442695040888963407);
        let mut z = self.state;
        z = (z ^ (z >> 30)).wrapping_mul(0xbf58476d1ce4e5b9);
        z = (z ^ (z >> 27)).wrapping_mul(0x94d049bb133111eb);
        z ^ (z >> 31)
    }
}

/// Patterns of all kinds: any bits, numbers of ordinary size, and the edges.
fn samples() -> Vec<f64> {
    let mut p = Patterns { state: 2024 };
    let mut r = vec![
        0.0,
        -0.0,
        1.0,
        -1.0,
        0.5,
        0.1,
        0.3,
        1e-10,
        1e-6,
        12.5,
        250.0,
        f64::MAX,
        f64::MIN,
        f64::MIN_POSITIVE,
        5e-324,
        -5e-324,
        2.2250738585072011e-308,
        f64::INFINITY,
        f64::NEG_INFINITY,
        f64::NAN,
        4294967295.0,
        4294967296.0,
        2147483647.5,
        -2147483648.5,
        9007199254740993.0,
    ];
    for _ in 0..60 {
        r.push(f64::from_bits(p.next()));
    }
    for _ in 0..60 {
        let n = (p.next() % 2_000_000) as f64 - 1_000_000.0;
        let d = (p.next() % 1000 + 1) as f64;
        r.push(n / d);
    }
    for _ in 0..20 {
        // Close to the smallest and to the largest numbers.
        r.push(f64::from_bits(p.next() % 0x0020_0000_0000_0000));
        r.push(f64::from_bits(0x7fd0_0000_0000_0000 + p.next() % 0x0020_0000_0000_0000));
    }
    r
}

fn same(a: Float64, b: f64) -> bool {
    if b.is_nan() {
        a.is_nan()
    } else {
        a.bits == b.to_bits()
    }
}

#[test]
fn sums_and_differences_are_rounded_as_the_machine_rounds() {
    let s = samples();
    for &a in &s {
        for &b in &s {
            assert!(same(number(a).plus(number(b)), a + b), "{} + {}", a, b);
            assert!(same(number(a).minus(number(b)), a - b), "{} - {}", a, b);
        }
    }
}

#[test]
fn products_are_rounded_as_the_machine_rounds() {
    let s = samples();
    for &a in &s {
        for &b in &s {
            assert!(same(number(a).times(number(b)), a * b), "{} * {}", a, b);
        }
    }
}

#[test]
fn quotients_are_rounded_as_the_machine_rounds() {
    let s = samples();
    for &a in &s {
        for &b in &s {
            assert!(same(number(a).over(number(b)), a / b), "{} / {}", a, b);
        }
    }
}

#[test]
fn roots_are_rounded_as_the_machine_rounds() {
    for &a in &samples() {
        assert!(same(number(a).sqrt(), a.sqrt()), "root of {}", a);
    }
    assert_eq!(native(number(2.0).sqrt()), 1.4142135623730951);
}

#[test]
fn comparisons_agree_with_the_machine() {
    let s = samples();
    for &a in &s {
        for &b in &s {
            assert_eq!(number(a).lt(number(b)), a < b);
            assert_eq!(number(a).le(number(b)), a <= b);
            assert_eq!(number(a).equals(number(b)), a == b);
            let least = native(number(a).min(number(b)));
            let greatest = native(number(a).max(number(b)));
            assert!(least == a.min(b) || (least.is_nan() && a.min(b).is_nan()));
            assert!(greatest == a.max(b) || (greatest.is_nan() && a.max(b).is_nan()));
        }
    }
}

#[test]
fn signs_and_kinds_agree_with_the_machine() {
    for &a in &samples() {
        assert_eq!(number(a).is_nan(), a.is_nan());
        if !a.is_nan() {
            assert_eq!(number(a).neg().bits, (-a).to_bits());
            assert_eq!(number(a).abs().bits, a.abs().to_bits());
        }
    }
}

#[test]
fn conversions_to_integers_are_clipped_as_the_machine_clips() {
    for &a in &samples() {
        assert_eq!(number(a).floor_i32(), a.floor() as i32, "floor of {}", a);
        assert_eq!(number(a).ceil_i32(), a.ceil() as i32, "ceil of {}", a);
        assert_eq!(number(a).trunc_u32(), a as u32, "whole part of {}", a);
    }
    assert_eq!(number(-0.5).floor_i32(), -1);
    assert_eq!(number(-0.5).ceil_i32(), 0);
    assert_eq!(number(3.99).trunc_u32(), 3);
}

#[test]
fn conversions_from_integers_are_rounded_as_the_machine_rounds() {
    let mut p = Patterns { state: 7 };
    for _ in 0..2000 {
        let n = p.next() >> (p.next() % 64);
        assert_eq!(Float64::from_count(n).bits, (n as f64).to_bits());
        let m = n as i64;
        assert_eq!(Float64::from_whole(m).bits, (m as f64).to_bits());
        assert_eq!(Float64::from_whole(m.wrapping_neg()).bits, (m.wrapping_neg() as f64).to_bits());
    }
    assert_eq!(Float64::from_whole(i64::MIN).bits, (i64::MIN as f64).to_bits());
    assert_eq!(Float64::from_count(0).bits, 0);
}

#[test]
fn a_clamped_number_lies_in_the_range() {
    let least = number(0.15);
    let most = number(5.0);
    for &a in &samples() {
        assert!(same(number(a).clamp(least, most), a.clamp(0.15, 5.0)));
        if !a.is_nan() {
            assert!(least.le(number(a).clamp(least, most)));
            assert!(number(a).clamp(least, most).le(most));
        }
    }
}

#[test]
fn of_two_numbers_the_lower_has_no_more_whole_units() {
    let s = samples();
    for &a in &s {
        for &b in &s {
            if a <= b {
                assert!(number(a).trunc_u32() <= number(b).trunc_u32());
            }
        }
    }
}
