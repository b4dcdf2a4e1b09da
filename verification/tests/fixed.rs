//! Arithmetic, boundary and exact-representation tests for `Fx16_16`.

use crpg_core::{CoreError, Fx16_16 as Fx};

fn clamp(raw: i64) -> i32 {
    i32::try_from(raw.clamp(i64::from(i32::MIN), i64::from(i32::MAX))).unwrap()
}

/// A spread of raw values: the edges, small values and a stride through the
/// whole range.
fn sample_raws() -> Vec<i32> {
    let mut raws = vec![
        i32::MIN,
        i32::MIN + 1,
        -65537,
        -65536,
        -65535,
        -32768,
        -1,
        0,
        1,
        32768,
        65535,
        65536,
        65537,
        i32::MAX - 1,
        i32::MAX,
    ];
    let mut raw: i64 = i64::from(i32::MIN) + 12_345;
    while raw <= i64::from(i32::MAX) {
        raws.push(raw as i32);
        raw += 7_654_321;
    }
    raws
}

#[test]
fn constants_and_const_conversions() {
    let raw = Fx::from_raw(65536);
    let integer = Fx::from_int(1);
    let floor = Fx::from_raw(-1).to_int_floor();
    let saturated = Fx::from_int(i32::MAX);
    assert_eq!(Fx::FRAC_BITS, 16);
    assert_eq!(raw, Fx::one());
    assert_eq!(integer, Fx::one());
    assert_eq!(floor, -1);
    assert_eq!(saturated, Fx::max_value());
    assert_eq!(Fx::epsilon().to_raw(), 1);
    assert_eq!(Fx::default(), Fx::zero());
}

#[test]
fn saturation_and_checked_boundaries() {
    assert_eq!(Fx::max_value() + Fx::one(), Fx::max_value());
    assert_eq!(Fx::min_value() - Fx::one(), Fx::min_value());
    assert_eq!(Fx::min_value().abs(), Fx::max_value());
    assert_eq!(-Fx::min_value(), Fx::max_value());
    assert_eq!(Fx::max_value() * Fx::max_value(), Fx::max_value());
    assert_eq!(Fx::min_value() * Fx::max_value(), Fx::min_value());
    assert_eq!(Fx::min_value() / -Fx::one(), Fx::max_value());
    assert_eq!(Fx::from_int(i32::MIN), Fx::min_value());
    assert_eq!(Fx::from_int(32768), Fx::max_value());
    assert_eq!(Fx::from_int(-32769), Fx::min_value());
    assert_eq!(Fx::max_value().checked_add(Fx::one()), None);
    assert_eq!(Fx::min_value().checked_sub(Fx::epsilon()), None);
    assert_eq!(Fx::max_value().checked_mul(Fx::max_value()), None);
    assert_eq!(Fx::min_value().checked_div(-Fx::one()), None);
    assert_eq!(Fx::max_value().checked_add(Fx::zero()), Some(Fx::max_value()));
    assert_eq!(Fx::min_value().checked_sub(Fx::zero()), Some(Fx::min_value()));
    assert_eq!(Fx::min_value().checked_mul(Fx::one()), Some(Fx::min_value()));
    assert_eq!(Fx::min_value().checked_div(Fx::one()), Some(Fx::min_value()));
    assert_eq!(Fx::epsilon().checked_mul(-Fx::epsilon()), Some(-Fx::epsilon()));
}

#[test]
fn division_by_zero_is_total() {
    for (x, expected) in [
        (Fx::one(), Fx::max_value()),
        (-Fx::one(), Fx::min_value()),
        (Fx::zero(), Fx::zero()),
        (Fx::min_value(), Fx::min_value()),
        (Fx::max_value(), Fx::max_value()),
    ] {
        assert_eq!(x / Fx::zero(), expected);
        assert_eq!(x.checked_div(Fx::zero()), None);
        assert_eq!(Fx::from_ratio(x.to_raw(), 0), expected);
    }
}

#[test]
fn negative_divisors_floor_not_truncate_or_round_euclidean() {
    assert_eq!((Fx::from_int(7) / Fx::from_int(-2)).to_raw(), -229376);
    assert_eq!(Fx::epsilon() / Fx::from_int(-3), -Fx::epsilon());
    assert_eq!(Fx::epsilon().checked_div(Fx::from_int(-3)), Some(-Fx::epsilon()));
    assert_eq!(-Fx::epsilon() / Fx::from_int(3), -Fx::epsilon());
    assert_eq!(-Fx::epsilon() / Fx::from_int(-3), Fx::zero());
    assert_eq!(Fx::from_ratio(1, -3).to_raw(), -21846);
    assert_eq!(Fx::from_ratio(-1, -3).to_raw(), 21845);
    assert_eq!(7_i64.div_euclid(-2), -3); // Not the floor (-4).
}

#[test]
fn rounding_halves_and_range_edges() {
    for (text, floor, ceil, round) in [
        ("0", 0, 0, 0),
        ("1", 1, 1, 1),
        ("-1", -1, -1, -1),
        ("0.5", 0, 1, 1),
        ("-0.5", -1, 0, -1),
        ("1.5", 1, 2, 2),
        ("-1.5", -2, -1, -2),
        ("1.25", 1, 2, 1),
        ("-1.25", -2, -1, -1),
        ("1.75", 1, 2, 2),
        ("-1.75", -2, -1, -2),
    ] {
        let x: Fx = text.parse().unwrap();
        assert_eq!(x.floor(), Fx::from_int(floor), "{text}");
        assert_eq!(x.ceil(), Fx::from_int(ceil), "{text}");
        assert_eq!(x.round(), Fx::from_int(round), "{text}");
    }
    assert_eq!(Fx::max_value().floor(), Fx::from_int(32767));
    assert_eq!(Fx::max_value().ceil(), Fx::max_value());
    assert_eq!(Fx::max_value().round(), Fx::max_value());
    assert_eq!(Fx::min_value().floor(), Fx::min_value());
    assert_eq!(Fx::min_value().ceil(), Fx::min_value());
    assert_eq!(Fx::min_value().round(), Fx::min_value());
    assert_eq!(Fx::epsilon().floor(), Fx::zero());
    assert_eq!((-Fx::epsilon()).ceil(), Fx::zero());
}

#[test]
fn exact_decimal_shapes() {
    for (text, raw) in [
        ("1", 65536),
        ("-1", -65536),
        ("0", 0),
        ("0.5", 32768),
        ("-0.5", -32768),
        ("1.0000152587890625", 65537),
        ("0.0000152587890625", 1),
        ("-0.0000152587890625", -1),
        ("32767.9999847412109375", i32::MAX),
        ("-32768", i32::MIN),
    ] {
        let x = Fx::from_raw(raw);
        assert_eq!(x.to_string(), text);
        assert_eq!(text.parse::<Fx>(), Ok(x));
    }
    assert_eq!("-0".parse::<Fx>(), Ok(Fx::zero()));
    assert_eq!("1.5000".parse::<Fx>(), Ok(Fx::from_ratio(3, 2)));
    assert_eq!((-Fx::from_ratio(1, 2)).to_string_zero_padded(8), "-00000.5");
}

#[test]
fn parsing_rejects_invalid_inexact_and_out_of_range_input() {
    for text in [
        "0.1x",
        "",
        "1.00000000000000001",
        "32768",
        "-32769",
        "32767.9999847412109376",
        "-32768.0000152587890625",
        "0.1",
        "0.0000000000000001",
        "1e0",
        " 1",
        "1 ",
        "+1",
        ".5",
        "1.",
        "--1",
        "-",
        "1.2.3",
        "NaN",
        "inf",
        "99999999999999999999999999999",
    ] {
        assert_eq!(text.parse::<Fx>(), Err(CoreError::InvalidFixedPoint), "{text}");
    }
    assert!("9".repeat(10000).parse::<Fx>().is_err());
}

#[test]
fn sum_saturates_in_iterator_order() {
    assert_eq!(core::iter::empty::<Fx>().sum::<Fx>(), Fx::zero());
    assert_eq!([Fx::one(), Fx::one()].into_iter().sum::<Fx>(), Fx::from_int(2));
    assert_eq!(
        [Fx::max_value(), Fx::one(), -Fx::one()].into_iter().sum::<Fx>(),
        Fx::max_value() - Fx::one()
    );
    assert_eq!([Fx::min_value(), -Fx::one()].into_iter().sum::<Fx>(), Fx::min_value());
}

#[test]
fn serde_is_a_raw_integer_not_a_decimal() {
    // The serialized form of a value is its raw `i32`.
    assert_eq!(serde_json::to_string(&Fx::one().to_raw()).unwrap(), "65536");
    for json in ["\"1\"", "1.5", "2147483648", "-2147483649", "null"] {
        assert!(serde_json::from_str::<i32>(json).map(Fx::from_raw).is_err());
    }
}

#[test]
fn arithmetic_matches_wide_integers_on_samples() {
    let raws = sample_raws();
    for &a in raws.iter().step_by(3) {
        for &b in raws.iter().step_by(5) {
            let x = Fx::from_raw(a);
            let y = Fx::from_raw(b);
            let (a, b) = (i64::from(a), i64::from(b));
            assert_eq!((x + y).to_raw(), clamp(a + b));
            assert_eq!((x - y).to_raw(), clamp(a - b));
            assert_eq!((x * y).to_raw(), clamp((a * b) >> 16));
            assert_eq!((-x).to_raw(), clamp(-a));
            assert_eq!(x.abs().to_raw(), clamp(a.abs()));
            assert_eq!(x.checked_add(y), i32::try_from(a + b).ok().map(Fx::from_raw));
            assert_eq!(x.checked_mul(y), i32::try_from((a * b) >> 16).ok().map(Fx::from_raw));
            if b != 0 {
                let n = a << 16;
                let mut q = n / b;
                if n % b != 0 && (n < 0) != (b < 0) {
                    q -= 1;
                }
                assert_eq!((x / y).to_raw(), clamp(q));
                assert_eq!(x.checked_div(y), i32::try_from(q).ok().map(Fx::from_raw));
            }
            assert_eq!(x + y, y + x);
            assert_eq!(x * y, y * x);
        }
    }
}

#[test]
fn identities_hold_on_samples() {
    for raw in sample_raws() {
        let x = Fx::from_raw(raw);
        assert_eq!(x + Fx::zero(), x);
        assert_eq!(x * Fx::one(), x);
        assert_eq!(x / Fx::one(), x);
        assert_eq!(x - x, Fx::zero());
    }
}

#[test]
fn integers_round_trip_at_the_edges() {
    for integer in [-32768, -32767, -1, 0, 1, 12345, 32766, 32767] {
        assert_eq!(Fx::from_int(integer).to_int_floor(), integer);
    }
}

#[test]
fn decimals_round_trip_on_samples() {
    for raw in sample_raws() {
        let x = Fx::from_raw(raw);
        let text = x.to_string();
        assert_eq!(text.parse::<Fx>(), Ok(x), "{text}");
        if text.contains('.') {
            assert!(!text.ends_with('0'), "{text}");
        }
    }
}

#[test]
fn rounding_and_signs_match_integer_definitions_on_samples() {
    for raw in sample_raws() {
        let x = Fx::from_raw(raw);
        let n = i64::from(raw);
        let floor = n - n.rem_euclid(65536);
        let ceil = if n == floor { n } else { floor + 65536 };
        let rounded = ((n.abs() + 32768) / 65536) * 65536 * n.signum();
        assert_eq!(x.floor().to_raw(), clamp(floor));
        assert_eq!(x.ceil().to_raw(), clamp(ceil));
        assert_eq!(x.round().to_raw(), clamp(rounded));
        assert_eq!(x.to_int_floor(), i32::try_from(floor / 65536).unwrap());
        assert_eq!(x.signum(), raw.signum());
        assert_eq!(x.is_negative(), raw < 0);
        assert_eq!(x.is_positive(), raw > 0);
    }
}

#[test]
fn assignment_operators_match_operators() {
    let x = Fx::from_raw(123_456);
    let y = Fx::from_raw(-78_901);
    let mut result = x;
    result += y;
    assert_eq!(result, x + y);
    result = x;
    result -= y;
    assert_eq!(result, x - y);
    result = x;
    result *= y;
    assert_eq!(result, x * y);
    result = x;
    result /= y;
    assert_eq!(result, x / y);
}

#[test]
fn zero_padding_goes_after_the_sign() {
    assert_eq!(Fx::from_int(3).to_string_zero_padded(4), "0003");
    assert_eq!(Fx::from_int(-3).to_string_zero_padded(4), "-003");
    assert_eq!(Fx::from_ratio(1, 4).to_string_zero_padded(2), "0.25");
    assert_eq!(Fx::from_int(-12).to_string_zero_padded(0), "-12");
}

#[test]
fn saturating_neg_and_ordering_follow_the_raw_value() {
    assert_eq!(Fx::min_value().saturating_neg(), Fx::max_value());
    assert_eq!(Fx::one().saturating_neg(), -Fx::one());
    assert!(Fx::from_raw(-5) < Fx::from_raw(3));
    assert!(Fx::max_value() > Fx::min_value());
}
