//! Encoding, parsing, field and persistence tests for ULIDs.

use core::str::FromStr;

use crpg_core::{CoreError, Ulid};
use serde_json::Value;

const TIMESTAMP_LIMIT: u64 = 1_u64 << 48;
const RANDOMNESS_LIMIT: u128 = 1_u128 << 80;
const KNOWN: &str = "01J8QK4W9YB6ZC3M0N7XKQ2R4A";

#[test]
fn from_parts_masks_overwide_fields() {
    let ulid = Ulid::from_parts(u64::MAX, u128::MAX);
    assert_eq!(ulid.timestamp_ms(), TIMESTAMP_LIMIT - 1);
    assert_eq!(ulid.randomness(), RANDOMNESS_LIMIT - 1);
    assert_eq!(ulid, Ulid::from_u128(u128::MAX));
}

#[test]
fn parsing_is_case_insensitive_and_accepts_aliases() {
    assert_eq!(
        KNOWN.parse::<Ulid>().unwrap(),
        KNOWN.to_ascii_lowercase().parse().unwrap()
    );
    assert_eq!(
        "0IL00000000000000000000000".parse::<Ulid>().unwrap(),
        "01100000000000000000000000".parse().unwrap(),
    );
}

#[test]
fn rejects_wrong_lengths_with_specific_errors() {
    for input in ["", "0000000000000000000000000", "000000000000000000000000000"] {
        let error = input.parse::<Ulid>().unwrap_err();
        assert!(matches!(error, CoreError::InvalidUlidLength { .. }));
        assert!(error.to_string().contains("length"));
    }
}

#[test]
fn rejects_invalid_characters_with_specific_errors() {
    for input in ["0000000000000U000000000000", "0000000000000-000000000000"] {
        let error = input.parse::<Ulid>().unwrap_err();
        assert!(matches!(error, CoreError::InvalidUlidCharacter { .. }));
        assert!(error.to_string().contains("character"));
    }
}

#[test]
fn rejects_values_wider_than_128_bits() {
    let error = "80000000000000000000000000".parse::<Ulid>().unwrap_err();
    assert!(matches!(error, CoreError::UlidOverflow));
    assert!(error.to_string().contains("overflow"));
}

#[test]
fn known_spec_vector_round_trips_exactly() {
    assert_eq!(KNOWN.parse::<Ulid>().unwrap().to_string(), KNOWN);
}

#[test]
fn ulid_serde_uses_a_string_and_round_trips() {
    // A ULID serializes as its canonical text.
    let ulid = KNOWN.parse::<Ulid>().unwrap();
    let json = serde_json::to_string(&Value::from(ulid.to_string())).unwrap();
    assert_eq!(json, format!("\"{KNOWN}\""));
    let value: Value = serde_json::from_str(&json).unwrap();
    assert_eq!(value.as_str().unwrap().parse::<Ulid>().unwrap(), ulid);
}

#[test]
fn string_round_trip_on_samples() {
    for value in [0u128, 1, 31, 32, u128::MAX, u128::MAX / 3, 1 << 127, 0x0123_4567_89ab_cdef] {
        let ulid = Ulid::from_u128(value);
        assert_eq!(Ulid::from_str(&ulid.to_string()).unwrap(), ulid);
        assert_eq!(ulid.to_u128(), value);
    }
}

#[test]
fn fields_round_trip_on_samples() {
    for (timestamp, randomness) in [(0u64, 0u128), (TIMESTAMP_LIMIT - 1, RANDOMNESS_LIMIT - 1), (12345, 678)] {
        let ulid = Ulid::from_parts(timestamp, randomness);
        assert_eq!(ulid.timestamp_ms(), timestamp);
        assert_eq!(ulid.randomness(), randomness);
    }
}

#[test]
fn integer_and_string_order_agree_on_samples() {
    let values = [0u128, 5, 1 << 64, u128::MAX, 77 << 90, 3];
    for &a in &values {
        for &b in &values {
            let (x, y) = (Ulid::from_u128(a), Ulid::from_u128(b));
            assert_eq!(x.cmp(&y), x.to_string().cmp(&y.to_string()));
        }
    }
}

#[test]
fn timestamps_order_ulids() {
    assert!(Ulid::from_parts(1, u128::MAX) < Ulid::from_parts(2, 0));
    assert!(Ulid::nil() < Ulid::from_parts(0, 1));
}

#[test]
fn error_messages_name_the_defect() {
    assert_eq!(
        "0".parse::<Ulid>().unwrap_err().to_string(),
        "invalid ULID length: expected 26 characters, got 1"
    );
    assert_eq!(
        "0000000000000U000000000000".parse::<Ulid>().unwrap_err().to_string(),
        "invalid ULID character 'U' at position 13"
    );
    assert_eq!(
        "80000000000000000000000000".parse::<Ulid>().unwrap_err().to_string(),
        "ULID overflow: first character must be between '0' and '7'"
    );
    assert_eq!(
        CoreError::InvalidFixedPoint.to_string(),
        "invalid fixed-point decimal: expected an exact value in the Fx16_16 range"
    );
    assert_eq!(
        CoreError::InvalidEntityId("x").to_string(),
        "invalid entity id: x"
    );
}

#[test]
fn case_does_not_matter_for_valid_text() {
    let mixed = "01j8Qk4w9Yb6zC3m0N7xKq2R4a";
    assert_eq!(mixed.parse::<Ulid>().unwrap(), KNOWN.parse::<Ulid>().unwrap());
    // An invalid letter is reported as written.
    assert_eq!(
        "0000000000000u000000000000".parse::<Ulid>().unwrap_err(),
        CoreError::InvalidUlidCharacter { character: 'u', index: 13 }
    );
}
