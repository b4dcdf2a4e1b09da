//! The crate-wide error type.
//!
//! Every fallible operation in the crate reports through [`CoreError`], so a
//! consumer matches one enum rather than a per-module family.

use crate::text::{decimal_digits, push_char, push_decimal, push_str};
use vstd::prelude::*;

verus! {

/// Everything that can go wrong inside this crate.
///
/// Deliberately small. Errors cover entity and arena loading and exact
/// fixed-point and ULID parsing at untrusted-input boundaries. Every other
/// entity operation reports absence with `Option` rather than an error,
/// because "this id is dead" is an ordinary outcome and not a failure.
#[derive(Debug, PartialEq, Eq, Clone)]
#[non_exhaustive]
pub enum CoreError {
    /// A serialized arena did not satisfy the arena's invariants and was
    /// rejected rather than loaded. The payload names the specific defect.
    CorruptArena(&'static str),
    /// A serialized entity id carried a generation no arena issues (0, or the
    /// `u32::MAX` retirement tombstone). The payload names the defect.
    InvalidEntityId(&'static str),
    /// A fixed-point decimal had invalid syntax, was outside the representable
    /// range, or could not be represented exactly with 16 fractional bits.
    InvalidFixedPoint,
    /// A ULID string did not contain exactly 26 characters.
    InvalidUlidLength {
        /// Number of characters in the rejected input.
        actual: usize,
    },
    /// A ULID string contained a character outside the Crockford alphabet.
    InvalidUlidCharacter {
        /// Rejected character.
        character: char,
        /// Zero-based character position.
        index: usize,
    },
    /// A 26-character ULID encoded a value wider than 128 bits.
    UlidOverflow,
}

/// `Result` specialised to [`CoreError`].
pub type Result<T> = core::result::Result<T, CoreError>;

/// The message that describes `e`.
pub open spec fn message(e: CoreError) -> Seq<char> {
    match e {
        CoreError::CorruptArena(defect) => "corrupt generational arena: "@ + defect@,
        CoreError::InvalidEntityId(defect) => "invalid entity id: "@ + defect@,
        CoreError::InvalidFixedPoint => "invalid fixed-point decimal: expected an exact value in the Fx16_16 range"@,
        CoreError::InvalidUlidLength { actual } => "invalid ULID length: expected 26 characters, got "@
            + decimal_digits(actual as nat),
        CoreError::InvalidUlidCharacter { character, index } => "invalid ULID character '"@.push(
            character,
        ) + "' at position "@ + decimal_digits(index as nat),
        CoreError::UlidOverflow => "ULID overflow: first character must be between '0' and '7'"@,
    }
}

impl CoreError {
    /// The human-readable message for this error.
    pub fn to_string(&self) -> (r: String)
        ensures
            r@ == message(*self),
    {
        let mut s = String::new();
        match self {
            CoreError::CorruptArena(defect) => {
                push_str(&mut s, "corrupt generational arena: ");
                push_str(&mut s, defect);
            },
            CoreError::InvalidEntityId(defect) => {
                push_str(&mut s, "invalid entity id: ");
                push_str(&mut s, defect);
            },
            CoreError::InvalidFixedPoint => {
                push_str(
                    &mut s,
                    "invalid fixed-point decimal: expected an exact value in the Fx16_16 range",
                );
            },
            CoreError::InvalidUlidLength { actual } => {
                push_str(&mut s, "invalid ULID length: expected 26 characters, got ");
                push_decimal(&mut s, *actual as u64);
            },
            CoreError::InvalidUlidCharacter { character, index } => {
                push_str(&mut s, "invalid ULID character '");
                push_char(&mut s, *character);
                push_str(&mut s, "' at position ");
                push_decimal(&mut s, *index as u64);
            },
            CoreError::UlidOverflow => {
                push_str(&mut s, "ULID overflow: first character must be between '0' and '7'");
            },
        }
        s
    }
}

} // verus!
