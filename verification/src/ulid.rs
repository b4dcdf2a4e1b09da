//! Authored-object identity in ULID form.
//!
//! A ULID is a 128-bit value: a 48-bit millisecond timestamp above 80 bits of
//! randomness. Its text form is 26 characters of Crockford base32, most
//! significant first, so text order and numeric order agree.

use vstd::prelude::*;

use crate::error::CoreError;
use crate::text::push_char;

verus! {

/// `2^80`, the weight of the lowest timestamp bit.
pub open spec fn timestamp_unit() -> nat {
    0x1_0000_0000_0000_0000_0000
}

/// `2^48`, one past the largest timestamp.
pub open spec fn timestamp_limit() -> nat {
    0x1_0000_0000_0000
}

/// `32^k`.
pub open spec fn pow32(k: nat) -> nat
    decreases k,
{
    if k == 0 {
        1
    } else {
        32 * pow32((k - 1) as nat)
    }
}

/// The Crockford base32 character for the digit `d` (0 to 31): the digits
/// and upper-case letters, leaving out `I`, `L`, `O` and `U`.
pub open spec fn encode_digit(d: nat) -> char {
    if d < 10 {
        ((48 + d) as u32) as char
    } else if d < 18 {
        ((65 + d - 10) as u32) as char
    } else if d < 20 {
        ((74 + d - 18) as u32) as char
    } else if d < 22 {
        ((77 + d - 20) as u32) as char
    } else if d < 27 {
        ((80 + d - 22) as u32) as char
    } else {
        ((86 + d - 27) as u32) as char
    }
}

/// The ASCII upper-case form of `c`; other characters are unchanged.
pub open spec fn ascii_upper(c: char) -> char {
    if 'a' <= c <= 'z' {
        ((c as u32) - 32) as char
    } else {
        c
    }
}

/// The digit a character decodes to, case-insensitively, with `O` read as 0
/// and `I` and `L` read as 1; `None` for a character outside the alphabet.
pub open spec fn decode_digit(c: char) -> Option<nat> {
    let u = ascii_upper(c);
    if u == 'O' {
        Some(0)
    } else if u == 'I' || u == 'L' {
        Some(1)
    } else if '0' <= u <= '9' {
        Some((u as nat - 48) as nat)
    } else if 'A' <= u <= 'H' {
        Some((u as nat - 65 + 10) as nat)
    } else if 'J' <= u <= 'K' {
        Some((u as nat - 74 + 18) as nat)
    } else if 'M' <= u <= 'N' {
        Some((u as nat - 77 + 20) as nat)
    } else if 'P' <= u <= 'T' {
        Some((u as nat - 80 + 22) as nat)
    } else if 'V' <= u <= 'Z' {
        Some((u as nat - 86 + 27) as nat)
    } else {
        None
    }
}

/// The 26-character text of the value `v`: base32 digit `i` is
/// `(v / 32^(25 - i)) % 32`.
pub open spec fn ulid_text(v: nat) -> Seq<char> {
    Seq::new(26, |i: int| encode_digit((v / pow32((25 - i) as nat)) % 32))
}

/// The value of the first `n` characters of `s` read as base32 digits, for
/// characters that all decode.
pub open spec fn base32_value(s: Seq<char>, n: nat) -> nat
    decreases n,
{
    if n == 0 {
        0
    } else {
        base32_value(s, (n - 1) as nat) * 32 + decode_digit(s[n - 1]).unwrap_or(0)
    }
}

/// The index of the first character of `s` at or after `i` that does not
/// decode, if any.
pub open spec fn first_invalid(s: Seq<char>, i: int) -> Option<int>
    decreases s.len() - i,
{
    if i < 0 || i >= s.len() {
        None
    } else if decode_digit(s[i]) is None {
        Some(i)
    } else {
        first_invalid(s, i + 1)
    }
}

/// What parsing the characters `s` gives: the value of 26 base32 digits, or
/// the error for a wrong length, for the first character outside the
/// alphabet, or for a value wider than 128 bits (a first digit above 7, found
/// as soon as the first character is read).
pub open spec fn ulid_parse(s: Seq<char>) -> Result<nat, CoreError> {
    if s.len() != 26 {
        Err(CoreError::InvalidUlidLength { actual: s.len() as usize })
    } else if decode_digit(s[0]) is None {
        Err(CoreError::InvalidUlidCharacter { character: s[0], index: 0 })
    } else if decode_digit(s[0]).unwrap() > 7 {
        Err(CoreError::UlidOverflow)
    } else {
        match first_invalid(s, 1) {
            Some(i) => Err(CoreError::InvalidUlidCharacter { character: s[i], index: i as usize }),
            None => Ok(base32_value(s, 26)),
        }
    }
}

/// A lexicographically sortable 128-bit identifier for an authored object.
///
/// The high 48 bits contain a millisecond timestamp and the low 80 bits
/// contain caller-supplied randomness. This crate generates neither.
#[derive(Debug, Clone, Copy, PartialEq, Eq, PartialOrd, Ord, Hash, Structural)]
pub struct Ulid(u128);

impl View for Ulid {
    type V = nat;

    closed spec fn view(&self) -> nat {
        self.0 as nat
    }
}

/// The character for the base32 digit `d`.
fn encode(d: u8) -> (c: char)
    requires
        d < 32,
    ensures
        c == encode_digit(d as nat),
{
    let code: u8 = if d < 10 {
        48 + d
    } else if d < 18 {
        65 + d - 10
    } else if d < 20 {
        74 + d - 18
    } else if d < 22 {
        77 + d - 20
    } else if d < 27 {
        80 + d - 22
    } else {
        86 + d - 27
    };
    code as char
}

/// The base32 digit a character stands for, case-insensitively.
fn decode(character: char) -> (r: Option<u8>)
    ensures
        r matches Some(d) ==> decode_digit(character) == Some(d as nat) && d < 32,
        r is None ==> decode_digit(character) is None,
{
    let u = if 'a' <= character && character <= 'z' {
        ((character as u32) - 32) as u8 as char
    } else {
        character
    };
    assert(u == ascii_upper(character));
    if u == 'O' {
        Some(0)
    } else if u == 'I' || u == 'L' {
        Some(1)
    } else if '0' <= u && u <= '9' {
        Some((u as u32 - 48) as u8)
    } else if 'A' <= u && u <= 'H' {
        Some((u as u32 - 65 + 10) as u8)
    } else if 'J' <= u && u <= 'K' {
        Some((u as u32 - 74 + 18) as u8)
    } else if 'M' <= u && u <= 'N' {
        Some((u as u32 - 77 + 20) as u8)
    } else if 'P' <= u && u <= 'T' {
        Some((u as u32 - 80 + 22) as u8)
    } else if 'V' <= u && u <= 'Z' {
        Some((u as u32 - 86 + 27) as u8)
    } else {
        None
    }
}

impl Ulid {
    /// The all-zero identifier.
    pub fn nil() -> (r: Self)
        ensures
            r@ == 0,
    {
        Ulid(0)
    }

    /// Constructs an identifier from a timestamp and randomness.
    ///
    /// The timestamp is masked to its low 48 bits and the randomness to its
    /// low 80 bits. The caller supplies both.
    pub fn from_parts(timestamp_ms: u64, randomness: u128) -> (r: Self)
        ensures
            r@ == (timestamp_ms as nat % timestamp_limit()) * timestamp_unit() + randomness as nat
                % timestamp_unit(),
    {
        let t = (timestamp_ms & 0xffff_ffff_ffff) as u128;
        let low = randomness & 0xffff_ffff_ffff_ffff_ffff;
        let v = (t << 80u32) | low;
        assert(t == timestamp_ms % 0x1_0000_0000_0000) by (bit_vector)
            requires
                t == (timestamp_ms & 0xffff_ffff_ffff) as u128,
        ;
        assert(low == randomness % 0x1_0000_0000_0000_0000_0000) by (bit_vector)
            requires
                low == randomness & 0xffff_ffff_ffff_ffff_ffff,
        ;
        assert(v == t * 0x1_0000_0000_0000_0000_0000 + low) by (bit_vector)
            requires
                t < 0x1_0000_0000_0000,
                low < 0x1_0000_0000_0000_0000_0000,
                v == (t << 80u32) | low,
        ;
        Ulid(v)
    }

    /// Constructs an identifier from its complete integer representation.
    pub fn from_u128(v: u128) -> (r: Self)
        ensures
            r@ == v,
    {
        Ulid(v)
    }

    /// Returns the complete integer representation.
    pub fn to_u128(self) -> (r: u128)
        ensures
            r == self@,
    {
        self.0
    }

    /// Returns the low 48 bits of the timestamp field.
    pub fn timestamp_ms(self) -> (r: u64)
        ensures
            r == self@ / timestamp_unit(),
    {
        let v = self.0;
        assert((v >> 80u32) == v / 0x1_0000_0000_0000_0000_0000) by (bit_vector);
        assert((v >> 80u32) < 0x1_0000_0000_0000) by (bit_vector);
        (v >> 80u32) as u64
    }

    /// Returns the low 80-bit randomness field.
    pub fn randomness(self) -> (r: u128)
        ensures
            r == self@ % timestamp_unit(),
    {
        let v = self.0;
        assert((v & 0xffff_ffff_ffff_ffff_ffff) == v % 0x1_0000_0000_0000_0000_0000) by (bit_vector);
        v & 0xffff_ffff_ffff_ffff_ffff
    }

    /// The 26-character Crockford base32 text of this identifier, most
    /// significant digit first.
    pub fn to_string(&self) -> (r: String)
        ensures
            r@ == ulid_text(self@),
    {
        let v = self.0;
        let mut chars: Vec<char> = vec!['0'; 26];
        let mut value = v;
        let mut k: usize = 0;
        assert(pow32(0) == 1);
        while k < 26
            invariant
                chars@.len() == 26,
                k <= 26,
                value as nat == (v as nat) / pow32(k as nat),
                forall|i: int|
                    26 - k <= i < 26 ==> #[trigger] chars@[i] == ulid_text(v as nat)[i],
            decreases 26 - k,
        {
            assert((value & 0x1f) == value % 32) by (bit_vector);
            assert((value & 0x1f) < 32) by (bit_vector);
            let d = (value & 0x1f) as u8;
            assert((value >> 5u32) == value / 32) by (bit_vector);
            proof {
                lemma_pow32_positive(k as nat);
                vstd::arithmetic::div_mod::lemma_div_denominator(v as int, pow32(k as nat) as int, 32);
                assert(pow32((k + 1) as nat) == pow32(k as nat) * 32) by (nonlinear_arith)
                    requires
                        pow32((k + 1) as nat) == 32 * pow32(k as nat),
                ;
            }
            chars.set(25 - k, encode(d));
            value = value >> 5u32;
            k = k + 1;
        }
        let mut text = String::new();
        let mut i: usize = 0;
        while i < 26
            invariant
                chars@.len() == 26,
                i <= 26,
                forall|j: int| 0 <= j < 26 ==> #[trigger] chars@[j] == ulid_text(v as nat)[j],
                text@ == ulid_text(v as nat).take(i as int),
            decreases 26 - i,
        {
            push_char(&mut text, chars[i]);
            proof {
                assert(ulid_text(v as nat).take(i + 1) =~= ulid_text(v as nat).take(i as int).push(
                    chars@[i as int],
                ));
            }
            i = i + 1;
        }
        proof {
            assert(ulid_text(v as nat).take(26) =~= ulid_text(v as nat));
        }
        text
    }

    /// Parses the 26-character Crockford base32 text of an identifier.
    ///
    /// Parsing is case-insensitive and reads `O` as 0 and `I` and `L` as 1.
    /// A wrong length, a character outside the alphabet, and a value wider
    /// than 128 bits are each reported with their own error.
    pub fn parse(input: &str) -> (r: Result<Ulid, CoreError>)
        ensures
            ulid_parse(input@) matches Ok(v) ==> (r matches Ok(u) && u@ == v),
            ulid_parse(input@) matches Err(e) ==> r == Err::<Ulid, CoreError>(e),
    {
        let actual = input.unicode_len();
        if actual != 26 {
            return Err(CoreError::InvalidUlidLength { actual });
        }
        let ghost s = input@;
        let mut value: u128 = 0;
        let mut index: usize = 0;
        while index < 26
            invariant
                s == input@,
                s.len() == 26,
                index <= 26,
                value as nat == base32_value(s, index as nat),
                index >= 1 ==> (decode_digit(s[0]) matches Some(d) && d <= 7),
                index >= 1 ==> value < 8 * pow32((index - 1) as nat),
                forall|j: int| 0 <= j < index ==> (#[trigger] decode_digit(s[j])) is Some,
            decreases 26 - index,
        {
            let character = input.get_char(index);
            let digit = match decode(character) {
                Some(d) => d,
                None => {
                    proof {
                        if index >= 1 {
                            lemma_first_invalid_skip(s, 1, index as int);
                        }
                    }
                    return Err(CoreError::InvalidUlidCharacter { character, index });
                },
            };
            if index == 0 && digit > 7 {
                return Err(CoreError::UlidOverflow);
            }
            proof {
                lemma_pow32_positive(index as nat);
                if index >= 1 {
                    assert(pow32(index as nat) == 32 * pow32((index - 1) as nat));
                    lemma_pow32_fits(index as nat);
                }
            }
            value = value * 32 + digit as u128;
            index = index + 1;
        }
        proof {
            lemma_first_invalid_skip(s, 1, 26);
        }
        Ok(Ulid(value))
    }
}

/// `32^k` is positive.
proof fn lemma_pow32_positive(k: nat)
    ensures
        pow32(k) > 0,
    decreases k,
{
    if k > 0 {
        lemma_pow32_positive((k - 1) as nat);
    }
}

/// `8 * 32^25` is `2^128`, and smaller powers stay below it.
proof fn lemma_pow32_fits(k: nat)
    requires
        k <= 25,
    ensures
        8 * pow32(k) <= u128::MAX as nat + 1,
        k == 25 ==> 8 * pow32(k) == u128::MAX as nat + 1,
    decreases 25 - k,
{
    if k == 25 {
        reveal_with_fuel(pow32, 26);
        assert(pow32(25) == 42535295865117307932921825928971026432nat);
    } else {
        lemma_pow32_fits(k + 1);
        lemma_pow32_positive(k);
    }
}

/// When every character from `i` up to `k` decodes, the first invalid
/// character at or after `i` is the first one at or after `k`.
proof fn lemma_first_invalid_skip(s: Seq<char>, i: int, k: int)
    requires
        0 <= i <= k <= s.len(),
        forall|j: int| i <= j < k ==> (#[trigger] decode_digit(s[j])) is Some,
    ensures
        first_invalid(s, i) == first_invalid(s, k),
    decreases k - i,
{
    if i < k {
        lemma_first_invalid_skip(s, i + 1, k);
    }
}


impl core::str::FromStr for Ulid {
    type Err = CoreError;

    /// Parses as [`Ulid::parse`] does.
    fn from_str(input: &str) -> (r: Result<Self, Self::Err>)
        ensures
            ulid_parse(input@) matches Ok(v) ==> (r matches Ok(u) && u@ == v),
            ulid_parse(input@) matches Err(e) ==> r == Err::<Ulid, CoreError>(e),
    {
        Ulid::parse(input)
    }
}

/// Every digit decodes back from its character.
pub proof fn lemma_decode_encode(d: nat)
    requires
        d < 32,
    ensures
        decode_digit(encode_digit(d)) == Some(d),
{
}

/// `v / 32^(k+1)` is `(v / 32^k) / 32`.
proof fn lemma_div_pow32_step(v: nat, k: nat)
    ensures
        v / pow32(k + 1) == (v / pow32(k)) / 32,
{
    lemma_pow32_positive(k);
    assert(pow32(k + 1) == pow32(k) * 32) by (nonlinear_arith)
        requires
            pow32(k + 1) == 32 * pow32(k),
    ;
    vstd::arithmetic::div_mod::lemma_div_denominator(v as int, pow32(k) as int, 32);
}

/// Reading the first `n` digits of the text of `v` gives `v / 32^(26 - n)`.
proof fn lemma_text_prefix_value(v: nat, n: nat)
    requires
        n <= 26,
        v <= u128::MAX,
    ensures
        base32_value(ulid_text(v), n) == v / pow32((26 - n) as nat),
    decreases n,
{
    let s = ulid_text(v);
    if n == 0 {
        lemma_pow32_fits(25);
        lemma_pow32_positive(25);
        assert(pow32(26) == 32 * pow32(25));
        assert(v < pow32(26));
        vstd::arithmetic::div_mod::lemma_basic_div(v as int, pow32(26) as int);
    } else {
        lemma_text_prefix_value(v, (n - 1) as nat);
        let k = (26 - n) as nat;
        let x = v / pow32(k);
        lemma_div_pow32_step(v, k);
        lemma_decode_encode(x % 32);
        assert(s[n - 1] == encode_digit(x % 32));
        assert((x / 32) * 32 + x % 32 == x) by (nonlinear_arith);
    }
}

/// Parsing the text of a value gives back the value: text and parsing are
/// inverse.
pub proof fn lemma_text_round_trip(v: nat)
    requires
        v <= u128::MAX,
    ensures
        ulid_parse(ulid_text(v)) == Ok::<nat, CoreError>(v),
{
    let s = ulid_text(v);
    assert forall|j: int| 0 <= j < 26 implies (#[trigger] decode_digit(s[j])) is Some by {
        lemma_decode_encode((v / pow32((25 - j) as nat)) % 32);
    }
    lemma_first_invalid_skip(s, 1, 26);
    lemma_pow32_fits(25);
    lemma_pow32_positive(25);
    assert(v < pow32(25) * 8);
    vstd::arithmetic::div_mod::lemma_multiply_divide_lt(v as int, pow32(25) as int, 8);
    vstd::arithmetic::div_mod::lemma_small_mod((v / pow32(25)) as nat, 32);
    lemma_decode_encode((v / pow32(25)) % 32);
    assert(s[0] == encode_digit((v / pow32(25)) % 32));
    assert(decode_digit(s[0]) == Some(v / pow32(25)));
    assert(first_invalid(s, 26) is None);
    lemma_text_prefix_value(v, 26);
    assert(pow32((26 - 26) as nat) == 1);
    assert(v / 1 == v);
    assert(base32_value(s, 26) == v);
}

/// Whether `s` orders strictly before `t` character by character: at the
/// first position where they differ, `s` has the smaller character.
pub open spec fn text_less(s: Seq<char>, t: Seq<char>) -> bool {
    exists|k: int|
        0 <= k < s.len() && k < t.len() && s[k] < t[k] && forall|j: int|
            0 <= j < k ==> #[trigger] s[j] == t[j]
}

/// The alphabet is in ascending character order.
proof fn lemma_encode_ordered(d1: nat, d2: nat)
    requires
        d1 < d2 < 32,
    ensures
        encode_digit(d1) < encode_digit(d2),
{
}

/// The text of `v` up to position `n`, as a number: `v / 32^(26 - n)`.
pub open spec fn text_prefix(v: nat, n: nat) -> nat {
    v / pow32((26 - n) as nat)
}

/// Texts that agree below position `n`, of values whose prefixes agree
/// there, order as the values do.
proof fn lemma_text_order_from(a: nat, b: nat, n: nat)
    requires
        a < b <= u128::MAX,
        n < 26,
        text_prefix(a, n) == text_prefix(b, n),
        forall|j: int| 0 <= j < n ==> #[trigger] ulid_text(a)[j] == ulid_text(b)[j],
    ensures
        text_less(ulid_text(a), ulid_text(b)),
    decreases 26 - n,
{
    let k = (25 - n) as nat;
    lemma_div_pow32_step(a, k);
    lemma_div_pow32_step(b, k);
    let xa = a / pow32(k);
    let xb = b / pow32(k);
    assert(text_prefix(a, n) == xa / 32);
    assert(text_prefix(b, n) == xb / 32);
    assert(xa == (xa / 32) * 32 + xa % 32) by (nonlinear_arith);
    assert(xb == (xb / 32) * 32 + xb % 32) by (nonlinear_arith);
    lemma_pow32_positive(k);
    vstd::arithmetic::div_mod::lemma_div_is_ordered(a as int, b as int, pow32(k) as int);
    let ta = ulid_text(a);
    let tb = ulid_text(b);
    assert(ta[n as int] == encode_digit(xa % 32));
    assert(tb[n as int] == encode_digit(xb % 32));
    if xa % 32 == xb % 32 {
        if n == 25 {
            assert(k == 0);
            assert(pow32(0) == 1);
            assert(a / 1 == a);
            assert(b / 1 == b);
            assert(xa == a && xb == b);
        }
        assert forall|j: int| 0 <= j < n + 1 implies #[trigger] ta[j] == tb[j] by {}
        lemma_text_order_from(a, b, n + 1);
    } else {
        lemma_encode_ordered((xa % 32) as nat, (xb % 32) as nat);
        assert(ta[n as int] < tb[n as int]);
    }
}

/// Text order and numeric order agree: the text of a smaller value orders
/// first, character by character, and equal values have equal texts.
pub proof fn lemma_text_orders(a: nat, b: nat)
    requires
        a < b <= u128::MAX,
    ensures
        text_less(ulid_text(a), ulid_text(b)),
        !text_less(ulid_text(b), ulid_text(a)),
{
    lemma_pow32_fits(25);
    lemma_pow32_positive(25);
    assert(pow32(26) == 32 * pow32(25));
    vstd::arithmetic::div_mod::lemma_basic_div(a as int, pow32(26) as int);
    vstd::arithmetic::div_mod::lemma_basic_div(b as int, pow32(26) as int);
    lemma_text_order_from(a, b, 0);
    let ta = ulid_text(a);
    let tb = ulid_text(b);
    if text_less(tb, ta) {
        let k1 = choose|k: int|
            0 <= k < ta.len() && k < tb.len() && ta[k] < tb[k] && forall|j: int|
                0 <= j < k ==> #[trigger] ta[j] == tb[j];
        let k2 = choose|k: int|
            0 <= k < tb.len() && k < ta.len() && tb[k] < ta[k] && forall|j: int|
                0 <= j < k ==> #[trigger] tb[j] == ta[j];
        if k1 < k2 {
            assert(tb[k1] == ta[k1]);
        } else if k2 < k1 {
            assert(ta[k2] == tb[k2]);
        }
    }
}

/// Texts whose characters agree up to case have the same base32 value.
proof fn lemma_base32_value_case(s: Seq<char>, t: Seq<char>, n: nat)
    requires
        n <= s.len(),
        s.len() == t.len(),
        forall|i: int| 0 <= i < s.len() ==> ascii_upper(#[trigger] s[i]) == ascii_upper(t[i]),
    ensures
        base32_value(s, n) == base32_value(t, n),
    decreases n,
{
    if n > 0 {
        lemma_base32_value_case(s, t, (n - 1) as nat);
        assert(ascii_upper(s[n - 1]) == ascii_upper(t[n - 1]));
    }
}

/// Case does not matter when parsing: two texts whose characters agree up
/// to ASCII case parse to the same identifier, or fail the same way, when
/// every character of one is in the alphabet.
pub proof fn lemma_parse_ignores_case(s: Seq<char>, t: Seq<char>)
    requires
        s.len() == t.len(),
        forall|i: int| 0 <= i < s.len() ==> ascii_upper(#[trigger] s[i]) == ascii_upper(t[i]),
        forall|i: int| 0 <= i < s.len() ==> (#[trigger] decode_digit(s[i])) is Some,
    ensures
        ulid_parse(s) == ulid_parse(t),
{
    assert forall|i: int| 0 <= i < t.len() implies (#[trigger] decode_digit(t[i])) is Some by {
        assert(ascii_upper(s[i]) == ascii_upper(t[i]));
        assert(decode_digit(s[i]) is Some);
    }
    if s.len() == 26 {
        assert(ascii_upper(s[0]) == ascii_upper(t[0]));
        assert(decode_digit(s[0]) == decode_digit(t[0]));
        lemma_first_invalid_skip(s, 1, 26);
        lemma_first_invalid_skip(t, 1, 26);
        lemma_base32_value_case(s, t, 26);
    }
}

/// The Crockford base32 alphabet, digit `d` at position `d`: the digits
/// and upper-case letters without `I`, `L`, `O` and `U`.
pub open spec fn crockford_alphabet() -> Seq<char> {
    seq!['0', '1', '2', '3', '4', '5', '6', '7', '8', '9', 'A', 'B', 'C', 'D', 'E', 'F', 'G', 'H', 'J', 'K', 'M', 'N', 'P', 'Q', 'R', 'S', 'T', 'V', 'W', 'X', 'Y', 'Z']
}

/// The text of an identifier is written in the Crockford alphabet: its
/// character `i` is the alphabet's character for base32 digit `i` of the
/// value, most significant first. `I`, `L`, `O` and `U` never appear.
pub proof fn lemma_text_alphabet(v: nat)
    ensures
        crockford_alphabet().len() == 32,
        forall|i: int|
            0 <= i < 26 ==> #[trigger] ulid_text(v)[i] == crockford_alphabet()[((v / pow32(
                (25 - i) as nat,
            )) % 32) as int],
        forall|i: int|
            0 <= i < 26 ==> #[trigger] ulid_text(v)[i] != 'I' && ulid_text(v)[i] != 'L'
                && ulid_text(v)[i] != 'O' && ulid_text(v)[i] != 'U',
{
    assert forall|d: nat| d < 32 implies #[trigger] encode_digit(d) == crockford_alphabet()[d as int] by {
        if d == 0 {
            assert(encode_digit(0) == '0');
        } else if d == 1 {
            assert(encode_digit(1) == '1');
        } else if d == 2 {
            assert(encode_digit(2) == '2');
        } else if d == 3 {
            assert(encode_digit(3) == '3');
        } else if d == 4 {
            assert(encode_digit(4) == '4');
        } else if d == 5 {
            assert(encode_digit(5) == '5');
        } else if d == 6 {
            assert(encode_digit(6) == '6');
        } else if d == 7 {
            assert(encode_digit(7) == '7');
        } else if d == 8 {
            assert(encode_digit(8) == '8');
        } else if d == 9 {
            assert(encode_digit(9) == '9');
        } else if d == 10 {
            assert(encode_digit(10) == 'A');
        } else if d == 11 {
            assert(encode_digit(11) == 'B');
        } else if d == 12 {
            assert(encode_digit(12) == 'C');
        } else if d == 13 {
            assert(encode_digit(13) == 'D');
        } else if d == 14 {
            assert(encode_digit(14) == 'E');
        } else if d == 15 {
            assert(encode_digit(15) == 'F');
        } else if d == 16 {
            assert(encode_digit(16) == 'G');
        } else if d == 17 {
            assert(encode_digit(17) == 'H');
        } else if d == 18 {
            assert(encode_digit(18) == 'J');
        } else if d == 19 {
            assert(encode_digit(19) == 'K');
        } else if d == 20 {
            assert(encode_digit(20) == 'M');
        } else if d == 21 {
            assert(encode_digit(21) == 'N');
        } else if d == 22 {
            assert(encode_digit(22) == 'P');
        } else if d == 23 {
            assert(encode_digit(23) == 'Q');
        } else if d == 24 {
            assert(encode_digit(24) == 'R');
        } else if d == 25 {
            assert(encode_digit(25) == 'S');
        } else if d == 26 {
            assert(encode_digit(26) == 'T');
        } else if d == 27 {
            assert(encode_digit(27) == 'V');
        } else if d == 28 {
            assert(encode_digit(28) == 'W');
        } else if d == 29 {
            assert(encode_digit(29) == 'X');
        } else if d == 30 {
            assert(encode_digit(30) == 'Y');
        } else if d == 31 {
            assert(encode_digit(31) == 'Z');
        }
    }
    assert forall|i: int| 0 <= i < 26 implies #[trigger] ulid_text(v)[i] == crockford_alphabet()[((v
        / pow32((25 - i) as nat)) % 32) as int] by {
        let d = (v / pow32((25 - i) as nat)) % 32;
        assert(encode_digit(d) == crockford_alphabet()[d as int]);
    }
    assert forall|d: nat| d < 32 implies #[trigger] crockford_alphabet()[d as int] != 'I'
        && crockford_alphabet()[d as int] != 'L' && crockford_alphabet()[d as int] != 'O'
        && crockford_alphabet()[d as int] != 'U' by {
        assert(encode_digit(d) == crockford_alphabet()[d as int]);
    }
    assert forall|i: int| 0 <= i < 26 implies #[trigger] ulid_text(v)[i] != 'I' && ulid_text(v)[i] != 'L'
        && ulid_text(v)[i] != 'O' && ulid_text(v)[i] != 'U' by {
        let d = (v / pow32((25 - i) as nat)) % 32;
        assert(crockford_alphabet()[d as int] != 'I');
    }
}

/// Parsing reads every character of the alphabet, in either case, as its
/// position in the alphabet, reads `O` and `o` as 0 and `I`, `i`, `L` and
/// `l` as 1, and refuses `U` and `u`.
pub proof fn lemma_parse_alphabet()
    ensures
        forall|d: int|
            0 <= d < 32 ==> decode_digit(#[trigger] crockford_alphabet()[d]) == Some(d as nat),
        decode_digit('O') == Some(0nat),
        decode_digit('o') == Some(0nat),
        decode_digit('I') == Some(1nat),
        decode_digit('i') == Some(1nat),
        decode_digit('L') == Some(1nat),
        decode_digit('l') == Some(1nat),
        decode_digit('U') is None,
        decode_digit('u') is None,
{
    assert forall|d: int| 0 <= d < 32 implies decode_digit(#[trigger] crockford_alphabet()[d]) == Some(
        d as nat,
    ) by {
        lemma_text_alphabet(0);
        assert(encode_digit(d as nat) == crockford_alphabet()[d]) by {
        if d == 0 {
            assert(encode_digit(0) == '0');
        } else if d == 1 {
            assert(encode_digit(1) == '1');
        } else if d == 2 {
            assert(encode_digit(2) == '2');
        } else if d == 3 {
            assert(encode_digit(3) == '3');
        } else if d == 4 {
            assert(encode_digit(4) == '4');
        } else if d == 5 {
            assert(encode_digit(5) == '5');
        } else if d == 6 {
            assert(encode_digit(6) == '6');
        } else if d == 7 {
            assert(encode_digit(7) == '7');
        } else if d == 8 {
            assert(encode_digit(8) == '8');
        } else if d == 9 {
            assert(encode_digit(9) == '9');
        } else if d == 10 {
            assert(encode_digit(10) == 'A');
        } else if d == 11 {
            assert(encode_digit(11) == 'B');
        } else if d == 12 {
            assert(encode_digit(12) == 'C');
        } else if d == 13 {
            assert(encode_digit(13) == 'D');
        } else if d == 14 {
            assert(encode_digit(14) == 'E');
        } else if d == 15 {
            assert(encode_digit(15) == 'F');
        } else if d == 16 {
            assert(encode_digit(16) == 'G');
        } else if d == 17 {
            assert(encode_digit(17) == 'H');
        } else if d == 18 {
            assert(encode_digit(18) == 'J');
        } else if d == 19 {
            assert(encode_digit(19) == 'K');
        } else if d == 20 {
            assert(encode_digit(20) == 'M');
        } else if d == 21 {
            assert(encode_digit(21) == 'N');
        } else if d == 22 {
            assert(encode_digit(22) == 'P');
        } else if d == 23 {
            assert(encode_digit(23) == 'Q');
        } else if d == 24 {
            assert(encode_digit(24) == 'R');
        } else if d == 25 {
            assert(encode_digit(25) == 'S');
        } else if d == 26 {
            assert(encode_digit(26) == 'T');
        } else if d == 27 {
            assert(encode_digit(27) == 'V');
        } else if d == 28 {
            assert(encode_digit(28) == 'W');
        } else if d == 29 {
            assert(encode_digit(29) == 'X');
        } else if d == 30 {
            assert(encode_digit(30) == 'Y');
        } else if d == 31 {
            assert(encode_digit(31) == 'Z');
        }
        }
        lemma_decode_encode(d as nat);
    }
}

/// Building from parts in range and reading the fields back gives the parts.
pub proof fn lemma_fields_round_trip(timestamp: nat, randomness: nat)
    requires
        timestamp < timestamp_limit(),
        randomness < timestamp_unit(),
    ensures
        (timestamp * timestamp_unit() + randomness) / timestamp_unit() == timestamp,
        (timestamp * timestamp_unit() + randomness) % timestamp_unit() == randomness,
{
    vstd::arithmetic::div_mod::lemma_fundamental_div_mod_converse(
        (timestamp * timestamp_unit() + randomness) as int,
        timestamp_unit() as int,
        timestamp as int,
        randomness as int,
    );
}

/// An earlier timestamp orders first, whatever the randomness.
pub proof fn lemma_timestamp_orders(t1: nat, r1: nat, t2: nat, r2: nat)
    requires
        t1 < t2,
        r1 < timestamp_unit(),
        r2 < timestamp_unit(),
    ensures
        t1 * timestamp_unit() + r1 < t2 * timestamp_unit() + r2,
{
    assert(t1 * timestamp_unit() + timestamp_unit() <= t2 * timestamp_unit()) by (nonlinear_arith)
        requires
            t1 < t2,
    ;
}

} // verus!
