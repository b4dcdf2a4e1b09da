//! The exact decimal text of fixed-point values: printing and parsing.
//!
//! Every [`Fx16_16`] is exactly representable with at most 16 fractional
//! digits, so printing loses nothing, and parsing accepts exactly the values
//! it can represent: silent precision loss on authored data is worse than an
//! error.

use crate::error::CoreError;
use crate::fixed::Fx16_16;
use crate::text::{decimal_digits, digit_char, is_digit_char, push_char, push_decimal, utf8};
use vstd::prelude::*;

verus! {

/// `5^k`.
pub open spec fn pow5(k: nat) -> nat
    decreases k,
{
    if k == 0 {
        1
    } else {
        5 * pow5((k - 1) as nat)
    }
}

/// `2^k`.
pub open spec fn pow2(k: nat) -> nat
    decreases k,
{
    if k == 0 {
        1
    } else {
        2 * pow2((k - 1) as nat)
    }
}

/// `10^k`.
pub open spec fn pow10(k: nat) -> nat
    decreases k,
{
    if k == 0 {
        1
    } else {
        10 * pow10((k - 1) as nat)
    }
}

/// The last `width` decimal digits of `n`, with leading zeros.
pub open spec fn padded_digits(n: nat, width: nat) -> Seq<char>
    decreases width,
{
    if width == 0 {
        Seq::empty()
    } else {
        padded_digits(n / 10, (width - 1) as nat).push(digit_char(n % 10))
    }
}

/// `s` without its trailing `'0'` characters.
pub open spec fn strip_trailing_zeros(s: Seq<char>) -> Seq<char>
    decreases s.len(),
{
    if s.len() > 0 && s.last() == '0' {
        strip_trailing_zeros(s.drop_last())
    } else {
        s
    }
}

/// The decimal text of the magnitude `m` of a raw value: its integer part
/// and, unless it is whole, a point and its binary fraction written out in
/// 16 decimal places with the trailing zeros left off.
pub open spec fn magnitude_text(m: nat) -> Seq<char> {
    let whole = decimal_digits(m / 65536);
    if m % 65536 == 0 {
        whole
    } else {
        whole.push('.') + strip_trailing_zeros(padded_digits((m % 65536) * pow5(16), 16))
    }
}

/// The magnitude of a raw value.
pub open spec fn abs_raw(raw: int) -> nat {
    if raw < 0 {
        (-raw) as nat
    } else {
        raw as nat
    }
}

/// A minus for a negative raw value, nothing otherwise.
pub open spec fn sign_text(raw: int) -> Seq<char> {
    if raw < 0 {
        seq!['-']
    } else {
        Seq::empty()
    }
}

/// The shortest exact decimal text of the value with raw representation
/// `raw`: whole numbers print without a point, and other values without
/// trailing zeros.
pub open spec fn decimal_text(raw: int) -> Seq<char> {
    sign_text(raw) + magnitude_text(abs_raw(raw))
}

/// `n` copies of `'0'`.
pub open spec fn zeros(n: nat) -> Seq<char> {
    Seq::new(n, |i: int| '0')
}

/// The decimal text padded with zeros after the sign to at least `width`
/// characters, as the `{:0width$}` format pads a number.
pub open spec fn zero_padded_text(raw: int, width: nat) -> Seq<char> {
    let body = magnitude_text(abs_raw(raw));
    let used = sign_text(raw).len() + body.len();
    let fill: nat = if width > used {
        (width - used) as nat
    } else {
        0
    };
    sign_text(raw) + zeros(fill) + body
}

/// Whether byte `b` is an ASCII decimal digit.
pub open spec fn is_digit_byte(b: u8) -> bool {
    48 <= b <= 57
}

/// Whether every byte of `b` is an ASCII decimal digit.
pub open spec fn all_digit_bytes(b: Seq<u8>) -> bool {
    forall|i: int| 0 <= i < b.len() ==> is_digit_byte(#[trigger] b[i])
}

/// The value of the decimal digits `b`, most significant first.
pub open spec fn digits_value(b: Seq<u8>) -> nat
    decreases b.len(),
{
    if b.len() == 0 {
        0
    } else {
        digits_value(b.drop_last()) * 10 + (b.last() - 48) as nat
    }
}

/// The position of the first `'.'` byte of `b`, or its length if it has
/// none.
pub open spec fn dot_position(b: Seq<u8>) -> nat
    decreases b.len(),
{
    if b.len() == 0 {
        0
    } else if b[0] == 46 {
        0
    } else {
        1 + dot_position(b.drop_first())
    }
}

/// The magnitude that the unsigned decimal bytes `u` denote, if they are
/// well formed and exactly representable.
///
/// Well formed is one or more ASCII digits, optionally followed by a `.`
/// and 1 to 16 ASCII digits. The whole part may be at most 32768, and the
/// fraction must be a multiple of `2^-16`: with `k` digits, its digits are
/// a multiple of `5^k`.
pub open spec fn parse_unsigned(u: Seq<u8>) -> Option<nat> {
    let dot = dot_position(u);
    let whole = u.take(dot as int);
    let has_fraction = dot < u.len();
    let fraction = if has_fraction {
        u.skip(dot as int + 1)
    } else {
        Seq::empty()
    };
    let k = fraction.len();
    if has_fraction && (k == 0 || k > 16) {
        None
    } else if whole.len() == 0 || !all_digit_bytes(whole) || !all_digit_bytes(fraction) {
        None
    } else if digits_value(whole) > 32768 {
        None
    } else if digits_value(fraction) % pow5(k) != 0 {
        None
    } else {
        Some(digits_value(whole) * 65536 + digits_value(fraction) / pow5(k) * pow2((16 - k) as nat))
    }
}

/// The raw value that the decimal text with UTF-8 bytes `s` denotes: an
/// optional `-` before an unsigned decimal, when the signed value fits the
/// raw `i32`.
pub open spec fn parse_decimal(s: Seq<u8>) -> Option<int> {
    let negative = s.len() > 0 && s[0] == 45;
    let unsigned = if negative {
        s.drop_first()
    } else {
        s
    };
    match parse_unsigned(unsigned) {
        Some(magnitude) => {
            let raw = if negative {
                -magnitude
            } else {
                magnitude as int
            };
            if i32::MIN <= raw <= i32::MAX {
                Some(raw)
            } else {
                None
            }
        },
        None => None,
    }
}

/// Appends the last `width` decimal digits of `n`, with leading zeros.
fn push_padded(s: &mut String, n: u64, width: u64)
    ensures
        final(s)@ == old(s)@ + padded_digits(n as nat, width as nat),
    decreases width,
{
    if width > 0 {
        push_padded(s, n / 10, width - 1);
        let d = (n % 10) as u8;
        let c = (48u8 + d) as char;
        proof {
            assert(c == digit_char((n % 10) as nat));
        }
        push_char(s, c);
    }
}

/// Stripping a last zero digit: the padded digits of a multiple of ten end
/// in `'0'`, and without it they are the padded digits of a tenth of it.
proof fn lemma_strip_step(n: nat, width: nat)
    requires
        width > 0,
        n % 10 == 0,
    ensures
        strip_trailing_zeros(padded_digits(n, width)) == strip_trailing_zeros(
            padded_digits(n / 10, (width - 1) as nat),
        ),
{
    let p = padded_digits(n, width);
    assert(p.last() == '0');
    assert(p.drop_last() == padded_digits(n / 10, (width - 1) as nat));
}

/// Padded digits that do not end in a zero digit have no trailing zero to
/// strip.
proof fn lemma_strip_none(n: nat, width: nat)
    requires
        width > 0,
        n % 10 != 0,
    ensures
        strip_trailing_zeros(padded_digits(n, width)) == padded_digits(n, width),
{
    let p = padded_digits(n, width);
    assert(p.last() == digit_char(n % 10));
}

/// `dot_position` is the first position that holds a `'.'`.
proof fn lemma_dot_position(b: Seq<u8>, d: int)
    requires
        0 <= d <= b.len(),
        forall|j: int| 0 <= j < d ==> b[j] != 46,
        d == b.len() || b[d] == 46,
    ensures
        dot_position(b) == d,
    decreases d,
{
    if d > 0 {
        let rest = b.drop_first();
        assert forall|j: int| 0 <= j < d - 1 implies rest[j] != 46 by {
            assert(rest[j] == b[j + 1]);
        }
        if d < b.len() {
            assert(rest[d - 1] == b[d]);
        }
        lemma_dot_position(rest, d - 1);
    }
}

/// The value of a prefix of digits is at most the value of all of them.
proof fn lemma_digits_value_prefix(b: Seq<u8>, i: int)
    requires
        0 <= i <= b.len(),
    ensures
        digits_value(b.take(i)) <= digits_value(b),
    decreases b.len(),
{
    if i < b.len() {
        assert(b.drop_last().take(i) == b.take(i));
        lemma_digits_value_prefix(b.drop_last(), i);
    } else {
        assert(b.take(i) == b);
    }
}

/// Extending digits by one on the right.
proof fn lemma_digits_value_push(b: Seq<u8>, i: int)
    requires
        0 <= i < b.len(),
    ensures
        digits_value(b.take(i + 1)) == digits_value(b.take(i)) * 10 + (b[i] - 48) as nat,
{
    assert(b.take(i + 1).drop_last() == b.take(i));
}

/// `10^k` factors as `5^k * 2^k`.
proof fn lemma_pow10_split(k: nat)
    ensures
        pow10(k) == pow5(k) * pow2(k),
        pow5(k) >= 1,
        pow2(k) >= 1,
    decreases k,
{
    if k > 0 {
        lemma_pow10_split((k - 1) as nat);
        let a = pow5((k - 1) as nat);
        let b = pow2((k - 1) as nat);
        assert(pow10(k) == 10 * pow10((k - 1) as nat));
        assert(pow5(k) == 5 * a);
        assert(pow2(k) == 2 * b);
        assert(pow5(k) * pow2(k) == 10 * (a * b)) by (nonlinear_arith)
            requires
                pow5(k) == 5 * a,
                pow2(k) == 2 * b,
        ;
    } else {
        assert(pow5(k) * pow2(k) == 1) by (nonlinear_arith)
            requires
                pow5(k) == 1,
                pow2(k) == 1,
        ;
    }
}

/// `2^a * 2^b == 2^(a + b)`.
proof fn lemma_pow2_add(a: nat, b: nat)
    ensures
        pow2(a) * pow2(b) == pow2(a + b),
    decreases a,
{
    if a > 0 {
        lemma_pow2_add((a - 1) as nat, b);
        let x = pow2((a - 1) as nat);
        assert(pow2(a) == 2 * x);
        assert(pow2(a + b) == 2 * pow2((a - 1 + b) as nat));
        assert(pow2(a) * pow2(b) == 2 * (x * pow2(b))) by (nonlinear_arith)
            requires
                pow2(a) == 2 * x,
        ;
    } else {
        assert(pow2(a) * pow2(b) == pow2(b)) by (nonlinear_arith)
            requires
                pow2(a) == 1,
        ;
    }
}

/// The position of the first `'.'` at or after `start`, or the length.
fn find_dot(bytes: &[u8], start: usize) -> (dot: usize)
    requires
        start <= bytes@.len(),
    ensures
        start <= dot <= bytes@.len(),
        dot_position(bytes@.skip(start as int)) == dot - start,
{
    let n = bytes.len();
    let mut dot = start;
    while dot < n && bytes[dot] != 46u8
        invariant
            n == bytes@.len(),
            start <= dot <= n,
            forall|j: int| start <= j < dot ==> bytes@[j] != 46,
        decreases n - dot,
    {
        dot = dot + 1;
    }
    let ghost u = bytes@.skip(start as int);
    proof {
        assert forall|j: int| 0 <= j < dot - start implies u[j] != 46 by {
            assert(u[j] == bytes@[j + start]);
        }
        if dot < n {
            assert(u[dot - start] == bytes@[dot as int]);
        }
        lemma_dot_position(u, dot - start);
    }
    dot
}

/// The value of the digits `bytes[start..end]`, if they are all digits and
/// their value is at most 32768.
fn whole_value(bytes: &[u8], start: usize, end: usize) -> (r: Option<u64>)
    requires
        start <= end <= bytes@.len(),
    ensures
        ({
            let d = bytes@.subrange(start as int, end as int);
            match r {
                Some(w) => all_digit_bytes(d) && w == digits_value(d) && w <= 32768,
                None => !all_digit_bytes(d) || digits_value(d) > 32768,
            }
        }),
{
    let ghost d = bytes@.subrange(start as int, end as int);
    let mut w: u64 = 0;
    let mut j = start;
    while j < end
        invariant
            start <= j <= end <= bytes@.len(),
            d == bytes@.subrange(start as int, end as int),
            w == digits_value(d.take(j - start)),
            w <= 32768,
            all_digit_bytes(d.take(j - start)),
        decreases end - j,
    {
        let c = bytes[j];
        proof {
            assert(d[j - start] == c);
        }
        if c < 48u8 || c > 57u8 {
            return None;
        }
        proof {
            lemma_digits_value_push(d, j - start);
            lemma_all_digits_push(d, j - start);
        }
        w = w * 10 + (c - 48u8) as u64;
        if w > 32768 {
            proof {
                lemma_digits_value_prefix(d, j - start + 1);
            }
            return None;
        }
        j = j + 1;
    }
    proof {
        assert(d.take(end - start) == d);
    }
    Some(w)
}

/// The value of the at most 16 digits `bytes[start..end]`, if they are all
/// digits.
fn fraction_value(bytes: &[u8], start: usize, end: usize) -> (r: Option<u64>)
    requires
        start <= end <= bytes@.len(),
        end - start <= 16,
    ensures
        ({
            let d = bytes@.subrange(start as int, end as int);
            match r {
                Some(f) => all_digit_bytes(d) && f == digits_value(d) && f < pow10(d.len()),
                None => !all_digit_bytes(d),
            }
        }),
{
    let ghost d = bytes@.subrange(start as int, end as int);
    let mut f: u64 = 0;
    let mut j = start;
    proof {
        lemma_pow10_monotone((end - start) as nat, 16);
        reveal_with_fuel(pow10, 17);
    }
    while j < end
        invariant
            start <= j <= end <= bytes@.len(),
            end - start <= 16,
            pow10((end - start) as nat) <= 10_000_000_000_000_000,
            d == bytes@.subrange(start as int, end as int),
            f == digits_value(d.take(j - start)),
            f < pow10((j - start) as nat),
            all_digit_bytes(d.take(j - start)),
        decreases end - j,
    {
        let c = bytes[j];
        proof {
            assert(d[j - start] == c);
        }
        if c < 48u8 || c > 57u8 {
            return None;
        }
        proof {
            lemma_digits_value_push(d, j - start);
            lemma_all_digits_push(d, j - start);
            lemma_pow10_bound((j - start) as nat);
            lemma_pow10_monotone((j - start + 1) as nat, (end - start) as nat);
            assert(f * 10 + (c - 48) < 10 * pow10((j - start) as nat)) by (nonlinear_arith)
                requires
                    f < pow10((j - start) as nat),
                    c - 48 < 10,
            ;
        }
        f = f * 10 + (c - 48u8) as u64;
        j = j + 1;
    }
    proof {
        assert(d.take(end - start) == d);
    }
    Some(f)
}

/// `5^k` for `k <= 16`.
fn pow5_u64(k: usize) -> (r: u64)
    requires
        k <= 16,
    ensures
        r == pow5(k as nat),
        r >= 1,
{
    let mut r: u64 = 1;
    let mut i: usize = 0;
    proof {
        lemma_pow10_monotone(k as nat, 16);
        reveal_with_fuel(pow10, 17);
    }
    while i < k
        invariant
            k <= 16,
            i <= k,
            r == pow5(i as nat),
            r >= 1,
            r <= pow10(i as nat),
            pow10(k as nat) <= 10_000_000_000_000_000,
        decreases k - i,
    {
        proof {
            lemma_pow10_split(i as nat);
            lemma_pow10_split((i + 1) as nat);
            lemma_pow10_bound(i as nat);
            lemma_pow10_monotone((i + 1) as nat, k as nat);
        }
        r = r * 5;
        i = i + 1;
    }
    r
}

/// `2^k` for `k <= 16`.
fn pow2_u64(k: usize) -> (r: u64)
    requires
        k <= 16,
    ensures
        r == pow2(k as nat),
        r <= 65536,
{
    let mut r: u64 = 1;
    let mut i: usize = 0;
    proof {
        lemma_pow2_monotone(k as nat, 16);
        reveal_with_fuel(pow2, 17);
    }
    while i < k
        invariant
            k <= 16,
            i <= k,
            r == pow2(i as nat),
            pow2(k as nat) <= 65536,
        decreases k - i,
    {
        proof {
            lemma_pow2_monotone((i + 1) as nat, k as nat);
        }
        r = r * 2;
        i = i + 1;
    }
    r
}

/// Digits stay digits when the next one is a digit.
proof fn lemma_all_digits_push(d: Seq<u8>, i: int)
    requires
        0 <= i < d.len(),
        all_digit_bytes(d.take(i)),
        is_digit_byte(d[i]),
    ensures
        all_digit_bytes(d.take(i + 1)),
{
    assert forall|j: int| 0 <= j < i + 1 implies is_digit_byte(#[trigger] d.take(i + 1)[j]) by {
        if j < i {
            assert(d.take(i + 1)[j] == d.take(i)[j]);
        }
    }
}

impl Fx16_16 {
    /// Parses the exact decimal form that `to_string` prints, plus plain
    /// integers, a redundant `-0` and trailing fractional zeros.
    ///
    /// Rejects malformed input, values outside the representable range, and
    /// fractions that cannot be represented exactly with 16 fractional bits:
    /// `"0.1"` and `"1.00000000000000001"` fail rather than round.
    pub fn parse(s: &str) -> (r: Result<Fx16_16, CoreError>)
        ensures
            parse_decimal(utf8(s@)) is Some ==> (r matches Ok(x) && x@ == parse_decimal(utf8(s@))->0),
            parse_decimal(utf8(s@)) is None ==> r == Err::<Fx16_16, CoreError>(CoreError::InvalidFixedPoint),
    {
        let bytes = s.as_bytes();
        let ghost b = bytes@;
        assert(b == utf8(s@));
        let n = bytes.len();
        let negative = n > 0 && bytes[0] == 45u8;
        let start: usize = if negative {
            1
        } else {
            0
        };
        let ghost unsigned = if negative {
            b.drop_first()
        } else {
            b
        };
        assert(unsigned =~= b.skip(start as int));
        let dot = find_dot(bytes, start);
        let frac_start: usize = if dot < n {
            dot + 1
        } else {
            n
        };
        proof {
            assert(unsigned.take(dot - start) =~= b.subrange(start as int, dot as int));
            if dot < n {
                assert(unsigned.skip(dot - start + 1) =~= b.subrange(frac_start as int, n as int));
            } else {
                assert(Seq::<u8>::empty() =~= b.subrange(frac_start as int, n as int));
            }
        }
        let k = n - frac_start;
        if (dot < n && k == 0) || k > 16 {
            return Err(CoreError::InvalidFixedPoint);
        }
        if dot == start {
            return Err(CoreError::InvalidFixedPoint);
        }
        let w = match whole_value(bytes, start, dot) {
            Some(w) => w,
            None => {
                return Err(CoreError::InvalidFixedPoint);
            },
        };
        let f = match fraction_value(bytes, frac_start, n) {
            Some(f) => f,
            None => {
                return Err(CoreError::InvalidFixedPoint);
            },
        };
        let fives = pow5_u64(k);
        if f % fives != 0 {
            return Err(CoreError::InvalidFixedPoint);
        }
        let twos = pow2_u64(16 - k);
        let q = f / fives;
        proof {
            lemma_pow10_split(k as nat);
            lemma_pow2_add(k as nat, (16 - k) as nat);
            reveal_with_fuel(pow2, 17);
            assert(q < pow2(k as nat)) by (nonlinear_arith)
                requires
                    q == f / fives,
                    f < pow10(k as nat),
                    pow10(k as nat) == fives * pow2(k as nat),
                    fives >= 1,
            ;
            assert(q * twos < 65536) by (nonlinear_arith)
                requires
                    q < pow2(k as nat),
                    pow2(k as nat) * twos == 65536,
                    twos >= 0,
            ;
        }
        let magnitude: i64 = (w as i64) * 65536 + (q * twos) as i64;
        let raw: i64 = if negative {
            -magnitude
        } else {
            magnitude
        };
        if raw < -2147483648i64 || raw > 2147483647i64 {
            return Err(CoreError::InvalidFixedPoint);
        }
        Ok(Fx16_16::from_raw(raw as i32))
    }
}

impl core::str::FromStr for Fx16_16 {
    type Err = CoreError;

    /// Parses as [`Fx16_16::parse`] does.
    fn from_str(s: &str) -> (r: Result<Self, Self::Err>)
        ensures
            parse_decimal(utf8(s@)) is Some ==> (r matches Ok(x) && x@ == parse_decimal(utf8(s@))->0),
            parse_decimal(utf8(s@)) is None ==> r == Err::<Fx16_16, CoreError>(CoreError::InvalidFixedPoint),
    {
        Fx16_16::parse(s)
    }
}

/// `10^k` is positive and grows tenfold per step.
proof fn lemma_pow10_bound(k: nat)
    ensures
        pow10(k) >= 1,
        pow10(k + 1) == 10 * pow10(k),
    decreases k,
{
    if k > 0 {
        lemma_pow10_bound((k - 1) as nat);
    }
}

/// `10^a <= 10^b` for `a <= b`.
proof fn lemma_pow10_monotone(a: nat, b: nat)
    requires
        a <= b,
    ensures
        pow10(a) <= pow10(b),
    decreases b,
{
    if a < b {
        lemma_pow10_monotone(a, (b - 1) as nat);
        lemma_pow10_bound((b - 1) as nat);
    }
}

/// `2^a <= 2^b` for `a <= b`.
proof fn lemma_pow2_monotone(a: nat, b: nat)
    requires
        a <= b,
    ensures
        pow2(a) <= pow2(b),
        pow2(a) >= 1,
    decreases b,
{
    if a < b {
        lemma_pow2_monotone(a, (b - 1) as nat);
    } else if a > 0 {
        lemma_pow2_monotone((a - 1) as nat, (a - 1) as nat);
    }
}

/// The bytes of a text of ASCII characters, one per character.
pub open spec fn ascii_bytes(cs: Seq<char>) -> Seq<u8> {
    cs.map_values(|c: char| c as u8)
}

/// The UTF-8 encoding of an ASCII text is its characters as bytes.
proof fn lemma_utf8_ascii(cs: Seq<char>)
    requires
        vstd::utf8::is_ascii_chars(cs),
    ensures
        utf8(cs) == ascii_bytes(cs),
{
    vstd::utf8::is_ascii_chars_encode_utf8(cs);
    assert(utf8(cs) =~= ascii_bytes(cs));
}

/// The byte of a digit character.
proof fn lemma_digit_byte(d: nat)
    requires
        d < 10,
    ensures
        digit_char(d) as u8 == 48 + d,
        is_digit_char(digit_char(d)),
        digit_char(d) as u32 <= 127,
{
}

/// The decimal digits of `n` as bytes: digits whose value is `n`.
proof fn lemma_decimal_bytes(n: nat)
    ensures
        ascii_bytes(decimal_digits(n)).len() == decimal_digits(n).len(),
        decimal_digits(n).len() >= 1,
        all_digit_bytes(ascii_bytes(decimal_digits(n))),
        digits_value(ascii_bytes(decimal_digits(n))) == n,
        forall|i: int|
            0 <= i < decimal_digits(n).len() ==> is_digit_char(#[trigger] decimal_digits(n)[i]),
    decreases n,
{
    let b = ascii_bytes(decimal_digits(n));
    lemma_digit_byte(n % 10);
    assert(b.last() == digit_char(n % 10) as u8);
    assert(digits_value(b) == digits_value(b.drop_last()) * 10 + (b.last() - 48) as nat);
    if n < 10 {
        assert(b.drop_last() =~= Seq::<u8>::empty());
    } else {
        lemma_decimal_bytes(n / 10);
        assert(b.drop_last() =~= ascii_bytes(decimal_digits(n / 10)));
        assert forall|i: int| 0 <= i < b.len() implies is_digit_byte(#[trigger] b[i]) by {
            if i < b.len() - 1 {
                assert(b[i] == ascii_bytes(decimal_digits(n / 10))[i]);
            }
        }
        assert forall|i: int| 0 <= i < decimal_digits(n).len() implies is_digit_char(
            #[trigger] decimal_digits(n)[i],
        ) by {
            if i < decimal_digits(n).len() - 1 {
                assert(decimal_digits(n)[i] == decimal_digits(n / 10)[i]);
            }
        }
    }
}

/// The padded digits of `n < 10^width` as bytes: `width` digits whose value
/// is `n`.
proof fn lemma_padded_bytes(n: nat, width: nat)
    requires
        n < pow10(width),
    ensures
        padded_digits(n, width).len() == width,
        ascii_bytes(padded_digits(n, width)).len() == width,
        all_digit_bytes(ascii_bytes(padded_digits(n, width))),
        digits_value(ascii_bytes(padded_digits(n, width))) == n,
        forall|i: int|
            0 <= i < width ==> is_digit_char(#[trigger] padded_digits(n, width)[i]),
    decreases width,
{
    let b = ascii_bytes(padded_digits(n, width));
    if width == 0 {
        assert(b =~= Seq::<u8>::empty());
    } else {
        lemma_digit_byte(n % 10);
        lemma_padded_bytes(n / 10, (width - 1) as nat);
        assert(b.drop_last() =~= ascii_bytes(padded_digits(n / 10, (width - 1) as nat)));
        assert forall|i: int| 0 <= i < b.len() implies is_digit_byte(#[trigger] b[i]) by {
            if i < b.len() - 1 {
                assert(b[i] == ascii_bytes(padded_digits(n / 10, (width - 1) as nat))[i]);
            }
        }
        assert forall|i: int| 0 <= i < width implies is_digit_char(
            #[trigger] padded_digits(n, width)[i],
        ) by {
            if i < width - 1 {
                assert(padded_digits(n, width)[i] == padded_digits(n / 10, (width - 1) as nat)[i]);
            }
        }
    }
}

/// The fraction digits left after stripping the trailing zeros of the
/// `width` padded digits of `n`, and how many of them are left.
pub open spec fn stripped(n: nat, width: nat) -> (nat, nat)
    decreases width,
{
    if width > 0 && n % 10 == 0 {
        stripped(n / 10, (width - 1) as nat)
    } else {
        (n, width)
    }
}

/// Stripping trailing zeros from padded digits leaves the padded digits of
/// the stripped value, which ends in a nonzero digit.
proof fn lemma_stripped(n: nat, width: nat)
    requires
        n != 0,
        n < pow10(width),
    ensures
        strip_trailing_zeros(padded_digits(n, width)) == padded_digits(
            stripped(n, width).0,
            stripped(n, width).1,
        ),
        1 <= stripped(n, width).1 <= width,
        stripped(n, width).0 % 10 != 0,
        stripped(n, width).0 < pow10(stripped(n, width).1),
        stripped(n, width).0 * pow10((width - stripped(n, width).1) as nat) == n,
    decreases width,
{
    if width == 0 {
        assert(pow10(0) == 1);
    } else if n % 10 == 0 {
        lemma_strip_step(n, width);
        assert(n / 10 < pow10((width - 1) as nat));
        lemma_stripped(n / 10, (width - 1) as nat);
        let (f, k) = stripped(n / 10, (width - 1) as nat);
        let p = pow10((width - 1 - k) as nat);
        assert(pow10((width - k) as nat) == 10 * p);
        assert(f * p == n / 10);
        assert(f * pow10((width - k) as nat) == 10 * (f * p)) by (nonlinear_arith)
            requires
                pow10((width - k) as nat) == 10 * p,
        ;
    } else {
        lemma_strip_none(n, width);
        assert(n * pow10(0) == n) by (nonlinear_arith)
            requires
                pow10(0) == 1,
        ;
    }
}

/// `5^a * 5^b == 5^(a + b)`.
proof fn lemma_pow5_add(a: nat, b: nat)
    ensures
        pow5(a) * pow5(b) == pow5(a + b),
    decreases a,
{
    if a > 0 {
        lemma_pow5_add((a - 1) as nat, b);
        let x = pow5((a - 1) as nat);
        assert(pow5(a) == 5 * x);
        assert(pow5(a + b) == 5 * pow5((a - 1 + b) as nat));
        assert(pow5(a) * pow5(b) == 5 * (x * pow5(b))) by (nonlinear_arith)
            requires
                pow5(a) == 5 * x,
        ;
    } else {
        assert(pow5(a) * pow5(b) == pow5(b)) by (nonlinear_arith)
            requires
                pow5(a) == 1,
        ;
    }
}

/// Powers of five are odd.
proof fn lemma_pow5_odd(k: nat)
    ensures
        pow5(k) % 2 == 1,
    decreases k,
{
    if k > 0 {
        lemma_pow5_odd((k - 1) as nat);
    }
}

/// An odd modulus that divides `2 * x` divides `x`.
proof fn lemma_odd_cancel(x: int, m: int)
    requires
        m > 0,
        m % 2 == 1,
        (2 * x) % m == 0,
    ensures
        x % m == 0,
{
    vstd::arithmetic::div_mod::lemma_fundamental_div_mod(2 * x, m);
    let a = (2 * x) / m;
    let c = m / 2;
    assert(x == (a * (c + 1) - x) * m) by (nonlinear_arith)
        requires
            2 * x == m * a,
            m == 2 * c + 1,
    ;
    vstd::arithmetic::div_mod::lemma_mod_multiples_basic(a * (c + 1) - x, m);
}

/// An odd modulus that divides `x * 2^t` divides `x`.
proof fn lemma_cancel_twos(x: int, t: nat, m: int)
    requires
        m > 0,
        m % 2 == 1,
        (x * pow2(t)) % m == 0,
    ensures
        x % m == 0,
    decreases t,
{
    if t > 0 {
        let p = pow2((t - 1) as nat);
        assert(x * pow2(t) == (2 * x) * p) by (nonlinear_arith)
            requires
                pow2(t) == 2 * p,
        ;
        lemma_cancel_twos(2 * x, (t - 1) as nat, m);
        lemma_odd_cancel(x, m);
    } else {
        assert(x * pow2(t) == x) by (nonlinear_arith)
            requires
                pow2(t) == 1,
        ;
    }
}

/// The fraction text of a nonzero binary fraction `r / 65536` parses back
/// to `r`: its `k` digits are a multiple of `5^k`, and the quotient scaled
/// by `2^(16 - k)` is `r`.
proof fn lemma_fraction_exact(r: nat)
    requires
        0 < r < 65536,
    ensures
        r * pow5(16) != 0,
        r * pow5(16) < pow10(16),
        stripped(r * pow5(16), 16).0 % pow5(stripped(r * pow5(16), 16).1) == 0,
        stripped(r * pow5(16), 16).0 / pow5(stripped(r * pow5(16), 16).1) * pow2(
            (16 - stripped(r * pow5(16), 16).1) as nat,
        ) == r,
{
    reveal_with_fuel(pow5, 17);
    reveal_with_fuel(pow10, 17);
    let n = r * pow5(16);
    assert(n != 0 && n < pow10(16)) by (nonlinear_arith)
        requires
            n == r * pow5(16),
            0 < r < 65536,
            pow5(16) == 152_587_890_625,
            pow10(16) == 10_000_000_000_000_000,
    ;
    lemma_stripped(n, 16);
    let (f, k) = stripped(n, 16);
    let t = (16 - k) as nat;
    lemma_pow10_split(t);
    lemma_pow5_add(k, t);
    let p5k = pow5(k);
    let p5t = pow5(t);
    let p2t = pow2(t);
    assert(f * p2t == r * p5k) by (nonlinear_arith)
        requires
            f * pow10(t) == n,
            n == r * pow5(16),
            pow10(t) == p5t * p2t,
            pow5(16) == p5k * p5t,
            p5t >= 1,
    ;
    lemma_pow10_split(k);
    vstd::arithmetic::div_mod::lemma_mod_multiples_basic(r as int, p5k as int);
    assert(((r as int) * (p5k as int)) % (p5k as int) == 0);
    lemma_pow5_odd(k);
    lemma_cancel_twos(f as int, t, p5k as int);
    vstd::arithmetic::div_mod::lemma_fundamental_div_mod(f as int, p5k as int);
    let q = f / p5k;
    assert(q * p2t == r) by (nonlinear_arith)
        requires
            f == p5k * q,
            f * p2t == r * p5k,
            p5k >= 1,
    ;
}

/// The unsigned text of a magnitude is ASCII, starts with a digit, and
/// parses back to the magnitude.
proof fn lemma_magnitude_parse(m: nat)
    requires
        m <= 0x8000_0000,
    ensures
        vstd::utf8::is_ascii_chars(magnitude_text(m)),
        magnitude_text(m).len() >= 1,
        is_digit_char(magnitude_text(m)[0]),
        parse_unsigned(ascii_bytes(magnitude_text(m))) == Some(m),
{
    let ip = m / 65536;
    let r = m % 65536;
    let w = decimal_digits(ip);
    lemma_decimal_bytes(ip);
    let wb = ascii_bytes(w);
    let text = magnitude_text(m);
    let u = ascii_bytes(text);
    reveal_with_fuel(pow2, 17);
    if r == 0 {
        assert(text == w);
        assert forall|i: int| 0 <= i < u.len() implies u[i] != 46 by {
            assert(is_digit_byte(wb[i]));
        }
        lemma_dot_position(u, u.len() as int);
        assert(u.take(u.len() as int) =~= u);
        assert(pow5(0) == 1);
        assert(digits_value(Seq::<u8>::empty()) == 0);
    } else {
        lemma_fraction_exact(r);
        let n = r * pow5(16);
        lemma_stripped(n, 16);
        let (f, k) = stripped(n, 16);
        lemma_padded_bytes(f, k);
        let fr = padded_digits(f, k);
        assert(text == w.push('.') + fr);
        assert forall|i: int| 0 <= i < text.len() implies '\0' <= #[trigger] text[i] <= '\u{7f}' by {
            if i < w.len() {
                assert(text[i] == w[i]);
                assert(is_digit_char(w[i]));
            } else if i > w.len() {
                assert(text[i] == fr[i - w.len() - 1]);
                assert(is_digit_char(fr[i - w.len() - 1]));
            }
        }
        let fb = ascii_bytes(fr);
        assert(u =~= wb.push(46u8) + fb);
        assert forall|j: int| 0 <= j < w.len() implies u[j] != 46 by {
            assert(u[j] == wb[j]);
            assert(is_digit_byte(wb[j]));
        }
        lemma_dot_position(u, w.len() as int);
        assert(u.take(w.len() as int) =~= wb);
        assert(u.skip(w.len() as int + 1) =~= fb);
    }
    assert(is_digit_char(w[0]));
    assert(text[0] == w[0]);
}

/// Printing and parsing round-trip: the decimal text of every value parses
/// back to exactly that value.
pub proof fn lemma_decimal_round_trip(x: Fx16_16)
    ensures
        parse_decimal(utf8(decimal_text(x@))) == Some(x@),
{
    x.lemma_view_range();
    let raw = x@;
    let m = abs_raw(raw);
    lemma_magnitude_parse(m);
    let body = magnitude_text(m);
    let text = decimal_text(raw);
    assert forall|i: int| 0 <= i < text.len() implies '\0' <= #[trigger] text[i] <= '\u{7f}' by {
        if raw < 0 {
            if i > 0 {
                assert(text[i] == body[i - 1]);
            }
        } else {
            assert(text[i] == body[i]);
        }
    }
    lemma_utf8_ascii(text);
    let b = ascii_bytes(text);
    let bb = ascii_bytes(body);
    if raw < 0 {
        assert(b =~= seq![45u8] + bb);
        assert(b.drop_first() =~= bb);
    } else {
        assert(b =~= bb);
        assert(bb[0] == body[0] as u8);
    }
}

/// Scaling digits by ten when a zero digit is appended: the appended
/// fraction is exact exactly when the original one is, and denotes the same
/// multiple of `2^-16`.
proof fn lemma_append_zero_digit(f: nat, k: nat)
    requires
        1 <= k < 16,
    ensures
        (10 * f) % pow5(k + 1) == 0 <==> f % pow5(k) == 0,
        f % pow5(k) == 0 ==> (10 * f) / pow5(k + 1) * pow2((15 - k) as nat) == f / pow5(k) * pow2(
            (16 - k) as nat,
        ),
{
    let p = pow5(k);
    lemma_pow10_split(k);
    lemma_pow5_odd(k);
    assert(pow5(k + 1) == 5 * p);
    assert(pow2((16 - k) as nat) == 2 * pow2((15 - k) as nat));
    let t = pow2((15 - k) as nat);
    if f % p == 0 {
        vstd::arithmetic::div_mod::lemma_fundamental_div_mod(f as int, p as int);
        let q = f / p;
        assert(10 * f == (5 * p) * (2 * q)) by (nonlinear_arith)
            requires
                f == p * q,
        ;
        vstd::arithmetic::div_mod::lemma_mod_multiples_basic((2 * q) as int, (5 * p) as int);
        vstd::arithmetic::div_mod::lemma_div_multiples_vanish((2 * q) as int, (5 * p) as int);
        assert((5 * p) * (2 * q) == (2 * q) * (5 * p)) by (nonlinear_arith);
        assert((2 * q) * t == q * (2 * t)) by (nonlinear_arith);
    }
    if (10 * f) % (5 * p) == 0 {
        vstd::arithmetic::div_mod::lemma_fundamental_div_mod((10 * f) as int, (5 * p) as int);
        let m = (10 * f) / (5 * p);
        assert(2 * f == p * m) by (nonlinear_arith)
            requires
                10 * f == (5 * p) * m,
        ;
        vstd::arithmetic::div_mod::lemma_mod_multiples_basic(m as int, p as int);
        assert(p * m == m * p) by (nonlinear_arith);
        lemma_odd_cancel(f as int, p as int);
    }
}

/// Appending a zero to a fraction of 1 to 15 digits never changes what a
/// decimal parses to: `"2.5"` and `"2.50"` parse alike, and so do `"2.0"`
/// and `"2.00"`. Here `d` is the position of the first point of `s`.
pub proof fn lemma_trailing_zero_ignored(s: Seq<u8>, d: int)
    requires
        0 <= d < s.len(),
        s[d] == 46,
        forall|j: int| 0 <= j < d ==> s[j] != 46,
        1 <= s.len() - d - 1 < 16,
    ensures
        parse_decimal(s.push(48)) == parse_decimal(s),
{
    let t = s.push(48);
    let negative = s.len() > 0 && s[0] == 45;
    assert(t[0] == s[0]);
    let start = if negative { 1int } else { 0int };
    let us = s.skip(start);
    let ut = t.skip(start);
    assert(us =~= if negative { s.drop_first() } else { s });
    assert(ut =~= if negative { t.drop_first() } else { t });
    assert(ut =~= us.push(48));
    let e = d - start;
    assert(0 <= e) by {
        if negative && d == 0 {
            assert(s[0] == 45);
        }
    }
    lemma_dot_position(us, e);
    lemma_dot_position(ut, e);
    assert(ut.take(e) =~= us.take(e));
    let fs = us.skip(e + 1);
    let ft = ut.skip(e + 1);
    assert(ft =~= fs.push(48));
    let k = fs.len();
    assert(1 <= k < 16);
    assert(all_digit_bytes(ft) <==> all_digit_bytes(fs)) by {
        if all_digit_bytes(fs) {
            assert forall|i: int| 0 <= i < ft.len() implies is_digit_byte(#[trigger] ft[i]) by {
                if i < fs.len() {
                    assert(ft[i] == fs[i]);
                }
            }
        }
        if all_digit_bytes(ft) {
            assert forall|i: int| 0 <= i < fs.len() implies is_digit_byte(#[trigger] fs[i]) by {
                assert(ft[i] == fs[i]);
            }
        }
    }
    assert(ft.drop_last() == fs);
    assert(digits_value(ft) == digits_value(fs) * 10);
    lemma_append_zero_digit(digits_value(fs), k);
    assert(10 * digits_value(fs) == digits_value(fs) * 10);
}

/// A whole number needs no fraction: appending `".0"` to text without a
/// point never changes what it parses to.
pub proof fn lemma_point_zero_ignored(s: Seq<u8>)
    requires
        forall|j: int| 0 <= j < s.len() ==> s[j] != 46,
    ensures
        parse_decimal(s + seq![46u8, 48u8]) == parse_decimal(s),
{
    let t = s + seq![46u8, 48u8];
    reveal_with_fuel(pow5, 2);
    reveal_with_fuel(pow2, 17);
    if s.len() == 0 {
        assert(t =~= seq![46u8, 48u8]);
        lemma_dot_position(t, 0);
        lemma_dot_position(s, 0);
    } else {
        let negative = s[0] == 45;
        assert(t[0] == s[0]);
        let start = if negative { 1int } else { 0int };
        let us = s.skip(start);
        let ut = t.skip(start);
        assert(us =~= if negative { s.drop_first() } else { s });
        assert(ut =~= if negative { t.drop_first() } else { t });
        assert(ut =~= us + seq![46u8, 48u8]);
        lemma_dot_position(us, us.len() as int);
        assert(ut[us.len() as int] == 46);
        lemma_dot_position(ut, us.len() as int);
        assert(ut.take(us.len() as int) =~= us);
        assert(us.take(us.len() as int) =~= us);
        let ft = ut.skip(us.len() as int + 1);
        assert(ft =~= seq![48u8]);
        assert(ft.drop_last() =~= Seq::<u8>::empty());
        assert(digits_value(Seq::<u8>::empty()) == 0);
        assert(ft.len() == 1 && ft.last() == 48);
        assert(digits_value(ft) == digits_value(ft.drop_last()) * 10 + (ft.last() - 48) as nat);
        assert(digits_value(ft) == 0);
        assert(all_digit_bytes(ft));
        assert(all_digit_bytes(Seq::<u8>::empty()));
        assert(digits_value(Seq::<u8>::empty()) == 0);
        assert(pow5(1) == 5);
        assert(pow2(15) == 32768);
        assert(pow2(16) == 65536);
        assert(ut.skip(us.len() as int + 1) == ft);
        assert(parse_unsigned(ut) == parse_unsigned(us));
    }
}

/// The digits of a whole number up to 32767 parse to that number of ones.
pub proof fn lemma_whole_number_parses(n: nat)
    requires
        n <= 32767,
    ensures
        parse_decimal(ascii_bytes(decimal_digits(n))) == Some((n * 65536) as int),
{
    lemma_decimal_bytes(n);
    let b = ascii_bytes(decimal_digits(n));
    assert(is_digit_byte(b[0]));
    assert forall|j: int| 0 <= j < b.len() implies b[j] != 46 by {
        assert(is_digit_byte(b[j]));
    }
    lemma_dot_position(b, b.len() as int);
    assert(b.take(b.len() as int) =~= b);
    reveal_with_fuel(pow2, 17);
    assert(pow5(0) == 1);
    assert(digits_value(Seq::<u8>::empty()) == 0);
    assert(all_digit_bytes(Seq::<u8>::empty()));
}

/// Printed text never ends in a zero after a decimal point.
pub proof fn lemma_decimal_text_shortest(x: Fx16_16)
    ensures
        abs_raw(x@) % 65536 != 0 ==> decimal_text(x@).contains('.') && decimal_text(x@).last()
            != '0',
{
    x.lemma_view_range();
    let m = abs_raw(x@);
    let r = m % 65536;
    if r != 0 {
        lemma_fraction_exact(r);
        let n = r * pow5(16);
        lemma_stripped(n, 16);
        let (f, k) = stripped(n, 16);
        let text = decimal_text(x@);
        let fr = padded_digits(f, k);
        assert(fr.last() == digit_char(f % 10));
        let w = decimal_digits(m / 65536);
        assert(magnitude_text(m) == w.push('.') + fr);
        assert(text.last() == fr.last());
        assert(magnitude_text(m)[w.len() as int] == '.');
        assert(text[sign_text(x@).len() as int + w.len()] == '.');
    }
}

impl Fx16_16 {
    /// The shortest exact decimal for this value.
    ///
    /// Trailing zeros are omitted (`"0.5"`, not `"0.5000"`) and whole
    /// numbers print without a point.
    pub fn to_string(&self) -> (r: String)
        ensures
            r@ == decimal_text(self@),
    {
        let mut text = String::new();
        if self.to_raw() < 0 {
            push_char(&mut text, '-');
        }
        self.push_magnitude(&mut text);
        proof {
            if self@ < 0 {
                assert(sign_text(self@) == seq!['-']);
            }
        }
        text
    }

    /// The decimal text padded with zeros after the sign to at least `width`
    /// characters, as the `{:0width$}` format pads it.
    pub fn to_string_zero_padded(&self, width: usize) -> (r: String)
        ensures
            r@ == zero_padded_text(self@, width as nat),
    {
        let mut body = String::new();
        self.push_magnitude(&mut body);
        let negative = self.to_raw() < 0;
        let used: usize = if negative {
            1
        } else {
            0
        };
        let mut text = String::new();
        if negative {
            push_char(&mut text, '-');
        }
        let body_len = body.as_str().unicode_len();
        let mut filled: usize = 0;
        if width > used && width - used > body_len {
            let fill = width - used - body_len;
            while filled < fill
                invariant
                    filled <= fill,
                    text@ == sign_text(self@) + zeros(filled as nat),
                decreases fill - filled,
            {
                push_char(&mut text, '0');
                filled = filled + 1;
                proof {
                    assert(text@ =~= sign_text(self@) + zeros(filled as nat));
                }
            }
        }
        proof {
            assert(text@ =~= sign_text(self@) + zeros(filled as nat));
            if self@ < 0 {
                assert(sign_text(self@) =~= seq!['-']);
            } else {
                assert(sign_text(self@) =~= Seq::<char>::empty());
            }
        }
        crate::text::push_str(&mut text, body.as_str());
        text
    }

    /// Appends the decimal text of this value's magnitude.
    fn push_magnitude(&self, text: &mut String)
        ensures
            final(text)@ == old(text)@ + magnitude_text(abs_raw(self@)),
    {
        let raw = self.to_raw() as i64;
        let magnitude: i64 = if raw < 0 {
            -raw
        } else {
            raw
        };
        let m = magnitude as u64;
        proof {
            assert(m == abs_raw(self@));
            reveal_with_fuel(pow5, 17);
            reveal_with_fuel(pow10, 17);
            assert(pow5(16) == 152_587_890_625);
            assert(pow10(16) == 10_000_000_000_000_000);
        }
        let integer = m / 65536;
        let rest = m % 65536;
        push_decimal(text, integer);
        if rest != 0 {
            let mut fraction: u64 = rest * 152_587_890_625;
            let mut places: u64 = 16;
            let ghost first = fraction as nat;
            proof {
                assert(fraction < pow10(16)) by (nonlinear_arith)
                    requires
                        fraction == rest * 152_587_890_625,
                        rest < 65536,
                        pow10(16) == 10_000_000_000_000_000,
                ;
                assert(fraction != 0) by (nonlinear_arith)
                    requires
                        fraction == rest * 152_587_890_625,
                        rest > 0,
                ;
            }
            while fraction % 10 == 0
                invariant
                    1 <= places <= 16,
                    fraction != 0,
                    fraction < pow10(places as nat),
                    strip_trailing_zeros(padded_digits(fraction as nat, places as nat))
                        == strip_trailing_zeros(padded_digits(first, 16)),
                decreases places,
            {
                proof {
                    lemma_strip_step(fraction as nat, places as nat);
                    if places == 1 {
                        assert(pow10(1) == 10) by {
                            reveal_with_fuel(pow10, 2);
                        }
                    }
                }
                fraction = fraction / 10;
                places = places - 1;
            }
            proof {
                lemma_strip_none(fraction as nat, places as nat);
            }
            let ghost before = text@;
            push_char(text, '.');
            push_padded(text, fraction, places);
            proof {
                assert(text@ =~= before.push('.') + padded_digits(fraction as nat, places as nat));
            }
        }
    }
}

} // verus!
