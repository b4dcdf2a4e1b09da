//! Deterministic signed fixed-point arithmetic.
//!
//! Operators saturate instead of using Rust's default integer behaviour, which
//! panics on overflow in debug and wraps in release. Replays must not depend
//! on the build profile. Lossy arithmetic floors, including with negative
//! divisors; explicitly named rounding methods provide the other rounding
//! policies.

use vstd::prelude::*;

verus! {

/// The raw value of one, `2^16`.
pub open spec fn scale() -> int {
    65536
}

/// `v` clamped to the `i32` range.
pub open spec fn clamp(v: int) -> int {
    if v < i32::MIN {
        i32::MIN as int
    } else if v > i32::MAX {
        i32::MAX as int
    } else {
        v
    }
}

/// Whether `v` fits in an `i32`.
pub open spec fn in_range(v: int) -> bool {
    i32::MIN <= v <= i32::MAX
}

/// `n / d` rounded toward negative infinity, for a nonzero `d`.
pub open spec fn floor_div(n: int, d: int) -> int {
    if d > 0 {
        n / d
    } else {
        (-n) / (-d)
    }
}

/// The raw product of two raw values: `a * b / 2^16`, floored.
pub open spec fn raw_mul(a: int, b: int) -> int {
    (a * b) / scale()
}

/// The raw quotient of two raw values: `a * 2^16 / b`, floored, for a nonzero
/// `b`.
pub open spec fn raw_div(a: int, b: int) -> int {
    floor_div(a * scale(), b)
}

/// The sign of `v`: -1, 0 or 1.
pub open spec fn sign(v: int) -> int {
    if v < 0 {
        -1
    } else if v == 0 {
        0
    } else {
        1
    }
}

/// The magnitude of `v`.
pub open spec fn magnitude(v: int) -> int {
    if v < 0 {
        -v
    } else {
        v
    }
}

/// The raw result of dividing raw `a` by raw `b` with saturation: a zero
/// divisor gives the extreme of the numerator's sign, or zero.
pub open spec fn raw_saturating_div(a: int, b: int) -> int {
    if b == 0 {
        if a < 0 {
            i32::MIN as int
        } else if a == 0 {
            0
        } else {
            i32::MAX as int
        }
    } else {
        clamp(raw_div(a, b))
    }
}

/// A signed fixed-point number with 16 fractional bits, stored as a raw `i32`.
///
/// Its view is the raw integer: the number it stands for is that integer
/// divided by `2^16`.
///
/// Arithmetic saturates at [`Self::min_value`] and [`Self::max_value`].
/// Division by zero yields the maximum, the minimum, or zero according to the
/// numerator's sign. Checked operations return `None` on overflow or division
/// by zero.
#[derive(Debug, Clone, Copy, PartialEq, Eq, PartialOrd, Ord, Hash, Structural)]
pub struct Fx16_16(i32);

impl View for Fx16_16 {
    type V = int;

    closed spec fn view(&self) -> int {
        self.0 as int
    }
}

/// Clamps a wide raw value to the representable range.
fn clamp_raw(raw: i64) -> (r: Fx16_16)
    ensures
        r@ == clamp(raw as int),
{
    if raw < i32::MIN as i64 {
        Fx16_16(i32::MIN)
    } else if raw > i32::MAX as i64 {
        Fx16_16(i32::MAX)
    } else {
        Fx16_16(raw as i32)
    }
}

/// Narrows a wide raw value, or `None` if it is out of range.
fn narrow_raw(raw: i64) -> (r: Option<Fx16_16>)
    ensures
        in_range(raw as int) ==> (r matches Some(x) && x@ == raw),
        !in_range(raw as int) ==> r is None,
{
    if raw < i32::MIN as i64 || raw > i32::MAX as i64 {
        None
    } else {
        Some(Fx16_16(raw as i32))
    }
}

impl Fx16_16 {
    /// Number of fractional bits in the raw representation.
    pub const FRAC_BITS: u32 = 16;

    /// Every value's view is an `i32`.
    pub proof fn lemma_view_range(self)
        ensures
            in_range(self@),
    {
    }

    /// Two values are equal exactly when their raw representations are.
    pub proof fn lemma_view_injective(a: Self, b: Self)
        ensures
            (a == b) <==> (a@ == b@),
    {
    }

    /// Exactly zero.
    pub fn zero() -> (r: Self)
        ensures
            r@ == 0,
    {
        Fx16_16(0)
    }

    /// Exactly one.
    pub fn one() -> (r: Self)
        ensures
            r@ == scale(),
    {
        Fx16_16(65536)
    }

    /// The smallest value, exactly -32768.
    pub fn min_value() -> (r: Self)
        ensures
            r@ == i32::MIN,
    {
        Fx16_16(i32::MIN)
    }

    /// The largest value, exactly 32767.9999847412109375.
    pub fn max_value() -> (r: Self)
        ensures
            r@ == i32::MAX,
    {
        Fx16_16(i32::MAX)
    }

    /// One raw unit, exactly 1/65536.
    pub fn epsilon() -> (r: Self)
        ensures
            r@ == 1,
    {
        Fx16_16(1)
    }

    /// Constructs a value from its raw representation without scaling.
    pub fn from_raw(raw: i32) -> (r: Self)
        ensures
            r@ == raw,
    {
        Fx16_16(raw)
    }

    /// Returns the raw representation without rounding.
    pub fn to_raw(self) -> (r: i32)
        ensures
            r == self@,
    {
        self.0
    }

    /// Converts an integer, saturating if it is outside the range.
    pub fn from_int(v: i32) -> (r: Self)
        ensures
            r@ == clamp(v * scale()),
    {
        let wide = v as i64;
        assert((wide << 16u32) == wide * 65536) by (bit_vector)
            requires
                -0x8000_0000 <= wide < 0x8000_0000,
        ;
        clamp_raw(wide << 16u32)
    }

    /// Converts to an integer, rounding toward negative infinity.
    pub fn to_int_floor(self) -> (r: i32)
        ensures
            r == self@ / scale(),
    {
        let raw = self.0;
        assert((raw >> 16u32) == raw / 65536) by (bit_vector);
        raw >> 16u32
    }

    /// Rounds down to an integer value.
    pub fn floor(self) -> (r: Self)
        ensures
            r@ == (self@ / scale()) * scale(),
    {
        Self::from_int(self.to_int_floor())
    }

    /// Rounds up to an integer value, saturating at the maximum if necessary.
    pub fn ceil(self) -> (r: Self)
        ensures
            r@ == clamp(((self@ + 65535) / scale()) * scale()),
    {
        let wide = self.0 as i64 + 65535;
        let raw = (wide >> 16u32) << 16u32;
        assert(raw == (wide / 65536) * 65536) by (bit_vector)
            requires
                -0x8000_0000 <= wide < 0x1_0000_0000,
                raw == (wide >> 16u32) << 16u32,
        ;
        clamp_raw(raw)
    }

    /// Rounds to the nearest integer, with halves away from zero (`0.5` to
    /// `1`, `-0.5` to `-1`), saturating at the range edges.
    pub fn round(self) -> (r: Self)
        ensures
            r@ == clamp(sign(self@) * (((magnitude(self@) + 32768) / scale()) * scale())),
    {
        let raw = self.0 as i64;
        let abs = if raw < 0 {
            -raw
        } else {
            raw
        };
        let sum = abs + 32768;
        let rounded = (sum >> 16u32) << 16u32;
        assert(rounded == (sum / 65536) * 65536) by (bit_vector)
            requires
                0 <= sum < 0x1_0000_0000,
                rounded == (sum >> 16u32) << 16u32,
        ;
        let signum: i64 = if raw < 0 {
            -1
        } else if raw == 0 {
            0
        } else {
            1
        };
        assert(0 <= rounded <= 0x1_0000_0000);
        assert(signum * rounded == sign(raw as int) * rounded) by (nonlinear_arith)
            requires
                signum == sign(raw as int),
        ;
        assert(-0x1_0000_0000 <= signum * rounded <= 0x1_0000_0000) by (nonlinear_arith)
            requires
                -1 <= signum <= 1,
                0 <= rounded <= 0x1_0000_0000,
        ;
        clamp_raw(signum * rounded)
    }

    /// Returns the magnitude, saturating so that the minimum's magnitude is
    /// the maximum.
    pub fn abs(self) -> (r: Self)
        ensures
            r@ == clamp(magnitude(self@)),
    {
        let raw = self.0 as i64;
        clamp_raw(
            if raw < 0 {
                -raw
            } else {
                raw
            },
        )
    }

    /// Returns -1, 0, or 1 according to this value's sign.
    pub fn signum(self) -> (r: i32)
        ensures
            r == sign(self@),
    {
        if self.0 < 0 {
            -1
        } else if self.0 == 0 {
            0
        } else {
            1
        }
    }

    /// Whether this value is strictly negative.
    pub fn is_negative(self) -> (r: bool)
        ensures
            r == (self@ < 0),
    {
        self.0 < 0
    }

    /// Whether this value is strictly positive.
    pub fn is_positive(self) -> (r: bool)
        ensures
            r == (self@ > 0),
    {
        self.0 > 0
    }

    /// Adds, returning `None` if the result is out of range.
    pub fn checked_add(self, rhs: Self) -> (r: Option<Self>)
        ensures
            in_range(self@ + rhs@) ==> (r matches Some(x) && x@ == self@ + rhs@),
            !in_range(self@ + rhs@) ==> r is None,
    {
        narrow_raw(self.0 as i64 + rhs.0 as i64)
    }

    /// Subtracts, returning `None` if the result is out of range.
    pub fn checked_sub(self, rhs: Self) -> (r: Option<Self>)
        ensures
            in_range(self@ - rhs@) ==> (r matches Some(x) && x@ == self@ - rhs@),
            !in_range(self@ - rhs@) ==> r is None,
    {
        narrow_raw(self.0 as i64 - rhs.0 as i64)
    }

    /// Multiplies and floors, returning `None` if the result is out of range.
    pub fn checked_mul(self, rhs: Self) -> (r: Option<Self>)
        ensures
            in_range(raw_mul(self@, rhs@)) ==> (r matches Some(x) && x@ == raw_mul(self@, rhs@)),
            !in_range(raw_mul(self@, rhs@)) ==> r is None,
    {
        narrow_raw(mul_raw(self.0, rhs.0))
    }

    /// Adds and clamps the result to the representable range.
    pub fn saturating_add(self, rhs: Self) -> (r: Self)
        ensures
            r@ == clamp(self@ + rhs@),
    {
        clamp_raw(self.0 as i64 + rhs.0 as i64)
    }

    /// Subtracts and clamps the result to the representable range.
    pub fn saturating_sub(self, rhs: Self) -> (r: Self)
        ensures
            r@ == clamp(self@ - rhs@),
    {
        clamp_raw(self.0 as i64 - rhs.0 as i64)
    }

    /// Multiplies, floors, and clamps the result to the representable range.
    pub fn saturating_mul(self, rhs: Self) -> (r: Self)
        ensures
            r@ == clamp(raw_mul(self@, rhs@)),
    {
        clamp_raw(mul_raw(self.0, rhs.0))
    }

    /// Divides and floors, returning `None` on zero divisor or overflow.
    pub fn checked_div(self, rhs: Self) -> (r: Option<Self>)
        ensures
            rhs@ == 0 ==> r is None,
            rhs@ != 0 && in_range(raw_div(self@, rhs@)) ==> (r matches Some(x) && x@ == raw_div(
                self@,
                rhs@,
            )),
            rhs@ != 0 && !in_range(raw_div(self@, rhs@)) ==> r is None,
    {
        if rhs.0 == 0 {
            return None;
        }
        narrow_raw(div_raw(self.0, rhs.0))
    }

    /// Divides, floors, and clamps. A zero divisor returns the maximum for a
    /// positive numerator, the minimum for a negative numerator, and zero for
    /// zero.
    pub fn saturating_div(self, rhs: Self) -> (r: Self)
        ensures
            r@ == raw_saturating_div(self@, rhs@),
    {
        if rhs.0 == 0 {
            return match self.signum() {
                -1 => Fx16_16(i32::MIN),
                0 => Fx16_16(0),
                _ => Fx16_16(i32::MAX),
            };
        }
        clamp_raw(div_raw(self.0, rhs.0))
    }

    /// Constructs `num / den`, flooring and saturating as division does. A
    /// zero denominator saturates according to the numerator's sign.
    pub fn from_ratio(num: i32, den: i32) -> (r: Self)
        ensures
            r@ == raw_saturating_div(num as int, den as int),
    {
        Self::from_raw(num).saturating_div(Self::from_raw(den))
    }

    /// Negates, saturating so that the minimum negates to the maximum.
    pub fn saturating_neg(self) -> (r: Self)
        ensures
            r@ == clamp(-self@),
    {
        clamp_raw(-(self.0 as i64))
    }
}

/// `n / d` truncated toward zero, as Rust's `/` computes it on integers.
pub open spec fn trunc_div(n: int, d: int) -> int {
    if n >= 0 {
        n / d
    } else {
        -((-n) / d)
    }
}

/// The remainder of `n / d` truncated toward zero, as Rust's `%` computes it.
pub open spec fn trunc_rem(n: int, d: int) -> int {
    if n >= 0 {
        n % d
    } else {
        -((-n) % d)
    }
}

/// Truncating division, stepped down by one when it is inexact and the
/// operands have opposite signs, is floor division.
proof fn lemma_floor_from_trunc(n: int, d: int)
    requires
        d != 0,
    ensures
        (if trunc_rem(n, d) != 0 && ((n < 0) != (d < 0)) {
            trunc_div(n, d) - 1
        } else {
            trunc_div(n, d)
        }) == floor_div(n, d),
        -magnitude(n) <= trunc_div(n, d) <= magnitude(n),
{
    if n >= 0 {
        if d > 0 {
            assert(0 <= n / d <= n) by (nonlinear_arith)
                requires
                    n >= 0,
                    d > 0,
            ;
        } else {
            let m = -d;
            vstd::arithmetic::div_mod::lemma_fundamental_div_mod(n, d);
            vstd::arithmetic::div_mod::lemma_fundamental_div_mod(n, m);
            vstd::arithmetic::div_mod::lemma_fundamental_div_mod(-n, m);
            assert(0 <= n % d < m) by (nonlinear_arith)
                requires
                    d < 0,
                    m == -d,
            ;
            assert(0 <= n % m < m) by (nonlinear_arith)
                requires
                    m > 0,
            ;
            assert(n / d == -(n / m)) by (nonlinear_arith)
                requires
                    n == d * (n / d) + n % d,
                    0 <= n % d < m,
                    n == m * (n / m) + n % m,
                    0 <= n % m < m,
                    m == -d,
                    m > 0,
            ;
            assert(n % d == n % m) by (nonlinear_arith)
                requires
                    n == d * (n / d) + n % d,
                    0 <= n % d < m,
                    n == m * (n / m) + n % m,
                    0 <= n % m < m,
                    m == -d,
            ;
            assert(0 <= n / m <= n) by (nonlinear_arith)
                requires
                    n >= 0,
                    m > 0,
            ;
            assert(floor_div(n, d) == (-n) / m);
            assert(0 <= (-n) % m < m) by (nonlinear_arith)
                requires
                    m > 0,
            ;
            if n % m == 0 {
                assert((-n) / m == -(n / m)) by (nonlinear_arith)
                    requires
                        (-n) == m * ((-n) / m) + (-n) % m,
                        0 <= (-n) % m < m,
                        n == m * (n / m) + n % m,
                        n % m == 0,
                        m > 0,
                ;
            } else {
                assert((-n) / m == -(n / m) - 1) by (nonlinear_arith)
                    requires
                        (-n) == m * ((-n) / m) + (-n) % m,
                        0 <= (-n) % m < m,
                        n == m * (n / m) + n % m,
                        0 < n % m < m,
                        m > 0,
                ;
            }
        }
    } else {
        let p = -n;
        vstd::arithmetic::div_mod::lemma_fundamental_div_mod(n, d);
        vstd::arithmetic::div_mod::lemma_fundamental_div_mod(p, d);
        if d > 0 {
            assert(0 <= p / d <= p) by (nonlinear_arith)
                requires
                    p >= 0,
                    d > 0,
            ;
            assert(0 <= p % d < d) by (nonlinear_arith)
                requires
                    d > 0,
            ;
            assert(0 <= n % d < d) by (nonlinear_arith)
                requires
                    d > 0,
            ;
            if p % d == 0 {
                assert(n / d == -(p / d)) by (nonlinear_arith)
                    requires
                        p == d * (p / d) + p % d,
                        n == d * (n / d) + n % d,
                        0 <= n % d < d,
                        p % d == 0,
                        p == -n,
                ;
            } else {
                assert(n / d == -(p / d) - 1) by (nonlinear_arith)
                    requires
                        p == d * (p / d) + p % d,
                        n == d * (n / d) + n % d,
                        0 <= n % d < d,
                        0 < p % d < d,
                        p == -n,
                ;
            }
        } else {
            let m = -d;
            vstd::arithmetic::div_mod::lemma_fundamental_div_mod(p, m);
            assert(0 <= p % d < m) by (nonlinear_arith)
                requires
                    d < 0,
                    m == -d,
            ;
            assert(0 <= p % m < m) by (nonlinear_arith)
                requires
                    m > 0,
            ;
            assert(p / d == -(p / m)) by (nonlinear_arith)
                requires
                    p == d * (p / d) + p % d,
                    0 <= p % d < m,
                    p == m * (p / m) + p % m,
                    0 <= p % m < m,
                    m == -d,
                    m > 0,
            ;
            assert(p % d == p % m) by (nonlinear_arith)
                requires
                    p == d * (p / d) + p % d,
                    0 <= p % d < m,
                    p == m * (p / m) + p % m,
                    0 <= p % m < m,
                    m == -d,
            ;
            assert(0 <= p / m <= p) by (nonlinear_arith)
                requires
                    p >= 0,
                    m > 0,
            ;
            assert(floor_div(n, d) == p / m);
        }
    }
}

/// The floored raw quotient of two raw values, in an `i64`.
fn div_raw(a: i32, b: i32) -> (r: i64)
    requires
        b != 0,
    ensures
        r == raw_div(a as int, b as int),
{
    let wide = a as i64;
    assert((wide << 16u32) == wide * 65536) by (bit_vector)
        requires
            -0x8000_0000 <= wide < 0x8000_0000,
    ;
    let n = wide << 16u32;
    let d = b as i64;
    let q = n / d;
    proof {
        lemma_floor_from_trunc(n as int, d as int);
    }
    if n % d != 0 && (n < 0) != (d < 0) {
        q - 1
    } else {
        q
    }
}

/// The floored raw product of two raw values, in an `i64`.
fn mul_raw(a: i32, b: i32) -> (r: i64)
    ensures
        r == raw_mul(a as int, b as int),
{
    let wide_a = a as i64;
    let wide_b = b as i64;
    assert(-0x4000_0000_0000_0000 <= wide_a * wide_b <= 0x4000_0000_0000_0000) by (nonlinear_arith)
        requires
            -0x8000_0000 <= wide_a <= 0x7fff_ffff,
            -0x8000_0000 <= wide_b <= 0x7fff_ffff,
    ;
    let product = wide_a * wide_b;
    assert((product >> 16u32) == product / 65536) by (bit_vector);
    product >> 16u32
}

/// The value whose raw representation is `raw`, for a raw value in range.
pub closed spec fn from_view(raw: int) -> Fx16_16 {
    Fx16_16(raw as i32)
}

/// `from_view` gives back the raw value it was built from.
pub proof fn lemma_from_view(raw: int)
    requires
        in_range(raw),
    ensures
        from_view(raw)@ == raw,
{
}

impl core::ops::Add for Fx16_16 {
    type Output = Self;

    /// Saturating addition.
    fn add(self, rhs: Self) -> (r: Self)
        ensures
            r@ == clamp(self@ + rhs@),
    {
        self.saturating_add(rhs)
    }
}

impl vstd::std_specs::ops::AddSpecImpl for Fx16_16 {
    open spec fn obeys_add_spec() -> bool {
        true
    }

    open spec fn add_req(self, rhs: Self) -> bool {
        true
    }

    open spec fn add_spec(self, rhs: Self) -> Self {
        from_view(clamp(self@ + rhs@))
    }
}

impl core::ops::Sub for Fx16_16 {
    type Output = Self;

    /// Saturating subtraction.
    fn sub(self, rhs: Self) -> (r: Self)
        ensures
            r@ == clamp(self@ - rhs@),
    {
        self.saturating_sub(rhs)
    }
}

impl vstd::std_specs::ops::SubSpecImpl for Fx16_16 {
    open spec fn obeys_sub_spec() -> bool {
        true
    }

    open spec fn sub_req(self, rhs: Self) -> bool {
        true
    }

    open spec fn sub_spec(self, rhs: Self) -> Self {
        from_view(clamp(self@ - rhs@))
    }
}

impl core::ops::Mul for Fx16_16 {
    type Output = Self;

    /// Saturating multiplication, flooring the lost fraction.
    fn mul(self, rhs: Self) -> (r: Self)
        ensures
            r@ == clamp(raw_mul(self@, rhs@)),
    {
        self.saturating_mul(rhs)
    }
}

impl vstd::std_specs::ops::MulSpecImpl for Fx16_16 {
    open spec fn obeys_mul_spec() -> bool {
        true
    }

    open spec fn mul_req(self, rhs: Self) -> bool {
        true
    }

    open spec fn mul_spec(self, rhs: Self) -> Self {
        from_view(clamp(raw_mul(self@, rhs@)))
    }
}

impl core::ops::Div for Fx16_16 {
    type Output = Self;

    /// Saturating division, flooring; a zero divisor saturates by the sign
    /// of the numerator.
    fn div(self, rhs: Self) -> (r: Self)
        ensures
            r@ == raw_saturating_div(self@, rhs@),
    {
        self.saturating_div(rhs)
    }
}

impl vstd::std_specs::ops::DivSpecImpl for Fx16_16 {
    open spec fn obeys_div_spec() -> bool {
        true
    }

    open spec fn div_req(self, rhs: Self) -> bool {
        true
    }

    open spec fn div_spec(self, rhs: Self) -> Self {
        from_view(raw_saturating_div(self@, rhs@))
    }
}

impl core::ops::Neg for Fx16_16 {
    type Output = Self;

    /// Saturating negation: the minimum negates to the maximum.
    fn neg(self) -> (r: Self)
        ensures
            r@ == clamp(-self@),
    {
        self.saturating_neg()
    }
}

impl vstd::std_specs::ops::NegSpecImpl for Fx16_16 {
    open spec fn obeys_neg_spec() -> bool {
        true
    }

    open spec fn neg_req(self) -> bool {
        true
    }

    open spec fn neg_spec(self) -> Self {
        from_view(clamp(-self@))
    }
}

impl core::ops::AddAssign for Fx16_16 {
    /// Saturating in-place addition.
    fn add_assign(&mut self, rhs: Self)
        ensures
            final(self)@ == clamp(old(self)@ + rhs@),
    {
        *self = self.saturating_add(rhs);
    }
}

impl core::ops::SubAssign for Fx16_16 {
    /// Saturating in-place subtraction.
    fn sub_assign(&mut self, rhs: Self)
        ensures
            final(self)@ == clamp(old(self)@ - rhs@),
    {
        *self = self.saturating_sub(rhs);
    }
}

impl core::ops::MulAssign for Fx16_16 {
    /// Saturating in-place multiplication.
    fn mul_assign(&mut self, rhs: Self)
        ensures
            final(self)@ == clamp(raw_mul(old(self)@, rhs@)),
    {
        *self = self.saturating_mul(rhs);
    }
}

impl core::ops::DivAssign for Fx16_16 {
    /// Saturating in-place division.
    fn div_assign(&mut self, rhs: Self)
        ensures
            final(self)@ == raw_saturating_div(old(self)@, rhs@),
    {
        *self = self.saturating_div(rhs);
    }
}

impl Default for Fx16_16 {
    /// Zero.
    fn default() -> (r: Self)
        ensures
            r@ == 0,
    {
        Fx16_16(0)
    }
}

/// The saturating sum of `values` taken in order from the first: each step
/// clamps, so the sum is not associative.
pub open spec fn saturating_sum(values: Seq<Fx16_16>) -> int
    decreases values.len(),
{
    if values.len() == 0 {
        0
    } else {
        clamp(saturating_sum(values.drop_last()) + values.last()@)
    }
}

impl Fx16_16 {
    /// Adds `values` in order, saturating at each step.
    pub fn sum_of(values: &[Fx16_16]) -> (r: Fx16_16)
        ensures
            r@ == saturating_sum(values@),
    {
        let mut total = Fx16_16(0);
        let mut i: usize = 0;
        while i < values.len()
            invariant
                i <= values@.len(),
                total@ == saturating_sum(values@.take(i as int)),
            decreases values@.len() - i,
        {
            proof {
                assert(values@.take(i + 1).drop_last() =~= values@.take(i as int));
            }
            total = total.saturating_add(values[i]);
            i = i + 1;
        }
        proof {
            assert(values@.take(values@.len() as int) =~= values@);
        }
        total
    }
}

/// Saturating addition and multiplication are commutative.
pub proof fn lemma_commutative(x: Fx16_16, y: Fx16_16)
    ensures
        clamp(x@ + y@) == clamp(y@ + x@),
        clamp(raw_mul(x@, y@)) == clamp(raw_mul(y@, x@)),
{
    assert(x@ * y@ == y@ * x@) by (nonlinear_arith);
}

/// Zero, one and self-subtraction behave as identities: `x + 0 == x`,
/// `x * 1 == x`, `x / 1 == x` and `x - x == 0`, each with saturation.
pub proof fn lemma_identities(x: Fx16_16)
    ensures
        clamp(x@ + 0) == x@,
        clamp(raw_mul(x@, scale())) == x@,
        raw_saturating_div(x@, scale()) == x@,
        clamp(x@ - x@) == 0,
{
    x.lemma_view_range();
    vstd::arithmetic::div_mod::lemma_div_multiples_vanish(x@, scale());
    assert(x@ * scale() == scale() * x@) by (nonlinear_arith);
}

/// Integers in the representable range convert to fixed point and back
/// unchanged.
pub proof fn lemma_int_round_trip(v: i32)
    requires
        -32768 <= v <= 32767,
    ensures
        in_range(v * scale()),
        clamp(v * scale()) / scale() == v,
{
    vstd::arithmetic::div_mod::lemma_div_multiples_vanish(v as int, scale());
    assert(v * scale() == scale() * v) by (nonlinear_arith);
    assert(-2147483648 <= v * scale() <= 2147418112) by (nonlinear_arith)
        requires
            -32768 <= v <= 32767,
    ;
}

/// Collects the items an iterator yields, in order.
///
/// Calls `Iterator::collect` into a `Vec`, which takes items from `next`
/// until it returns `None`. For an iterator that follows the `next`
/// contract and finishes, that is the sequence it has yet to yield; of any
/// other iterator, nothing is stated.
#[verifier::external_body]
fn collect_items<I: Iterator<Item = Fx16_16>>(iter: I) -> (r: Vec<Fx16_16>)
    ensures
        vstd::std_specs::iter::IteratorSpec::obeys_prophetic_iter_laws(&iter)
            && vstd::std_specs::iter::IteratorSpec::will_return_none(&iter) ==> r@
            == vstd::std_specs::iter::IteratorSpec::remaining(&iter),
{
    iter.collect()
}

impl core::iter::Sum for Fx16_16 {
    /// Adds in iterator order, saturating at each step (not associative).
    fn sum<I: Iterator<Item = Self>>(iter: I) -> (r: Self)
        ensures
            vstd::std_specs::iter::IteratorSpec::obeys_prophetic_iter_laws(&iter)
                && vstd::std_specs::iter::IteratorSpec::will_return_none(&iter) ==> r@
                == saturating_sum(vstd::std_specs::iter::IteratorSpec::remaining(&iter)),
    {
        let values = collect_items(iter);
        Fx16_16::sum_of(values.as_slice())
    }
}

} // verus!
