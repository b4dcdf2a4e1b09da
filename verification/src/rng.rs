//! Deterministic pseudo-random number generation with named sub-streams.
//!
//! Each stream is a PCG32-XSH-RR generator. A stream's parameters derive from
//! the master seed and the stream's name alone, so a stream is reproducible
//! from its name and drawing from one never advances another.

use crate::text::utf8;
use vstd::prelude::*;

verus! {

/// The PCG32 multiplier.
pub const PCG32_MULTIPLIER: u64 = 6_364_136_223_846_793_005;

/// The domain mixed into a stream's derivation to produce its state.
pub const STATE_DOMAIN: u64 = 0x243f_6a88_85a3_08d3;

/// The domain mixed into a stream's derivation to produce its increment.
pub const STREAM_DOMAIN: u64 = 0x1319_8a2e_0370_7344;

/// `2^64`.
pub open spec fn two_64() -> nat {
    0x1_0000_0000_0000_0000
}

/// `a * b` modulo `2^64`.
pub open spec fn mul_wrap(a: u64, b: u64) -> u64 {
    ((a as nat * b as nat) % two_64()) as u64
}

/// `a + b` modulo `2^64`.
pub open spec fn add_wrap(a: u64, b: u64) -> u64 {
    ((a as nat + b as nat) % two_64()) as u64
}

/// One step of the PCG linear congruential state: `state * MULT + inc`,
/// modulo `2^64`.
pub open spec fn lcg_step(state: u64, inc: u64) -> u64 {
    add_wrap(mul_wrap(state, PCG32_MULTIPLIER), inc)
}

/// `x` rotated right by `r` bits, for `r` below 32.
pub open spec fn rotate_right(x: u32, r: u32) -> u32 {
    if r == 0 {
        x
    } else {
        (x >> r) | (x << ((32 - r) as u32))
    }
}

/// `rotate_right` is a rotation of the 32 bits of `x` by `r` places: bit `i`
/// of the result is bit `(i + r) mod 32` of `x`, as `u32::rotate_right`
/// gives. In particular a rotation by 0 leaves `x` unchanged.
pub proof fn lemma_rotate_right_bits(x: u32, r: u32, i: u32)
    requires
        r < 32,
        i < 32,
    ensures
        (rotate_right(x, r) >> i) & 1 == (x >> ((i + r) % 32) as u32) & 1,
        r == 0 ==> rotate_right(x, r) == x,
{
    if r == 0 {
    } else if i + r < 32 {
        let k = (i + r) as u32;
        assert(((((x >> r) | (x << ((32 - r) as u32))) >> i) & 1) == ((x >> k) & 1)) by (bit_vector)
            requires
                0 < r < 32,
                i < 32,
                k == i + r,
                k < 32,
        ;
    } else {
        let k = (i + r - 32) as u32;
        assert(((((x >> r) | (x << ((32 - r) as u32))) >> i) & 1) == ((x >> k) & 1)) by (bit_vector)
            requires
                0 < r < 32,
                i < 32,
                k + 32 == i + r,
        ;
    }
}

/// The XSH-RR output for a state: the xorshifted high bits, rotated by the
/// top five bits of the state.
pub open spec fn pcg_output(state: u64) -> u32 {
    rotate_right((((state >> 18u64) ^ state) >> 27u64) as u32, (state >> 59u64) as u32)
}

/// A generator's state after `n` draws.
pub open spec fn advance(state: u64, inc: u64, n: nat) -> u64
    decreases n,
{
    if n == 0 {
        state
    } else {
        lcg_step(advance(state, inc, (n - 1) as nat), inc)
    }
}

/// The SplitMix64 finaliser.
#[verifier::opaque]
pub open spec fn splitmix(value: u64) -> u64 {
    let a = add_wrap(value, 0x9e37_79b9_7f4a_7c15);
    let b = mul_wrap(a ^ (a >> 30u64), 0xbf58_476d_1ce4_e5b9);
    let c = mul_wrap(b ^ (b >> 27u64), 0x94d0_49bb_1331_11eb);
    c ^ (c >> 31u64)
}

/// The seed mixed with the byte length of a stream name and then with its
/// first `n` bytes, one at a time.
pub open spec fn mix_prefix(seed: u64, bytes: Seq<u8>, n: nat) -> u64
    decreases n,
{
    if n == 0 {
        seed ^ splitmix(bytes.len() as u64)
    } else {
        splitmix(mix_prefix(seed, bytes, (n - 1) as nat) ^ (bytes[n - 1] as u64))
    }
}

/// SplitMix64 is a bijection of `u64`: distinct inputs give distinct
/// outputs.
pub proof fn lemma_splitmix_injective(x: u64, y: u64)
    requires
        splitmix(x) == splitmix(y),
    ensures
        x == y,
{
    reveal(splitmix);
    let ax = add_wrap(x, 0x9e37_79b9_7f4a_7c15);
    let ay = add_wrap(y, 0x9e37_79b9_7f4a_7c15);
    let bx = mul_wrap(ax ^ (ax >> 30u64), 0xbf58_476d_1ce4_e5b9);
    let by = mul_wrap(ay ^ (ay >> 30u64), 0xbf58_476d_1ce4_e5b9);
    let cx = mul_wrap(bx ^ (bx >> 27u64), 0x94d0_49bb_1331_11eb);
    let cy = mul_wrap(by ^ (by >> 27u64), 0x94d0_49bb_1331_11eb);
    assert(cx ^ (cx >> 31u64) == cy ^ (cy >> 31u64) ==> cx == cy) by (bit_vector);
    let px = bx ^ (bx >> 27u64);
    let py = by ^ (by >> 27u64);
    assert(mul_wrap(px, 0x94d0_49bb_1331_11eb) == mul_wrap(py, 0x94d0_49bb_1331_11eb) ==> px == py)
        by (bit_vector);
    assert(bx ^ (bx >> 27u64) == by ^ (by >> 27u64) ==> bx == by) by (bit_vector);
    let qx = ax ^ (ax >> 30u64);
    let qy = ay ^ (ay >> 30u64);
    assert(mul_wrap(qx, 0xbf58_476d_1ce4_e5b9) == mul_wrap(qy, 0xbf58_476d_1ce4_e5b9) ==> qx == qy)
        by (bit_vector);
    assert(ax ^ (ax >> 30u64) == ay ^ (ay >> 30u64) ==> ax == ay) by (bit_vector);
    assert(add_wrap(x, 0x9e37_79b9_7f4a_7c15) == add_wrap(y, 0x9e37_79b9_7f4a_7c15) ==> x == y)
        by (bit_vector);
}

/// Mixing runs over every byte of the name: two names of the same length
/// that differ in one byte, at any position, are mixed to different values.
proof fn lemma_mix_one_byte(seed: u64, b1: Seq<u8>, b2: Seq<u8>, i: int, n: nat)
    requires
        b1.len() == b2.len(),
        0 <= i < b1.len(),
        b1[i] != b2[i],
        forall|j: int| 0 <= j < b1.len() && j != i ==> #[trigger] b1[j] == b2[j],
        n <= b1.len(),
    ensures
        n <= i ==> mix_prefix(seed, b1, n) == mix_prefix(seed, b2, n),
        n > i ==> mix_prefix(seed, b1, n) != mix_prefix(seed, b2, n),
    decreases n,
{
    if n > 0 {
        lemma_mix_one_byte(seed, b1, b2, i, (n - 1) as nat);
        let m1 = mix_prefix(seed, b1, (n - 1) as nat);
        let m2 = mix_prefix(seed, b2, (n - 1) as nat);
        let x1 = b1[n - 1] as u64;
        let x2 = b2[n - 1] as u64;
        if n - 1 == i {
            assert(x1 != x2);
            assert(m1 == m2 && x1 != x2 ==> m1 ^ x1 != m2 ^ x2) by (bit_vector);
        } else {
            assert(x1 == x2);
            assert(m1 != m2 && x1 == x2 ==> m1 ^ x1 != m2 ^ x2) by (bit_vector);
        }
        if mix_prefix(seed, b1, n) == mix_prefix(seed, b2, n) {
            lemma_splitmix_injective(m1 ^ x1, m2 ^ x2);
        }
    }
}

/// A stream's state depends on every byte of its name: two names of the
/// same length that differ in any one byte get streams with different
/// states, so no byte of a name, however far along, is ignored.
pub proof fn lemma_stream_uses_every_byte(seed: u64, b1: Seq<u8>, b2: Seq<u8>, i: int)
    requires
        b1.len() == b2.len(),
        0 <= i < b1.len(),
        b1[i] != b2[i],
        forall|j: int| 0 <= j < b1.len() && j != i ==> #[trigger] b1[j] == b2[j],
    ensures
        derived_stream(seed, b1).0 != derived_stream(seed, b2).0,
{
    reveal(derived_stream);
    lemma_mix_one_byte(seed, b1, b2, i, b1.len());
    let m1 = mix_prefix(seed, b1, b1.len());
    let m2 = mix_prefix(seed, b2, b2.len());
    assert(m1 != m2 ==> m1 ^ STATE_DOMAIN != m2 ^ STATE_DOMAIN) by (bit_vector);
    if splitmix(m1 ^ STATE_DOMAIN) == splitmix(m2 ^ STATE_DOMAIN) {
        lemma_splitmix_injective(m1 ^ STATE_DOMAIN, m2 ^ STATE_DOMAIN);
    }
}

/// The state and increment of the stream named by the UTF-8 `bytes` under
/// `seed`.
#[verifier::opaque]
pub open spec fn derived_stream(seed: u64, bytes: Seq<u8>) -> (u64, u64) {
    let mixed = mix_prefix(seed, bytes, bytes.len());
    (splitmix(mixed ^ STATE_DOMAIN), splitmix(mixed ^ STREAM_DOMAIN) | 1)
}


/// The rejection threshold for drawing below `bound`: `2^32 mod bound`.
/// Draws below it are redrawn, which removes modulo bias.
pub open spec fn range_threshold(bound: u32) -> u32 {
    ((0x1_0000_0000 - bound) % (bound as int)) as u32
}

/// The most draws a range request makes. The state sequence of a stream has
/// period `2^64` (its increment is odd), so within that many draws the
/// generator passes through every state and finds one at or above the
/// threshold; the cap only makes termination explicit.
pub open spec fn draw_cap() -> nat {
    0xffff_ffff_ffff_ffff
}

/// The value and final state of a range draw below `bound` from `state`,
/// with at most `fuel + 1` draws: the first draw at or above the threshold,
/// reduced modulo `bound`.
pub open spec fn range_draw(state: u64, inc: u64, bound: u32, fuel: nat) -> (u32, u64)
    decreases fuel,
{
    let value = pcg_output(state);
    let next = lcg_step(state, inc);
    if value >= range_threshold(bound) || fuel == 0 {
        ((value % bound) as u32, next)
    } else {
        range_draw(next, inc, bound, (fuel - 1) as nat)
    }
}

/// How many draws a range request below `bound` accepts for each result:
/// the draws at or above the threshold fill that many whole blocks of
/// `bound` consecutive values.
pub open spec fn accepted_per_value(bound: u32) -> int {
    (0x1_0000_0000 - range_threshold(bound)) / (bound as int)
}

/// Whether a range request below `bound` accepts the draw `v`: it is at or
/// above the threshold.
pub open spec fn accepted(bound: u32, v: int) -> bool {
    range_threshold(bound) <= v < 0x1_0000_0000
}

/// The `j`-th accepted draw that reduces to `r` below `bound`.
pub open spec fn accepted_draw(bound: u32, r: int, j: int) -> int {
    let t = range_threshold(bound) as int;
    let c = if r >= t {
        r - t
    } else {
        r + bound - t
    };
    t + c + j * bound
}

/// Range draws are unbiased: for every result `r` below `bound`, the
/// accepted draws (those at or above the threshold) that reduce to `r` are
/// exactly `accepted_draw(bound, r, j)` for `j` below
/// `accepted_per_value(bound)`, the same number for every `r`.
pub proof fn lemma_range_unbiased(bound: u32, r: int)
    requires
        bound > 0,
        0 <= r < bound,
    ensures
        range_threshold(bound) < bound,
        (0x1_0000_0000 - range_threshold(bound)) % (bound as int) == 0,
        accepted_per_value(bound) >= 1,
        forall|j: int|
            0 <= j < accepted_per_value(bound) ==> accepted(bound, #[trigger] accepted_draw(bound, r, j))
                && accepted_draw(bound, r, j) % (bound as int) == r,
        forall|v: int|
            #[trigger] accepted(bound, v) && v % (bound as int) == r ==> ({
                let j = (v - range_threshold(bound)) / (bound as int);
                &&& 0 <= j < accepted_per_value(bound)
                &&& v == accepted_draw(bound, r, j)
            }),
{
    let n = bound as int;
    let t = range_threshold(bound) as int;
    let q = (0x1_0000_0000 - n) / n;
    vstd::arithmetic::div_mod::lemma_fundamental_div_mod(0x1_0000_0000 - n, n);
    let m = (0x1_0000_0000 - n) % n;
    assert(0 <= m < n);
    assert(t == m);
    assert(0x1_0000_0000 - n == n * q + t);
    assert(n * q + n == n * (q + 1)) by (nonlinear_arith);
    assert(0x1_0000_0000 - t == n * (q + 1));
    vstd::arithmetic::div_mod::lemma_mod_multiples_basic(q + 1, n);
    assert((q + 1) * n == n * (q + 1)) by (nonlinear_arith);
    vstd::arithmetic::div_mod::lemma_div_multiples_vanish(q + 1, n);
    let k = accepted_per_value(bound);
    assert(k == q + 1);
    assert(q >= 0) by (nonlinear_arith)
        requires
            q == (0x1_0000_0000 - n) / n,
            0 < n <= 0xffff_ffff,
    ;
    let c = if r >= t {
        r - t
    } else {
        r + n - t
    };
    assert(0 <= c < n);
    assert forall|j: int| 0 <= j < k implies accepted(bound, #[trigger] accepted_draw(bound, r, j))
        && accepted_draw(bound, r, j) % n == r by {
        assert(accepted_draw(bound, r, j) == t + c + j * n);
        assert(j * n <= (k - 1) * n) by (nonlinear_arith)
            requires
                0 <= j < k,
                n > 0,
        ;
        assert((k - 1) * n == n * (q + 1) - n) by (nonlinear_arith)
            requires
                k == q + 1,
        ;
        assert(0 <= j * n) by (nonlinear_arith)
            requires
                0 <= j,
                n > 0,
        ;
        vstd::arithmetic::div_mod::lemma_mod_multiples_vanish(j, t + c, n);
        assert(n * j == j * n) by (nonlinear_arith);
        if r >= t {
            vstd::arithmetic::div_mod::lemma_small_mod(r as nat, n as nat);
        } else {
            vstd::arithmetic::div_mod::lemma_mod_multiples_vanish(1, r, n);
            vstd::arithmetic::div_mod::lemma_small_mod(r as nat, n as nat);
        }
    }
    assert forall|v: int| #[trigger] accepted(bound, v) && v % n == r implies ({
        let j = (v - t) / n;
        &&& 0 <= j < k
        &&& v == accepted_draw(bound, r, j)
    }) by {
        let w = v - t;
        let j = w / n;
        let e = w % n;
        vstd::arithmetic::div_mod::lemma_fundamental_div_mod(w, n);
        assert(0 <= e < n);
        assert(0 <= j) by (nonlinear_arith)
            requires
                j == w / n,
                w >= 0,
                n > 0,
        ;
        assert(j < k) by (nonlinear_arith)
            requires
                w == n * j + e,
                0 <= e,
                w < n * k,
                n > 0,
        ;
        assert(v == t + e + n * j);
        vstd::arithmetic::div_mod::lemma_mod_multiples_vanish(j, t + e, n);
        assert((n * j + (t + e)) % n == (t + e) % n);
        assert(v % n == (t + e) % n);
        if t + e < n {
            vstd::arithmetic::div_mod::lemma_small_mod((t + e) as nat, n as nat);
            assert(r == t + e);
        } else {
            vstd::arithmetic::div_mod::lemma_mod_multiples_vanish(1, t + e - n, n);
            vstd::arithmetic::div_mod::lemma_small_mod((t + e - n) as nat, n as nat);
            assert(r == t + e - n);
        }
        assert(e == c);
        assert(accepted_draw(bound, r, j) == t + c + j * n);
        assert(n * j == j * n) by (nonlinear_arith);
    }
}

/// `v` with its top bit flipped: the `u32` that orders as the `i32` `v`.
pub open spec fn biased(v: i32) -> int {
    v as int + 0x8000_0000
}


/// Whether byte string `a` orders strictly before `b` lexicographically: the
/// order of `str` and `String`.
pub open spec fn lex_less(a: Seq<u8>, b: Seq<u8>) -> bool
    decreases a.len(),
{
    if a.len() == 0 {
        b.len() > 0
    } else if b.len() == 0 {
        false
    } else if a[0] != b[0] {
        a[0] < b[0]
    } else {
        lex_less(a.drop_first(), b.drop_first())
    }
}

/// Lexicographic order is total: of two byte strings, one orders first
/// unless they are equal.
pub proof fn lemma_lex_trichotomy(a: Seq<u8>, b: Seq<u8>)
    ensures
        lex_less(a, b) || lex_less(b, a) || a == b,
        !(lex_less(a, b) && lex_less(b, a)),
    decreases a.len(),
{
    if a.len() > 0 && b.len() > 0 {
        lemma_lex_trichotomy(a.drop_first(), b.drop_first());
        if a[0] == b[0] && a.drop_first() == b.drop_first() {
            assert(a =~= seq![a[0]] + a.drop_first());
            assert(b =~= seq![b[0]] + b.drop_first());
        }
    } else if a.len() > 0 {
    } else if b.len() > 0 {
    } else {
        assert(a =~= b);
    }
}

/// No byte string orders before itself.
pub proof fn lemma_lex_irreflexive(a: Seq<u8>)
    ensures
        !lex_less(a, a),
    decreases a.len(),
{
    if a.len() > 0 {
        lemma_lex_irreflexive(a.drop_first());
    }
}

/// Lexicographic order is transitive.
pub proof fn lemma_lex_transitive(a: Seq<u8>, b: Seq<u8>, c: Seq<u8>)
    requires
        lex_less(a, b),
        lex_less(b, c),
    ensures
        lex_less(a, c),
    decreases a.len(),
{
    if a.len() > 0 && b.len() > 0 && c.len() > 0 && a[0] == b[0] && b[0] == c[0] {
        lemma_lex_transitive(a.drop_first(), b.drop_first(), c.drop_first());
    }
}

/// A proper prefix orders first: `lex_less` is the order of `str`, where a
/// shorter string that begins the longer one comes before it.
pub proof fn lemma_lex_prefix_first(a: Seq<u8>, b: Seq<u8>)
    requires
        a.len() < b.len(),
        b.take(a.len() as int) == a,
    ensures
        lex_less(a, b),
    decreases a.len(),
{
    if a.len() > 0 {
        assert(a[0] == b.take(a.len() as int)[0]);
        assert(b.drop_first().take(a.drop_first().len() as int) =~= a.drop_first()) by {
            assert forall|j: int| 0 <= j < a.len() - 1 implies b.drop_first()[j] == a.drop_first()[j] by {
                assert(b.take(a.len() as int)[j + 1] == a[j + 1]);
            }
        }
        lemma_lex_prefix_first(a.drop_first(), b.drop_first());
    }
}

/// The first differing byte decides, whatever the lengths: if `a` and `b`
/// agree before position `i` and `a[i] < b[i]`, then `a` orders first.
pub proof fn lemma_lex_first_difference(a: Seq<u8>, b: Seq<u8>, i: int)
    requires
        0 <= i < a.len(),
        i < b.len(),
        forall|j: int| 0 <= j < i ==> #[trigger] a[j] == b[j],
        a[i] < b[i],
    ensures
        lex_less(a, b),
    decreases i,
{
    if i > 0 {
        assert(a[0] == b[0]);
        assert forall|j: int| 0 <= j < i - 1 implies #[trigger] a.drop_first()[j] == b.drop_first()[j] by {
            assert(a[j + 1] == b[j + 1]);
        }
        lemma_lex_first_difference(a.drop_first(), b.drop_first(), i - 1);
    }
}

/// Compares two byte strings lexicographically.
fn bytes_less(a: &[u8], b: &[u8]) -> (r: bool)
    ensures
        r == lex_less(a@, b@),
{
    let mut i: usize = 0;
    assert(a@.skip(0) =~= a@);
    assert(b@.skip(0) =~= b@);
    while i < a.len() && i < b.len()
        invariant
            i <= a@.len(),
            i <= b@.len(),
            lex_less(a@, b@) == lex_less(a@.skip(i as int), b@.skip(i as int)),
        decreases a@.len() - i,
    {
        if a[i] != b[i] {
            return a[i] < b[i];
        }
        proof {
            assert(a@.skip(i as int).drop_first() =~= a@.skip(i + 1));
            assert(b@.skip(i as int).drop_first() =~= b@.skip(i + 1));
        }
        i = i + 1;
    }
    i < b.len()
}

/// Whether the names of `entries` are in strictly ascending byte order.
#[verifier::opaque]
pub open spec fn names_ascending(entries: Seq<(Seq<char>, (u64, u64))>) -> bool {
    forall|i: int, j: int|
        0 <= i < j < entries.len() ==> lex_less(utf8(#[trigger] entries[i].0), utf8(#[trigger] entries[j].0))
}

/// The map from stream names to stream states that `entries` lists.
pub open spec fn entries_map(entries: Seq<(Seq<char>, (u64, u64))>) -> Map<Seq<char>, (u64, u64)>
    decreases entries.len(),
{
    if entries.len() == 0 {
        Map::empty()
    } else {
        entries_map(entries.drop_last()).insert(entries.last().0, entries.last().1)
    }
}

/// Distinct names have distinct encodings.
proof fn lemma_utf8_injective(a: Seq<char>, b: Seq<char>)
    requires
        utf8(a) == utf8(b),
    ensures
        a == b,
{
    vstd::utf8::encode_utf8_decode_utf8(a);
    vstd::utf8::encode_utf8_decode_utf8(b);
}

/// In an ascending listing, a name is a key of the map exactly when some
/// entry carries it, and the map gives that entry's state.
proof fn lemma_entries_map<'a>(entries: Seq<(Seq<char>, (u64, u64))>)
    requires
        names_ascending(entries),
    ensures
        forall|k: Seq<char>|
            #[trigger] entries_map(entries).contains_key(k) <==> exists|i: int|
                0 <= i < entries.len() && entries[i].0 == k,
        forall|i: int|
            0 <= i < entries.len() ==> #[trigger] entries_map(entries)[entries[i].0] == entries[i].1,
    decreases entries.len(),
{
    reveal(names_ascending);
    if entries.len() > 0 {
        let rest = entries.drop_last();
        assert(names_ascending(rest));
        lemma_entries_map(rest);
        let n = entries.len() - 1;
        assert forall|i: int| 0 <= i < entries.len() implies #[trigger] entries_map(entries)[entries[i].0]
            == entries[i].1 by {
            if i < n {
                assert(lex_less(utf8(entries[i].0), utf8(entries[n].0)));
                lemma_lex_irreflexive(utf8(entries[i].0));
                assert(entries[i].0 != entries[n].0);
                assert(rest[i] == entries[i]);
                assert(entries_map(rest)[rest[i].0] == rest[i].1);
                assert(entries_map(rest).contains_key(rest[i].0));
            }
        }
        assert forall|k: Seq<char>| #[trigger] entries_map(entries).contains_key(k) implies exists|i: int|
            0 <= i < entries.len() && entries[i].0 == k by {
            if k != entries[n].0 {
                assert(entries_map(rest).contains_key(k));
                let i = choose|i: int| 0 <= i < rest.len() && rest[i].0 == k;
                assert(entries[i] == rest[i]);
            }
        }
        assert forall|k: Seq<char>| (exists|i: int| 0 <= i < entries.len() && entries[i].0 == k) implies #[trigger] entries_map(entries).contains_key(k) by {
            let i = choose|i: int| 0 <= i < entries.len() && entries[i].0 == k;
            if i < n {
                assert(rest[i] == entries[i]);
                assert(entries_map(rest).contains_key(rest[i].0));
            }
        }
    }
}

/// Inserting a name at its ascending position keeps the listing ascending
/// and adds the name to the map.
proof fn lemma_insert_ascending(
    entries: Seq<(Seq<char>, (u64, u64))>,
    i: int,
    name: Seq<char>,
    v: (u64, u64),
)
    requires
        names_ascending(entries),
        0 <= i <= entries.len(),
        forall|j: int| 0 <= j < i ==> lex_less(utf8(#[trigger] entries[j].0), utf8(name)),
        i < entries.len() ==> lex_less(utf8(name), utf8(entries[i].0)),
    ensures
        names_ascending(entries.insert(i, (name, v))),
        entries_map(entries.insert(i, (name, v))) == entries_map(entries).insert(name, v),
{
    reveal(names_ascending);
    let e = entries.insert(i, (name, v));
    assert forall|a: int, b: int| 0 <= a < b < e.len() implies lex_less(
        utf8(#[trigger] e[a].0),
        utf8(#[trigger] e[b].0),
    ) by {
        if a < i && b == i {
        } else if a < i && b > i {
            assert(e[b] == entries[b - 1]);
            lemma_lex_transitive(utf8(e[a].0), utf8(name), utf8(entries[i].0));
            if b - 1 > i {
                lemma_lex_transitive(utf8(e[a].0), utf8(entries[i].0), utf8(e[b].0));
            }
        } else if a == i {
            assert(e[b] == entries[b - 1]);
            if b - 1 > i {
                lemma_lex_transitive(utf8(name), utf8(entries[i].0), utf8(e[b].0));
            }
        } else if a > i {
            assert(e[a] == entries[a - 1]);
            assert(e[b] == entries[b - 1]);
        } else {
            assert(e[a] == entries[a]);
            assert(e[b] == entries[b]);
        }
    }
    lemma_entries_map(entries);
    lemma_entries_map(e);
    let m = entries_map(entries).insert(name, v);
    assert forall|k: Seq<char>| #[trigger] entries_map(e).contains_key(k) <==> m.contains_key(k) by {
        if k == name {
            assert(e[i].0 == k);
        }
        if entries_map(e).contains_key(k) {
            let j = choose|j: int| 0 <= j < e.len() && e[j].0 == k;
            if j < i {
                assert(entries[j].0 == k);
                assert(entries_map(entries).contains_key(k));
            } else if j > i {
                assert(entries[j - 1].0 == k);
                assert(entries_map(entries).contains_key(k));
            }
        }
        if entries_map(entries).contains_key(k) {
            let j = choose|j: int| 0 <= j < entries.len() && entries[j].0 == k;
            if j < i {
                assert(e[j].0 == k);
            } else {
                assert(e[j + 1].0 == k);
            }
        }
    }
    assert forall|k: Seq<char>| #[trigger] entries_map(e).contains_key(k) implies entries_map(e)[k] == m[k] by {
        let j = choose|j: int| 0 <= j < e.len() && e[j].0 == k;
        if j < i {
            assert(e[j] == entries[j]);
            lemma_lex_irreflexive(utf8(name));
        } else if j > i {
            assert(e[j] == entries[j - 1]);
            lemma_lex_irreflexive(utf8(name));
            if j - 1 > i {
                lemma_lex_transitive(utf8(name), utf8(entries[i].0), utf8(entries[j - 1].0));
            }
        }
    }
    assert(entries_map(e) =~= m);
}

/// Changing the state of a listed stream keeps the listing ascending and
/// changes only that stream in the map.
proof fn lemma_update_ascending(entries: Seq<(Seq<char>, (u64, u64))>, i: int, v: (u64, u64))
    requires
        names_ascending(entries),
        0 <= i < entries.len(),
    ensures
        names_ascending(entries.update(i, (entries[i].0, v))),
        entries_map(entries.update(i, (entries[i].0, v))) == entries_map(entries).insert(
            entries[i].0,
            v,
        ),
{
    reveal(names_ascending);
    let e = entries.update(i, (entries[i].0, v));
    assert forall|a: int, b: int| 0 <= a < b < e.len() implies lex_less(
        utf8(#[trigger] e[a].0),
        utf8(#[trigger] e[b].0),
    ) by {
        assert(e[a].0 == entries[a].0);
        assert(e[b].0 == entries[b].0);
    }
    lemma_entries_map(entries);
    lemma_entries_map(e);
    let m = entries_map(entries).insert(entries[i].0, v);
    assert forall|k: Seq<char>| #[trigger] entries_map(e).contains_key(k) <==> m.contains_key(k) by {
        if entries_map(e).contains_key(k) {
            let j = choose|j: int| 0 <= j < e.len() && e[j].0 == k;
            assert(entries[j].0 == k);
        }
        if entries_map(entries).contains_key(k) {
            let j = choose|j: int| 0 <= j < entries.len() && entries[j].0 == k;
            assert(e[j].0 == k);
        }
    }
    assert forall|k: Seq<char>| #[trigger] entries_map(e).contains_key(k) implies entries_map(e)[k] == m[k] by {
        let j = choose|j: int| 0 <= j < e.len() && e[j].0 == k;
        if j != i {
            assert(e[j] == entries[j]);
            if j < i {
                lemma_lex_irreflexive(utf8(entries[j].0));
                assert(lex_less(utf8(entries[j].0), utf8(entries[i].0)));
            } else {
                lemma_lex_irreflexive(utf8(entries[j].0));
                assert(lex_less(utf8(entries[i].0), utf8(entries[j].0)));
            }
        }
    }
    assert(entries_map(e) =~= m);
}

/// Two ascending listings of the same streams are the same listing.
proof fn lemma_ascending_unique(a: Seq<(Seq<char>, (u64, u64))>, b: Seq<(Seq<char>, (u64, u64))>)
    requires
        names_ascending(a),
        names_ascending(b),
        entries_map(a) == entries_map(b),
    ensures
        a == b,
    decreases a.len() + b.len(),
{
    lemma_entries_map(a);
    lemma_entries_map(b);
    if a.len() == 0 || b.len() == 0 {
        if a.len() > 0 {
            assert(entries_map(a).contains_key(a[0].0));
        } else if b.len() > 0 {
            assert(entries_map(b).contains_key(b[0].0));
        }
        assert(a =~= b);
    } else {
        reveal(names_ascending);
        let la = a.len() - 1;
        let lb = b.len() - 1;
        let ka = a[la].0;
        let kb = b[lb].0;
        assert(entries_map(a).contains_key(ka));
        assert(entries_map(b).contains_key(kb));
        if ka != kb {
            let i = choose|i: int| 0 <= i < a.len() && a[i].0 == kb;
            let j = choose|j: int| 0 <= j < b.len() && b[j].0 == ka;
            assert(lex_less(utf8(a[i].0), utf8(a[la].0)));
            assert(lex_less(utf8(b[j].0), utf8(b[lb].0)));
            lemma_lex_trichotomy(utf8(ka), utf8(kb));
        }
        assert(a[la].1 == entries_map(a)[ka]);
        assert(b[lb].1 == entries_map(b)[kb]);
        let ra = a.drop_last();
        let rb = b.drop_last();
        lemma_entries_map(ra);
        lemma_entries_map(rb);
        assert(!entries_map(ra).contains_key(ka)) by {
            if entries_map(ra).contains_key(ka) {
                let i = choose|i: int| 0 <= i < ra.len() && ra[i].0 == ka;
                assert(a[i] == ra[i]);
                assert(lex_less(utf8(a[i].0), utf8(a[la].0)));
                lemma_lex_irreflexive(utf8(ka));
            }
        }
        assert(!entries_map(rb).contains_key(kb)) by {
            if entries_map(rb).contains_key(kb) {
                let j = choose|j: int| 0 <= j < rb.len() && rb[j].0 == kb;
                assert(b[j] == rb[j]);
                assert(lex_less(utf8(b[j].0), utf8(b[lb].0)));
                lemma_lex_irreflexive(utf8(kb));
            }
        }
        assert(entries_map(ra) =~= entries_map(a).remove(ka));
        assert(entries_map(rb) =~= entries_map(b).remove(kb));
        assert(names_ascending(ra));
        assert(names_ascending(rb));
        lemma_ascending_unique(ra, rb);
        assert(a =~= ra.push(a[la]));
        assert(b =~= rb.push(b[lb]));
    }
}

/// The streams after a series of updates, each setting one named stream's
/// state: what a series of `stream` borrows leaves, each followed by draws
/// through the borrowed stream.
pub open spec fn after_updates(
    m: Map<Seq<char>, (u64, u64)>,
    updates: Seq<(Seq<char>, (u64, u64))>,
) -> Map<Seq<char>, (u64, u64)>
    decreases updates.len(),
{
    if updates.len() == 0 {
        m
    } else {
        after_updates(m, updates.drop_last()).insert(updates.last().0, updates.last().1)
    }
}

/// Streams are independent: any number of draws from other streams, and
/// creating other streams, leave a stream exactly as it was, present or
/// absent.
pub proof fn lemma_streams_independent(
    m: Map<Seq<char>, (u64, u64)>,
    updates: Seq<(Seq<char>, (u64, u64))>,
    name: Seq<char>,
)
    requires
        forall|k: int| 0 <= k < updates.len() ==> (#[trigger] updates[k]).0 != name,
    ensures
        after_updates(m, updates).contains_key(name) == m.contains_key(name),
        m.contains_key(name) ==> after_updates(m, updates)[name] == m[name],
    decreases updates.len(),
{
    if updates.len() > 0 {
        let rest = updates.drop_last();
        assert forall|k: int| 0 <= k < rest.len() implies (#[trigger] rest[k]).0 != name by {
            assert(rest[k] == updates[k]);
        }
        lemma_streams_independent(m, rest, name);
        assert(updates.last() == updates[updates.len() - 1]);
    }
}

/// One PCG32-XSH-RR stream.
///
/// The two private `u64` fields are the complete 16-byte stream state: its
/// view is `(state, increment)`. Cloning or serializing a stream preserves
/// the exact point in its sequence.
#[derive(Debug, PartialEq, Eq)]
pub struct Pcg32 {
    state: u64,
    inc: u64,
}

impl Clone for Pcg32 {
    /// The same stream at the same point of its sequence.
    fn clone(&self) -> (r: Self)
        ensures
            r@ == self@,
    {
        proof {
            use_type_invariant(self);
        }
        Pcg32 { state: self.state, inc: self.inc }
    }
}

impl View for Pcg32 {
    type V = (u64, u64);

    closed spec fn view(&self) -> (u64, u64) {
        (self.state, self.inc)
    }
}

/// The SplitMix64 finaliser.
fn splitmix64(value: u64) -> (r: u64)
    ensures
        r == splitmix(value),
{
    reveal(splitmix);
    let mut value = value.wrapping_add(0x9e37_79b9_7f4a_7c15);
    value = (value ^ (value >> 30u32)).wrapping_mul(0xbf58_476d_1ce4_e5b9);
    value = (value ^ (value >> 27u32)).wrapping_mul(0x94d0_49bb_1331_11eb);
    value ^ (value >> 31u32)
}

impl Pcg32 {
    /// A stream's increment is odd: PCG selects its sequence with an odd
    /// increment, which gives the state sequence its full period.
    #[verifier::type_invariant]
    closed spec fn increment_odd(self) -> bool {
        self.inc % 2 == 1
    }

    /// A stream with the given state and increment, the increment forced odd.
    fn from_state_and_stream(state: u64, inc: u64) -> (r: Self)
        ensures
            r@ == (state, inc | 1),
    {
        assert((inc | 1) % 2 == 1) by (bit_vector);
        Pcg32 { state, inc: inc | 1 }
    }

    /// The stream with the given serialized state and increment, or `None`
    /// when the increment is even: PCG selects its sequence with an odd
    /// increment.
    pub fn try_from_parts(state: u64, inc: u64) -> (r: Option<Self>)
        ensures
            inc % 2 == 1 ==> (r matches Some(p) && p@ == (state, inc)),
            inc % 2 == 0 ==> r is None,
    {
        assert((inc & 1) == inc % 2) by (bit_vector);
        if inc & 1 == 0 {
            None
        } else {
            Some(Pcg32 { state, inc })
        }
    }

    /// The serialized parts of the stream: its state and its increment.
    pub fn to_parts(&self) -> (r: (u64, u64))
        ensures
            r == self@,
            r.1 % 2 == 1,
    {
        proof {
            use_type_invariant(self);
        }
        (self.state, self.inc)
    }

    /// Advances the stream and returns its next 32 bits.
    pub fn next_u32(&mut self) -> (r: u32)
        ensures
            r == pcg_output(old(self)@.0),
            final(self)@ == (lcg_step(old(self)@.0, old(self)@.1), old(self)@.1),
    {
        proof {
            use_type_invariant(&*self);
        }
        let old_state = self.state;
        let inc = self.inc;
        let multiplied = old_state.wrapping_mul(PCG32_MULTIPLIER);
        let next = multiplied.wrapping_add(inc);
        assert(next == lcg_step(old_state, inc));
        self.state = next;
        assert(self@ == (lcg_step(old_state, inc), inc));
        let xorshifted = (((old_state >> 18u32) ^ old_state) >> 27u32) as u32;
        let rotation = (old_state >> 59u32) as u32;
        assert((old_state >> 59u32) < 32) by (bit_vector);
        if rotation == 0 {
            xorshifted
        } else {
            (xorshifted >> rotation) | (xorshifted << (32 - rotation))
        }
    }

    /// Advances the stream twice and returns 64 bits, with the first draw in
    /// the high half.
    pub fn next_u64(&mut self) -> (r: u64)
        ensures
            r == pcg_output(old(self)@.0) as nat * 0x1_0000_0000 + pcg_output(
                lcg_step(old(self)@.0, old(self)@.1),
            ) as nat,
            final(self)@ == (advance(old(self)@.0, old(self)@.1, 2), old(self)@.1),
    {
        let high = self.next_u32() as u64;
        let low = self.next_u32() as u64;
        assert((high << 32u32) | low == high * 0x1_0000_0000 + low) by (bit_vector)
            requires
                high < 0x1_0000_0000,
                low < 0x1_0000_0000,
        ;
        proof {
            reveal_with_fuel(advance, 3);
        }
        (high << 32u32) | low
    }

    /// Returns a value uniformly distributed over `[0, bound)`.
    ///
    /// Values below the rejection threshold are redrawn, avoiding modulo
    /// bias.
    pub fn gen_range_u32(&mut self, bound: u32) -> (r: u32)
        requires
            bound > 0,
        ensures
            r < bound,
            (r, final(self)@.0) == range_draw(old(self)@.0, old(self)@.1, bound, draw_cap()),
            final(self)@.1 == old(self)@.1,
    {
        let threshold = 0u32.wrapping_sub(bound) % bound;
        let mut fuel: u64 = 0xffff_ffff_ffff_ffff;
        loop
            invariant
                threshold == range_threshold(bound),
                bound > 0,
                self@.1 == old(self)@.1,
                range_draw(self@.0, self@.1, bound, fuel as nat) == range_draw(
                    old(self)@.0,
                    old(self)@.1,
                    bound,
                    draw_cap(),
                ),
            decreases fuel,
        {
            let value = self.next_u32();
            if value >= threshold || fuel == 0 {
                return value % bound;
            }
            fuel = fuel - 1;
        }
    }

    /// Returns a value uniformly distributed over the inclusive range
    /// `[lo, hi]`.
    ///
    /// Equal endpoints return that endpoint without drawing. If `lo > hi`,
    /// the range is invalid and this method returns `lo` without drawing.
    pub fn gen_range_i32(&mut self, lo: i32, hi: i32) -> (r: i32)
        ensures
            lo >= hi ==> r == lo && final(self)@ == old(self)@,
            lo < hi ==> lo <= r <= hi,
            lo < hi && biased(hi) - biased(lo) + 1 == 0x1_0000_0000 ==> r == lo + pcg_output(
                old(self)@.0,
            ) && final(self)@ == (lcg_step(old(self)@.0, old(self)@.1), old(self)@.1),
            lo < hi && biased(hi) - biased(lo) + 1 < 0x1_0000_0000 ==> ({
                let span = (biased(hi) - biased(lo) + 1) as u32;
                let draw = range_draw(old(self)@.0, old(self)@.1, span, draw_cap());
                r == lo + draw.0 && final(self)@ == (draw.1, old(self)@.1)
            }),
    {
        if lo >= hi {
            return lo;
        }
        let lo_ordered = (lo as u32) ^ 0x8000_0000;
        let hi_ordered = (hi as u32) ^ 0x8000_0000;
        assert(lo_ordered == biased(lo)) by (bit_vector)
            requires
                lo_ordered == (lo as u32) ^ 0x8000_0000,
        ;
        assert(hi_ordered == biased(hi)) by (bit_vector)
            requires
                hi_ordered == (hi as u32) ^ 0x8000_0000,
        ;
        let span = hi_ordered as u64 - lo_ordered as u64 + 1;
        let offset = if span == 0x1_0000_0000 {
            self.next_u32()
        } else {
            self.gen_range_u32(span as u32)
        };
        let sum = lo_ordered + offset;
        let r = (sum ^ 0x8000_0000) as i32;
        assert(r == sum as int - 0x8000_0000) by (bit_vector)
            requires
                r == (sum ^ 0x8000_0000) as i32,
        ;
        r
    }

    /// Returns one pseudo-random bit.
    pub fn gen_bool(&mut self) -> (r: bool)
        ensures
            r == (pcg_output(old(self)@.0) % 2 == 1),
            final(self)@ == (lcg_step(old(self)@.0, old(self)@.1), old(self)@.1),
    {
        let value = self.next_u32();
        assert((value & 1) == value % 2) by (bit_vector);
        value & 1 != 0
    }
}

/// The stream for `name` under `seed`: its state and increment are pure
/// functions of the seed and the name's bytes.
fn derive_stream(seed: u64, name: &str) -> (r: Pcg32)
    ensures
        r@ == derived_stream(seed, utf8(name@)),
{
    let bytes = name.as_bytes();
    let mut mixed = seed ^ splitmix64(bytes.len() as u64);
    let mut i: usize = 0;
    while i < bytes.len()
        invariant
            bytes@ == utf8(name@),
            i <= bytes@.len(),
            mixed == mix_prefix(seed, bytes@, i as nat),
        decreases bytes@.len() - i,
    {
        mixed = splitmix64(mixed ^ (bytes[i] as u64));
        i = i + 1;
    }
    let state = splitmix64(mixed ^ STATE_DOMAIN);
    let inc = splitmix64(mixed ^ STREAM_DOMAIN) | 1;
    assert((inc | 1) == inc) by (bit_vector)
        requires
            inc == splitmix(mixed ^ STREAM_DOMAIN) | 1,
    ;
    proof {
        reveal(derived_stream);
    }
    Pcg32::from_state_and_stream(state, inc)
}

/// The simulation's single source of pseudo-randomness.
///
/// Streams are created lazily from only the master seed and their name. They
/// are kept in ascending byte order of their names, so the value does not
/// depend on the order in which streams were first used.
#[derive(Debug, Clone, PartialEq, Eq)]
pub struct DeterministicRng {
    seed: u64,
    streams: Vec<(String, Pcg32)>,
}

/// A listing of named streams by value: each name with its stream's
/// `(state, increment)`.
pub open spec fn listing(v: Seq<(String, Pcg32)>) -> Seq<(Seq<char>, (u64, u64))> {
    v.map_values(|e: (String, Pcg32)| (e.0@, e.1@))
}

impl DeterministicRng {
    /// The master seed.
    pub closed spec fn seed_of(&self) -> u64 {
        self.seed
    }

    /// The touched streams, as `(name, (state, increment))` in the order the
    /// generator keeps them.
    pub closed spec fn entries(&self) -> Seq<(Seq<char>, (u64, u64))> {
        listing(self.streams@)
    }

    /// The touched streams by name.
    pub open spec fn stream_map(&self) -> Map<Seq<char>, (u64, u64)> {
        entries_map(self.entries())
    }

    /// The generator's invariant: streams are listed in strictly ascending
    /// byte order of their names.
    pub open spec fn wf(&self) -> bool {
        names_ascending(self.entries())
    }

    /// Creates an RNG with no touched streams and the given master seed.
    pub fn from_seed(seed: u64) -> (r: Self)
        ensures
            r.wf(),
            r.seed_of() == seed,
            r.entries() == Seq::<(Seq<char>, (u64, u64))>::empty(),
            r.stream_map() == Map::<Seq<char>, (u64, u64)>::empty(),
    {
        let r = DeterministicRng { seed, streams: Vec::new() };
        assert(r.entries() =~= Seq::<(Seq<char>, (u64, u64))>::empty());
        proof {
            reveal(names_ascending);
        }
        r
    }


    /// Borrows a named sub-stream, creating it on first use.
    ///
    /// A new stream's state and selection are pure functions of the seed and
    /// the name, so creating streams in a different order does not change
    /// their sequences. Whatever the caller does through the borrow is the
    /// stream's new state.
    #[verifier::rlimit(50)]
    pub fn stream(&mut self, name: &str) -> (r: &mut Pcg32)
        requires
            old(self).wf(),
        ensures
            final(self).seed_of() == old(self).seed_of(),
            final(self).wf(),
            old(self).stream_map().contains_key(name@) ==> (*r)@ == old(self).stream_map()[name@],
            !old(self).stream_map().contains_key(name@) ==> (*r)@ == derived_stream(
                old(self).seed_of(),
                utf8(name@),
            ),
            final(self).stream_map() == old(self).stream_map().insert(name@, (*final(r))@),
    {
        let ghost old_entries = self.entries();
        let (i, found) = self.position(name);
        if !found {
            let stream = derive_stream(self.seed, name);
            self.insert_at(i, name, stream);
            proof {
                lemma_insert_ascending(old_entries, i as int, name@, stream@);
            }
        }
        let ghost mid_entries = self.entries();
        proof {
            lemma_entries_map(mid_entries);
            if found {
                assert(mid_entries[i as int].0 == name@);
                assert(entries_map(old_entries).insert(name@, mid_entries[i as int].1) =~= entries_map(old_entries));
            }
        }
        let r = self.stream_at(i);
        proof {
            lemma_update_ascending(mid_entries, i as int, (*final(r))@);
        }
        r
    }

    /// Borrows the stream listed at position `i`.
    fn stream_at(&mut self, i: usize) -> (r: &mut Pcg32)
        requires
            i < old(self).entries().len(),
        ensures
            *r == old(self).streams@[i as int].1,
            final(self).seed_of() == old(self).seed_of(),
            final(self).entries() == old(self).entries().update(
                i as int,
                (old(self).entries()[i as int].0, (*final(r))@),
            ),
    {
        &mut self.streams[i].1
    }

    /// Lists a new stream at position `i`.
    fn insert_at(&mut self, i: usize, name: &str, stream: Pcg32)
        requires
            i <= old(self).entries().len(),
        ensures
            final(self).entries() == old(self).entries().insert(i as int, (name@, stream@)),
            final(self).seed_of() == old(self).seed_of(),
    {
        self.streams.insert(i, (name.to_owned(), stream));
        assert(self.entries() =~= old(self).entries().insert(i as int, (name@, stream@)));
    }

    /// The position of `name` in the listing, or where it would be inserted,
    /// and whether it is there.
    fn position(&self, name: &str) -> (r: (usize, bool))
        requires
            self.wf(),
        ensures
            r.0 <= self.entries().len(),
            forall|j: int| 0 <= j < r.0 ==> lex_less(utf8(#[trigger] self.entries()[j].0), utf8(name@)),
            r.1 ==> r.0 < self.entries().len() && self.entries()[r.0 as int].0 == name@,
            !r.1 ==> (r.0 < self.entries().len() ==> lex_less(utf8(name@), utf8(self.entries()[r.0 as int].0))),
            !r.1 ==> !self.stream_map().contains_key(name@),
    {
        reveal(names_ascending);
        let bytes = name.as_bytes();
        let n = self.streams.len();
        let ghost entries = self.entries();
        let mut i: usize = 0;
        loop
            invariant
                i <= n,
                n == self.streams@.len(),
                n == entries.len(),
                bytes@ == utf8(name@),
                entries == self.entries(),
                names_ascending(entries),
                forall|j: int| 0 <= j < i ==> lex_less(utf8(#[trigger] entries[j].0), bytes@),
            ensures
                i <= n,
                forall|j: int| 0 <= j < i ==> lex_less(utf8(#[trigger] entries[j].0), bytes@),
                i < n ==> !lex_less(utf8(entries[i as int].0), bytes@),
            decreases n - i,
        {
            proof {
                if i < n {
                    assert(entries[i as int].0 == self.streams@[i as int].0@);
                }
            }
            if i == n {
                break;
            }
            if !bytes_less(self.streams[i].0.as_str().as_bytes(), bytes) {
                break;
            }
            proof {
                assert(entries[i as int].0 == self.streams@[i as int].0@);
            }
            i = i + 1;
        }
        let found = i < n && !bytes_less(bytes, self.streams[i].0.as_str().as_bytes());
        proof {
            lemma_entries_map(entries);
            if i < n {
                assert(entries[i as int].0 == self.streams@[i as int].0@);
                lemma_lex_trichotomy(utf8(entries[i as int].0), bytes@);
                if found {
                    lemma_utf8_injective(entries[i as int].0, name@);
                }
            }
            if !found {
                assert forall|j: int| 0 <= j < entries.len() implies entries[j].0 != name@ by {
                    lemma_lex_irreflexive(bytes@);
                    if j > i {
                        lemma_lex_transitive(bytes@, utf8(entries[i as int].0), utf8(entries[j].0));
                    }
                }
            }
        }
        (i, found)
    }

    /// Returns the master seed.
    pub fn seed(&self) -> (r: u64)
        ensures
            r == self.seed_of(),
    {
        self.seed
    }

    /// The listing is canonical: two generators holding the same streams
    /// list them in the same order, whatever order the streams were created
    /// in.
    pub proof fn lemma_listing_canonical(a: &DeterministicRng, b: &DeterministicRng)
        requires
            a.wf(),
            b.wf(),
            a.stream_map() == b.stream_map(),
        ensures
            a.entries() == b.entries(),
    {
        lemma_ascending_unique(a.entries(), b.entries());
    }

    /// Reports whether a named stream has been created.
    pub fn has_stream(&self, name: &str) -> (r: bool)
        requires
            self.wf(),
        ensures
            r == self.stream_map().contains_key(name@),
    {
        let (i, found) = self.position(name);
        proof {
            lemma_entries_map(self.entries());
            if found {
                assert(self.entries()[i as int].0 == name@);
            }
        }
        found
    }

    /// The touched stream names in canonical lexicographic order.
    pub fn stream_names(&self) -> (r: std::vec::IntoIter<&str>)
        ensures
            vstd::std_specs::iter::IteratorSpec::remaining(&r).len() == self.entries().len(),
            forall|k: int|
                0 <= k < self.entries().len() ==> (#[trigger] vstd::std_specs::iter::IteratorSpec::remaining(&r)[k])@
                    == self.entries()[k].0,
    {
        let mut out: Vec<&str> = Vec::new();
        let n = self.streams.len();
        let mut i: usize = 0;
        while i < n
            invariant
                n == self.streams@.len(),
                i <= n,
                out@.len() == i,
                forall|k: int| 0 <= k < i ==> (#[trigger] out@[k])@ == self.entries()[k].0,
            decreases n - i,
        {
            out.push(self.streams[i].0.as_str());
            i = i + 1;
        }
        out.into_iter()
    }

    /// The touched streams with their states, in canonical lexicographic
    /// order of their names: the content a serialized generator carries
    /// besides its seed.
    pub fn stream_list(&self) -> (r: Vec<(String, Pcg32)>)
        ensures
            listing(r@) == self.entries(),
    {
        let mut out: Vec<(String, Pcg32)> = Vec::new();
        let n = self.streams.len();
        let mut i: usize = 0;
        while i < n
            invariant
                n == self.streams@.len(),
                i <= n,
                listing(out@) == self.entries().take(i as int),
            decreases n - i,
        {
            let entry = &self.streams[i];
            proof {
                use_type_invariant(&entry.1);
            }
            let copy = Pcg32 { state: entry.1.state, inc: entry.1.inc };
            let name = entry.0.as_str().to_owned();
            proof {
                assert(self.entries()[i as int] == (entry.0@, entry.1@));
                assert(name@ == entry.0@);
                assert(copy@ == entry.1@);
            }
            let ghost prev = out@;
            out.push((name, copy));
            proof {
                assert(listing(out@) =~= listing(prev).push((entry.0@, entry.1@)));
                assert(self.entries().take(i + 1) =~= self.entries().take(i as int).push(
                    self.entries()[i as int],
                ));
            }
            i = i + 1;
        }
        proof {
            assert(self.entries().take(n as int) =~= self.entries());
        }
        out
    }

    /// Rebuilds a generator from a master seed and a listing of streams, as
    /// a serialized generator carries them.
    ///
    /// Later entries for the same name replace earlier ones. The result is
    /// `None` when some stream's increment is not the one its name derives
    /// under the seed: such a stream was not created by this generator.
    pub fn try_from_parts(seed: u64, streams: Vec<(String, Pcg32)>) -> (r: Option<Self>)
        ensures
            r is Some <==> forall|k: int|
                0 <= k < streams@.len() ==> (#[trigger] listing(streams@)[k]).1.1 == derived_stream(
                    seed,
                    utf8(listing(streams@)[k].0),
                ).1,
            r matches Some(g) ==> g.wf() && g.seed_of() == seed && g.stream_map() == entries_map(
                listing(streams@),
            ),
    {
        let mut rng = DeterministicRng::from_seed(seed);
        let n = streams.len();
        let mut k: usize = 0;
        while k < n
            invariant
                n == streams@.len(),
                k <= n,
                rng.wf(),
                rng.seed_of() == seed,
                rng.stream_map() == entries_map(listing(streams@).take(k as int)),
                forall|j: int|
                    0 <= j < k ==> (#[trigger] listing(streams@)[j]).1.1 == derived_stream(
                        seed,
                        utf8(listing(streams@)[j].0),
                    ).1,
            decreases n - k,
        {
            let entry = &streams[k];
            let expected = derive_stream(seed, entry.0.as_str());
            if entry.1.inc != expected.inc {
                proof {
                    assert(listing(streams@)[k as int] == (entry.0@, entry.1@));
                }
                return None;
            }
            let slot = rng.stream(entry.0.as_str());
            proof {
                use_type_invariant(&entry.1);
            }
            *slot = Pcg32 { state: entry.1.state, inc: entry.1.inc };
            proof {
                let l = listing(streams@);
                assert(l.take(k + 1).drop_last() =~= l.take(k as int));
                assert(l.take(k + 1).last() == l[k as int]);
            }
            k = k + 1;
        }
        proof {
            assert(listing(streams@).take(n as int) =~= listing(streams@));
        }
        Some(rng)
    }
}

} // verus!
