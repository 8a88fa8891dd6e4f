//! Little-endian numbers of a given width, which is how the wire format stores
//! every fixed-width number: scalars, and a frame's length, count and offsets.

use vstd::prelude::*;

verus! {

/// `256` raised to `n`: one more than the largest number `n` bytes hold.
pub open spec fn pow256(n: nat) -> nat
    decreases n,
{
    if n == 0 {
        1
    } else {
        256 * pow256((n - 1) as nat)
    }
}

/// The number little-endian bytes `s` stand for.
pub open spec fn le_value(s: Seq<u8>) -> nat
    decreases s.len(),
{
    if s.len() == 0 {
        0
    } else {
        s[0] as nat + 256 * le_value(s.drop_first())
    }
}

/// Byte `i` of `value`, counting from the least significant.
pub open spec fn byte_of(value: nat, i: nat) -> u8 {
    ((value / pow256(i)) % 256) as u8
}

/// The `n` least significant bytes of `value`, least significant first: what
/// writing `value` at width `n` stores, which drops whatever does not fit.
pub open spec fn le_bytes(value: nat, n: nat) -> Seq<u8> {
    Seq::new(n, |i: int| byte_of(value, i as nat))
}

pub proof fn lemma_pow256_positive(n: nat)
    ensures
        pow256(n) >= 1,
    decreases n,
{
    if n > 0 {
        lemma_pow256_positive((n - 1) as nat);
    }
}

pub proof fn lemma_pow256_monotonic(a: nat, b: nat)
    requires
        a <= b,
    ensures
        pow256(a) <= pow256(b),
    decreases b,
{
    if a < b {
        lemma_pow256_monotonic(a, (b - 1) as nat);
        lemma_pow256_positive((b - 1) as nat);
    }
}

/// The widths a frame stores its numbers in, and the ones scalars take.
pub proof fn lemma_pow256_values()
    ensures
        pow256(0) == 1,
        pow256(1) == 0x100,
        pow256(2) == 0x1_0000,
        pow256(3) == 0x100_0000,
        pow256(4) == 0x1_0000_0000,
        pow256(8) == 0x1_0000_0000_0000_0000,
        pow256(16) == 0x1_0000_0000_0000_0000_0000_0000_0000_0000,
{
    reveal_with_fuel(pow256, 17);
}

/// Little-endian bytes stand for a number smaller than what their width holds.
pub proof fn lemma_le_value_bound(s: Seq<u8>)
    ensures
        le_value(s) < pow256(s.len()),
    decreases s.len(),
{
    if s.len() > 0 {
        lemma_le_value_bound(s.drop_first());
    }
}

/// Reading back what writing a number at width `n` stored gives the number,
/// less whatever of it did not fit.
pub proof fn lemma_le_round_trip(value: nat, n: nat)
    ensures
        le_value(le_bytes(value, n)) == value % pow256(n),
        le_bytes(value, n).len() == n,
    decreases n,
{
    if n == 0 {
        assert(le_bytes(value, n) =~= Seq::<u8>::empty());
    } else {
        let m = (n - 1) as nat;
        lemma_le_round_trip(value / 256, m);
        assert(le_bytes(value, n).drop_first() =~= le_bytes(value / 256, m)) by {
            assert forall|i: int| 0 <= i < m implies le_bytes(value, n).drop_first()[i]
                == le_bytes(value / 256, m)[i] by {
                lemma_shifted_byte(value, i as nat);
            }
        }
        lemma_pow256_positive(m);
        assert(byte_of(value, 0) == value % 256) by {
            assert(pow256(0) == 1);
            assert(value / 1 == value);
        }
        lemma_mod_split(value, m);
    }
}

/// Byte `i + 1` of a number is byte `i` of the number shifted down a byte.
proof fn lemma_shifted_byte(value: nat, i: nat)
    ensures
        byte_of(value, i + 1) == byte_of(value / 256, i),
{
    lemma_pow256_positive(i);
    vstd::arithmetic::div_mod::lemma_div_denominator(value as int, 256, pow256(i) as int);
    assert(pow256(i + 1) == 256 * pow256(i));
    vstd::arithmetic::mul::lemma_mul_is_commutative(256, pow256(i) as int);
}

/// `v % 256^(m + 1)` is its low byte plus 256 times the rest reduced one byte
/// less.
proof fn lemma_mod_split(value: nat, m: nat)
    requires
        pow256(m) >= 1,
    ensures
        value % pow256(m + 1) == value % 256 + 256 * ((value / 256) % pow256(m)),
{
    let p = pow256(m) as int;
    assert(pow256(m + 1) == 256 * p);
    vstd::arithmetic::div_mod::lemma_fundamental_div_mod(value as int, 256);
    let q = value as int / 256;
    let r = value as int % 256;
    vstd::arithmetic::div_mod::lemma_fundamental_div_mod(q, p);
    let q2 = q / p;
    let r2 = q % p;
    // value = 256 * (p * q2 + r2) + r = (256 * p) * q2 + (256 * r2 + r)
    assert(value as int == q2 * (256 * p) + (256 * r2 + r)) by (nonlinear_arith)
        requires
            value as int == 256 * q + r,
            q == p * q2 + r2,
    ;
    assert(0 <= 256 * r2 + r < 256 * p) by (nonlinear_arith)
        requires
            0 <= r < 256,
            0 <= r2 < p,
    ;
    vstd::arithmetic::div_mod::lemma_fundamental_div_mod_converse(
        value as int,
        256 * p,
        q2,
        256 * r2 + r,
    );
}

/// A number smaller than what `n` bytes hold is read back whole.
pub proof fn lemma_le_round_trip_fits(value: nat, n: nat)
    requires
        value < pow256(n),
    ensures
        le_value(le_bytes(value, n)) == value,
        le_bytes(value, n).len() == n,
{
    lemma_le_round_trip(value, n);
    vstd::arithmetic::div_mod::lemma_small_mod(value, pow256(n));
}

/// The value of bytes followed by more is the value of the first ones plus
/// the value of the rest, weighted by where they begin.
pub proof fn lemma_le_value_append(a: Seq<u8>, b: Seq<u8>)
    ensures
        le_value(a + b) == le_value(a) + pow256(a.len()) * le_value(b),
    decreases a.len(),
{
    if a.len() == 0 {
        assert(a + b =~= b);
        assert(pow256(0) == 1);
        assert(pow256(0) * le_value(b) == le_value(b));
    } else {
        assert((a + b).drop_first() =~= a.drop_first() + b);
        lemma_le_value_append(a.drop_first(), b);
        let k = pow256((a.len() - 1) as nat) as int;
        let lb = le_value(b) as int;
        assert((a + b)[0] == a[0]);
        assert(pow256(a.len()) == 256 * k);
        assert(256 * (k * lb) == (256 * k) * lb) by (nonlinear_arith);
        assert(le_value(a + b) == a[0] as nat + 256 * le_value(a.drop_first() + b));
    }
}

/// The bytes read as the value of `s[lo..hi]` are `s[lo]` and the value of
/// `s[lo + 1..hi]` a byte up.
pub proof fn lemma_le_value_subrange_step(s: Seq<u8>, lo: int, hi: int)
    requires
        0 <= lo < hi <= s.len(),
    ensures
        le_value(s.subrange(lo, hi)) == s[lo] as nat + 256 * le_value(s.subrange(lo + 1, hi)),
{
    assert(s.subrange(lo, hi).drop_first() =~= s.subrange(lo + 1, hi));
}

/// The unsigned number whose `n` low bytes store `v` in two's complement.
pub open spec fn twos(v: int, n: nat) -> nat {
    if v >= 0 {
        v as nat
    } else {
        (v + pow256(n)) as nat
    }
}

/// The signed number `n` bytes storing `u` in two's complement stand for.
pub open spec fn signed(u: nat, n: nat) -> int {
    if u < pow256(n) / 2 {
        u as int
    } else {
        u - pow256(n)
    }
}

/// Storing a signed number in two's complement and reading it back gives the
/// number.
pub proof fn lemma_twos_round_trip(v: int, n: nat)
    requires
        n >= 1,
        -(pow256(n) / 2) <= v < pow256(n) / 2,
    ensures
        twos(v, n) < pow256(n),
        signed(twos(v, n), n) == v,
{
}

/// Zero bytes stand for zero.
pub proof fn lemma_le_value_zeros(s: Seq<u8>)
    requires
        forall|i: int| 0 <= i < s.len() ==> s[i] == 0,
    ensures
        le_value(s) == 0,
    decreases s.len(),
{
    if s.len() > 0 {
        lemma_le_value_zeros(s.drop_first());
    }
}

/// Bytes are the bytes of the number they stand for, at their own width.
pub proof fn lemma_le_bytes_of_value(s: Seq<u8>)
    ensures
        le_bytes(le_value(s), s.len()) == s,
    decreases s.len(),
{
    if s.len() > 0 {
        let t = s.drop_first();
        lemma_le_bytes_of_value(t);
        let v = le_value(s);
        assert(v % 256 == s[0] && v / 256 == le_value(t)) by {
            lemma_le_value_bound(t);
            vstd::arithmetic::div_mod::lemma_fundamental_div_mod_converse(
                v as int,
                256,
                le_value(t) as int,
                s[0] as int,
            );
        }
        assert forall|i: int| 0 <= i < s.len() implies le_bytes(v, s.len())[i] == s[i] by {
            if i == 0 {
                assert(pow256(0) == 1);
                assert(v / 1 == v);
            } else {
                lemma_shifted_byte(v, (i - 1) as nat);
                assert(le_bytes(le_value(t), t.len())[i - 1] == t[i - 1]);
            }
        }
        assert(le_bytes(v, s.len()) =~= s);
    }
}

/// Reads the number stored little-endian in `bytes[at..at + width]`.
///
/// A number that does not fit in a `usize` cannot address anything in the
/// buffer, so it is as out of bounds as a number past its end.
pub fn read_uint(bytes: &[u8], at: usize, width: usize) -> (r: Result<usize, crate::Error>)
    requires
        width <= 8,
    ensures
        match r {
            Ok(value) => at + width <= bytes@.len() && value as nat == le_value(
                bytes@.subrange(at as int, at + width),
            ),
            Err(e) => e == crate::Error::UnexpectedEof && (at + width > bytes@.len()
                || le_value(bytes@.subrange(at as int, at + width)) > usize::MAX),
        },
{
    if width > bytes.len() || at > bytes.len() - width {
        return Err(crate::Error::UnexpectedEof);
    }
    let mut value: u64 = 0;
    let mut i = width;
    let length = bytes.len();
    proof {
        lemma_pow256_values();
        assert(bytes@.subrange(at + width, at + width) =~= Seq::<u8>::empty());
    }
    while i > 0
        invariant
            length == bytes@.len(),
            width <= 8,
            at + width <= bytes@.len(),
            i <= width,
            value as nat == le_value(bytes@.subrange(at + i, at + width)),
            value < pow256((width - i) as nat),
        decreases i,
    {
        i -= 1;
        proof {
            lemma_le_value_subrange_step(bytes@, at + i, at + width);
            lemma_pow256_monotonic((width - i) as nat, 8);
            lemma_pow256_values();
            assert(pow256((width - i) as nat) == 256 * pow256((width - (i + 1)) as nat));
        }
        assert(at + i < bytes@.len());
        value = value * 256 + bytes[at + i] as u64;
    }
    if value > usize::MAX as u64 {
        return Err(crate::Error::UnexpectedEof);
    }
    Ok(value as usize)
}

/// Stores the `width` least significant bytes of `value` at `out[at..]`.
pub fn write_uint(out: &mut Vec<u8>, at: usize, value: usize, width: usize)
    requires
        at + width <= old(out)@.len(),
    ensures
        final(out)@ == old(out)@.subrange(0, at as int) + le_bytes(value as nat, width as nat)
            + old(out)@.subrange(at + width, old(out)@.len() as int),
        final(out)@.len() == old(out)@.len(),
        final(out)@.subrange(at as int, at + width) == le_bytes(value as nat, width as nat),
        forall|k: int|
            0 <= k < old(out)@.len() && !(at <= k < at + width) ==> final(out)@[k] == old(out)@[k],
{
    let mut rest = value;
    let mut i: usize = 0;
    let length = out.len();
    assert(pow256(0) == 1 && value as nat / 1 == value as nat);
    while i < width
        invariant
            length == out@.len(),
            at + width <= out@.len(),
            i <= width,
            out@.len() == old(out)@.len(),
            rest as nat == value as nat / pow256(i as nat),
            forall|j: int| 0 <= j < at || at + width <= j < out@.len() ==> out@[j] == old(out)@[j],
            forall|j: int| 0 <= j < i ==> #[trigger] out@[at + j] == byte_of(value as nat, j as nat),
        decreases width - i,
    {
        proof {
            lemma_pow256_positive(i as nat);
            vstd::arithmetic::div_mod::lemma_div_denominator(value as int, pow256(i as nat) as int, 256);
            assert(pow256((i + 1) as nat) == 256 * pow256(i as nat));
            vstd::arithmetic::mul::lemma_mul_is_commutative(256, pow256(i as nat) as int);
        }
        assert(at + i < out@.len());
        out.set(at + i, (rest % 256) as u8);
        rest = rest / 256;
        i += 1;
    }
    assert forall|j: int| at <= j < at + width implies out@[j] == le_bytes(
        value as nat,
        width as nat,
    )[j - at] by {
        assert(out@[at + (j - at)] == byte_of(value as nat, (j - at) as nat));
    }
    assert(out@ =~= old(out)@.subrange(0, at as int) + le_bytes(value as nat, width as nat)
        + old(out)@.subrange(at + width, old(out)@.len() as int));
    assert(out@.subrange(at as int, at + width) =~= le_bytes(value as nat, width as nat));
}

/// Appends the `width` least significant bytes of `value`.
pub fn push_uint(out: &mut Vec<u8>, value: u128, width: usize)
    ensures
        final(out)@ == old(out)@ + le_bytes(value as nat, width as nat),
{
    let mut rest = value;
    let mut i: usize = 0;
    assert(pow256(0) == 1 && value as nat / 1 == value as nat);
    while i < width
        invariant
            i <= width,
            out@.len() == old(out)@.len() + i,
            rest as nat == value as nat / pow256(i as nat),
            out@.subrange(0, old(out)@.len() as int) == old(out)@,
            forall|j: int| 0 <= j < i ==> #[trigger] out@[old(out)@.len() + j] == byte_of(value as nat, j as nat),
        decreases width - i,
    {
        proof {
            lemma_pow256_positive(i as nat);
            vstd::arithmetic::div_mod::lemma_div_denominator(value as int, pow256(i as nat) as int, 256);
            assert(pow256((i + 1) as nat) == 256 * pow256(i as nat));
            vstd::arithmetic::mul::lemma_mul_is_commutative(256, pow256(i as nat) as int);
        }
        out.push((rest % 256) as u8);
        rest = rest / 256;
        i += 1;
        assert(out@.subrange(0, old(out)@.len() as int) =~= old(out)@);
    }
    assert forall|j: int| old(out)@.len() <= j < out@.len() implies out@[j] == le_bytes(
        value as nat,
        width as nat,
    )[j - old(out)@.len()] by {
        assert(out@[old(out)@.len() + (j - old(out)@.len())] == byte_of(
            value as nat,
            (j - old(out)@.len()) as nat,
        ));
    }
    assert forall|j: int| 0 <= j < old(out)@.len() implies out@[j] == old(out)@[j] by {
        assert(out@.subrange(0, old(out)@.len() as int)[j] == out@[j]);
    }
    assert(out@ =~= old(out)@ + le_bytes(value as nat, width as nat));
}

/// Reads the number stored little-endian in the first `width` bytes.
pub fn read_le(bytes: &[u8], width: usize) -> (r: u128)
    requires
        width <= 16,
        width <= bytes@.len(),
    ensures
        r as nat == le_value(bytes@.subrange(0, width as int)),
{
    let mut value: u128 = 0;
    let mut i = width;
    proof {
        lemma_pow256_values();
        assert(bytes@.subrange(width as int, width as int) =~= Seq::<u8>::empty());
    }
    while i > 0
        invariant
            width <= 16,
            width <= bytes@.len(),
            i <= width,
            value as nat == le_value(bytes@.subrange(i as int, width as int)),
            value < pow256((width - i) as nat),
        decreases i,
    {
        i -= 1;
        proof {
            lemma_le_value_subrange_step(bytes@, i as int, width as int);
            lemma_pow256_monotonic((width - i) as nat, 16);
            lemma_pow256_values();
            assert(pow256((width - i) as nat) == 256 * pow256((width - (i + 1)) as nat));
        }
        value = value * 256 + bytes[i] as u128;
    }
    value
}

/// The signed byte that stores `u` in two's complement.
pub fn signed_i8(u: u8) -> (r: i8)
    ensures
        r as int == signed(u as nat, 1),
{
    proof {
        lemma_pow256_values();
    }
    if u <= i8::MAX as u8 {
        u as i8
    } else {
        ((u - 0x80) as i8) + i8::MIN
    }
}

/// The signed number two bytes storing `u` in two's complement stand for.
pub fn signed_i16(u: u16) -> (r: i16)
    ensures
        r as int == signed(u as nat, 2),
{
    proof {
        lemma_pow256_values();
    }
    if u <= i16::MAX as u16 {
        u as i16
    } else {
        ((u - 0x8000) as i16) + i16::MIN
    }
}

/// The signed number four bytes storing `u` in two's complement stand for.
pub fn signed_i32(u: u32) -> (r: i32)
    ensures
        r as int == signed(u as nat, 4),
{
    proof {
        lemma_pow256_values();
    }
    if u <= i32::MAX as u32 {
        u as i32
    } else {
        ((u - 0x8000_0000) as i32) + i32::MIN
    }
}

/// The signed number eight bytes storing `u` in two's complement stand for.
pub fn signed_i64(u: u64) -> (r: i64)
    ensures
        r as int == signed(u as nat, 8),
{
    proof {
        lemma_pow256_values();
    }
    if u <= i64::MAX as u64 {
        u as i64
    } else {
        ((u - 0x8000_0000_0000_0000) as i64) + i64::MIN
    }
}

/// The signed number sixteen bytes storing `u` in two's complement stand for.
pub fn signed_i128(u: u128) -> (r: i128)
    ensures
        r as int == signed(u as nat, 16),
{
    proof {
        lemma_pow256_values();
    }
    if u <= i128::MAX as u128 {
        u as i128
    } else {
        ((u - 0x8000_0000_0000_0000_0000_0000_0000_0000) as i128) + i128::MIN
    }
}

} // verus!
