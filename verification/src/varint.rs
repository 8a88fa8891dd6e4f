//! LEB128 integers: seven bits a byte, least significant group first, the high
//! bit of every byte but the last set. The length of a string or byte slice,
//! the tag of an enum and the number of a value enum are stored this way.

use crate::Error;
use vstd::prelude::*;

verus! {

/// Bytes a LEB128 integer may occupy, which is what a `u64` needs.
pub const MAX_VARINT: usize = 10;

/// `128` raised to `n`: the weight of the `n`th group of seven bits.
pub open spec fn pow128(n: nat) -> nat
    decreases n,
{
    if n == 0 {
        1
    } else {
        128 * pow128((n - 1) as nat)
    }
}

/// The bytes `value` is written in.
pub open spec fn varint_bytes(value: nat) -> Seq<u8>
    decreases value,
{
    if value < 128 {
        seq![value as u8]
    } else {
        seq![(value % 128 + 128) as u8] + varint_bytes(value / 128)
    }
}

/// The number the start of `s` encodes and how many bytes it occupies, reading
/// at most `groups` groups, the last of which may only carry one bit: what is
/// left of a `u64` once the groups before it have been read.
pub open spec fn varint_groups(s: Seq<u8>, groups: nat) -> Option<(nat, nat)>
    decreases groups,
{
    if groups == 0 || s.len() == 0 {
        None
    } else {
        let byte = s[0];
        if groups == 1 && byte % 128 > 1 {
            None
        } else if byte < 128 {
            Some((byte as nat, 1))
        } else {
            match varint_groups(s.drop_first(), (groups - 1) as nat) {
                Some((rest, size)) => Some(((byte % 128) as nat + 128 * rest, size + 1)),
                None => None,
            }
        }
    }
}

/// The LEB128 integer at `s[at..]`, and how many bytes it occupies: `None`
/// where it runs past the end of `s`, never ends within the ten bytes a `u64`
/// reaches into, or carries bits past the end of one.
pub open spec fn varint_at(s: Seq<u8>, at: int) -> Option<(nat, nat)> {
    if 0 <= at <= s.len() {
        varint_groups(s.skip(at), MAX_VARINT as nat)
    } else {
        None
    }
}

pub proof fn lemma_pow128_values()
    ensures
        pow128(0) == 1,
        pow128(8) == 0x100_0000_0000_0000,
        pow128(9) == 0x8000_0000_0000_0000,
{
    reveal_with_fuel(pow128, 10);
}

/// A number is written in one to ten bytes, the first of which is not zero
/// unless the number is.
pub proof fn lemma_varint_bytes_len(value: nat)
    ensures
        varint_bytes(value).len() >= 1,
        value < 0x1_0000_0000_0000_0000 ==> varint_bytes(value).len() <= MAX_VARINT,
        value < 0x1_0000_0000 ==> varint_bytes(value).len() <= 5,
        value < 128 <==> varint_bytes(value).len() == 1,
        (varint_bytes(value)[0] == 0) == (value == 0),
    decreases value,
{
    if value >= 128 {
        lemma_varint_bytes_len(value / 128);
    }
    if value < 0x1_0000_0000_0000_0000 {
        lemma_pow128_values();
        reveal_with_fuel(pow128, 11);
        lemma_varint_len_bound(value, MAX_VARINT as nat);
    }
    if value < 0x1_0000_0000 {
        reveal_with_fuel(pow128, 6);
        lemma_varint_len_bound(value, 5);
    }
}

/// A number below `128^k` takes at most `k` bytes.
pub proof fn lemma_varint_len_bound(value: nat, k: nat)
    requires
        k >= 1,
        value < pow128(k),
    ensures
        varint_bytes(value).len() <= k,
    decreases k,
{
    if value >= 128 {
        if k == 1 {
            assert(pow128(1) == 128 * pow128(0));
        } else {
            let j = (k - 1) as nat;
            assert(pow128(k) == 128 * pow128(j));
            assert(value / 128 < pow128(j)) by (nonlinear_arith)
                requires
                    value < 128 * pow128(j),
            ;
            lemma_varint_len_bound(value / 128, j);
        }
    }
}

/// Reading what writing a number produced gives back the number, and how many
/// bytes it took, whatever follows it: the law that makes a LEB128 integer
/// self-delimiting.
pub proof fn lemma_varint_round_trip(value: nat, rest: Seq<u8>, groups: nat)
    requires
        groups >= 1,
        value < 2 * pow128((groups - 1) as nat),
    ensures
        varint_groups(varint_bytes(value) + rest, groups) == Some(
            (value, varint_bytes(value).len()),
        ),
    decreases value,
{
    let s = varint_bytes(value) + rest;
    if value < 128 {
        assert(s[0] == value as u8);
    } else {
        let g = (groups - 1) as nat;
        if groups == 1 {
            assert(pow128(0) == 1);
            assert(false);
        }
        let h = (groups - 2) as nat;
        assert(pow128(g) == 128 * pow128(h));
        assert(value / 128 < 2 * pow128(h)) by (nonlinear_arith)
            requires
                value < 2 * (128 * pow128(h)),
        ;
        lemma_varint_round_trip(value / 128, rest, g);
        assert(s[0] == (value % 128 + 128) as u8);
        assert(s.drop_first() =~= varint_bytes(value / 128) + rest);
    }
}

/// What `read_varint` reads of a number of a `u64` that `push_varint` wrote.
pub proof fn lemma_varint_at_round_trip(prefix: Seq<u8>, value: u64, rest: Seq<u8>)
    ensures
        varint_at(prefix + varint_bytes(value as nat) + rest, prefix.len() as int) == Some(
            (value as nat, varint_bytes(value as nat).len()),
        ),
{
    let s = prefix + varint_bytes(value as nat) + rest;
    assert(s.skip(prefix.len() as int) =~= varint_bytes(value as nat) + rest);
    lemma_pow128_values();
    lemma_varint_round_trip(value as nat, rest, MAX_VARINT as nat);
}

/// Bytes [`put_varint`] writes `value` in.
pub fn varint_len(value: u32) -> (r: usize)
    ensures
        r == varint_bytes(value as nat).len(),
        1 <= r <= 5,
{
    let mut len: usize = 1;
    let mut rest = value;
    proof {
        lemma_varint_bytes_len(value as nat);
    }
    while rest >= 128
        invariant
            1 <= len <= 5,
            varint_bytes(value as nat).len() <= 5,
            varint_bytes(value as nat).len() == len - 1 + varint_bytes(rest as nat).len(),
        decreases rest,
    {
        proof {
            lemma_varint_bytes_len(rest as nat / 128);
        }
        rest = rest / 128;
        len += 1;
    }
    len
}

/// Writes `value` into `out[at..]`.
pub fn put_varint(out: &mut Vec<u8>, at: usize, value: u32)
    requires
        at + varint_bytes(value as nat).len() <= old(out)@.len(),
    ensures
        final(out)@ == old(out)@.subrange(0, at as int) + varint_bytes(value as nat) + old(
            out,
        )@.subrange(at + varint_bytes(value as nat).len(), old(out)@.len() as int),
{
    let ghost whole = varint_bytes(value as nat);
    let mut rest = value;
    let mut written: usize = 0;
    let length = out.len();
    proof {
        lemma_varint_bytes_len(rest as nat);
    }
    while rest >= 128
        invariant
            length == out@.len(),
            out@.len() == old(out)@.len(),
            at + whole.len() <= out@.len(),
            written + varint_bytes(rest as nat).len() == whole.len(),
            out@.subrange(at as int, at + written) + varint_bytes(rest as nat) == whole,
            forall|j: int|
                0 <= j < at || at + written <= j < out@.len() ==> out@[j] == old(out)@[j],
        decreases rest,
    {
        proof {
            lemma_varint_bytes_len(rest as nat);
            lemma_varint_bytes_len(rest as nat / 128);
        }
        let ghost before = out@;
        out.set(at + written, (rest % 128 + 128) as u8);
        assert(out@.subrange(at as int, at + written + 1) =~= before.subrange(
            at as int,
            at + written,
        ) + seq![(rest % 128 + 128) as u8]);
        rest = rest / 128;
        written += 1;
    }
    proof {
        lemma_varint_bytes_len(rest as nat);
    }
    let ghost before = out@;
    out.set(at + written, rest as u8);
    assert(out@.subrange(at as int, at + written + 1) =~= before.subrange(at as int, at + written)
        + varint_bytes(rest as nat));
    assert(out@.subrange(at as int, at + whole.len()) =~= whole);
    assert forall|j: int| at <= j < at + whole.len() implies out@[j] == whole[j - at] by {
        assert(out@.subrange(at as int, at + whole.len())[j - at] == out@[j]);
    }
    assert(out@ =~= old(out)@.subrange(0, at as int) + whole + old(out)@.subrange(
        at + whole.len(),
        old(out)@.len() as int,
    ));
}

/// Appends `value`.
pub fn push_varint(out: &mut Vec<u8>, value: u64)
    ensures
        final(out)@ == old(out)@ + varint_bytes(value as nat),
{
    let ghost whole = varint_bytes(value as nat);
    let mut rest = value;
    while rest >= 128
        invariant
            old(out)@ + whole == out@ + varint_bytes(rest as nat),
        decreases rest,
    {
        let ghost before = out@;
        out.push((rest % 128 + 128) as u8);
        assert(before + varint_bytes(rest as nat) =~= out@ + varint_bytes((rest / 128) as nat));
        rest = rest / 128;
    }
    let ghost before = out@;
    out.push(rest as u8);
    assert(out@ =~= before + varint_bytes(rest as nat));
}

/// Reads the LEB128 integer at `bytes[at..]`, and how many bytes it occupied.
pub fn read_varint(bytes: &[u8], at: usize) -> (r: Result<(u64, usize), Error>)
    ensures
        r == match varint_at(bytes@, at as int) {
            Some((value, size)) => Ok::<(u64, usize), Error>((value as u64, size as usize)),
            None => Err(Error::UnexpectedEof),
        },
        r matches Ok((value, size)) ==> varint_at(bytes@, at as int) == Some(
            (value as nat, size as nat),
        ),
{
    let mut value: u64 = 0;
    let mut scale: u64 = 1;
    let mut size: usize = 1;
    let length = bytes.len();
    if at > length {
        return Err(Error::UnexpectedEof);
    }
    let ghost s = bytes@.skip(at as int);
    proof {
        lemma_pow128_values();
        assert(s.skip(0) =~= s);
    }
    loop
        invariant
            length == bytes@.len(),
            at <= length,
            s == bytes@.skip(at as int),
            1 <= size <= MAX_VARINT,
            size - 1 <= s.len(),
            scale as nat == pow128((size - 1) as nat),
            value < scale,
            varint_at(bytes@, at as int) == match varint_groups(
                s.skip(size - 1),
                (MAX_VARINT - (size - 1)) as nat,
            ) {
                Some((rest, used)) => Some(((value + scale * rest) as nat, ((size - 1) + used) as nat)),
                None => None,
            },
        decreases MAX_VARINT - size,
    {
        let ghost t = s.skip(size - 1);
        let index = match at.checked_add(size - 1) {
            Some(index) => index,
            None => {
                return Err(Error::UnexpectedEof);
            },
        };
        if index >= length {
            assert(t.len() == 0);
            return Err(Error::UnexpectedEof);
        }
        let byte = bytes[index];
        assert(t[0] == byte);
        proof {
            lemma_pow128_values();
            if size < MAX_VARINT {
                lemma_pow128_monotonic((size - 1) as nat, 8);
            }
        }
        // The last group a u64 reaches into is the only one that can carry
        // bits past the end of it, and only one of its seven is inside.
        if size == MAX_VARINT && byte % 128 > 1 {
            return Err(Error::UnexpectedEof);
        }
        assert(value + (byte % 128) as nat * scale < 128 * scale) by (nonlinear_arith)
            requires
                value < scale,
                (byte % 128) < 128,
        ;
        let ghost group = (byte % 128) as int;
        if size < MAX_VARINT {
            assert(group * scale <= 127 * scale) by (nonlinear_arith)
                requires
                    0 <= group < 128,
                    scale >= 0,
            ;
        } else {
            assert(group * scale <= scale) by (nonlinear_arith)
                requires
                    0 <= group <= 1,
                    scale >= 0,
            ;
        }
        assert(value + (byte % 128) as nat * scale <= u64::MAX);
        let ghost old_value = value;
        value = value + (byte % 128) as u64 * scale;
        if byte < 128 {
            assert(byte % 128 == byte);
            assert(scale * (byte as nat) == (byte % 128) as nat * scale) by (nonlinear_arith)
                requires
                    byte % 128 == byte,
            ;
            return Ok((value, size));
        }
        if size == MAX_VARINT {
            assert(varint_groups(t.drop_first(), 0) is None);
            return Err(Error::UnexpectedEof);
        }
        proof {
            assert(t.drop_first() =~= s.skip(size as int));
            let tail = varint_groups(s.skip(size as int), (MAX_VARINT - size) as nat);
            match tail {
                Some((rest, used)) => {
                    assert(old_value + scale * ((byte % 128) as nat + 128 * rest) == value + (128
                        * scale) * rest) by (nonlinear_arith)
                        requires
                            value == old_value + (byte % 128) as nat * scale,
                    ;
                },
                None => {},
            }
        }
        scale = scale * 128;
        size += 1;
    }
}

pub proof fn lemma_pow128_monotonic(a: nat, b: nat)
    requires
        a <= b,
    ensures
        1 <= pow128(a) <= pow128(b),
    decreases b,
{
    if a < b {
        lemma_pow128_monotonic(a, (b - 1) as nat);
    } else if a > 0 {
        lemma_pow128_monotonic((a - 1) as nat, (a - 1) as nat);
    }
}

} // verus!
