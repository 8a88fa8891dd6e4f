//! The wire format, stated as what a frame's bytes are.
//!
//! ```text
//! frame  := ctrl: u8, len: uW, count: uW?, body
//! body   := offset[count]: uW, data                      a message or a list
//!         | offset[count]: uW, tag: varint, data         an enum
//!         | stride: u8, element[count]                   a packed list
//! str    := len: varint, utf8[len]
//! bytes  := len: varint, byte[len]
//! scalar := fixed width, little endian
//! char   := u32, a Unicode scalar value
//! ```
//!
//! The control byte holds, in its two lowest bits, the width `W` the length,
//! the count and every offset are stored in (one shifted left by them), in the
//! next two the shape of the frame, and in the four highest the count itself
//! where it is below fifteen; fifteen says the count follows the length.
//!
//! Offsets are relative to the start of their own frame, so a frame decodes the
//! same wherever it lands, and 0 is free to mean "absent": no entry can begin
//! inside the header.

use crate::Error;
use crate::bytes::{le_bytes, le_value, pow256};
use crate::varint::{varint_at, varint_bytes};
use vstd::prelude::*;

verus! {

/// The widest a frame's length, count and offsets are stored in.
pub const WORD: usize = 8;

/// The count a control byte holds when the count follows it instead.
pub const COUNT_FOLLOWS: usize = 15;

/// A frame whose entries are reached through a table of offsets: a message, a
/// value, or a list of anything that is not one fixed width.
pub const TABLE: u8 = 0;

/// A table frame that also carries the tag naming an enum's variant.
pub const TAGGED: u8 = 1;

/// A list holding elements of one width one after another, with no table.
pub const PACKED: u8 = 2;

/// The shape no frame has.
pub const NO_SHAPE: u8 = 3;

/// Bytes one frame may occupy.
pub const MAX_FRAME: usize = 0xffff_ffff;

/// Maximum message nesting accepted when decoding.
pub const MAX_DEPTH: u32 = 64;

/// The width the two lowest bits of a control byte name.
pub open spec fn width_of_code(code: nat) -> nat {
    if code == 0 {
        1
    } else if code == 1 {
        2
    } else if code == 2 {
        4
    } else {
        8
    }
}

/// The two lowest bits of a control byte naming `width`.
pub open spec fn code_of_width(width: nat) -> nat {
    if width == 1 {
        0
    } else if width == 2 {
        1
    } else if width == 4 {
        2
    } else {
        3
    }
}

/// One of the widths a frame stores its numbers in.
pub open spec fn is_width(width: nat) -> bool {
    width == 1 || width == 2 || width == 4 || width == 8
}

/// The count the control byte holds: the count itself, or fifteen where it
/// follows.
pub open spec fn inline_count(count: nat) -> nat {
    if count < COUNT_FOLLOWS {
        count
    } else {
        COUNT_FOLLOWS as nat
    }
}

/// The control byte of a frame of `count` entries of shape `kind`, stored at
/// `width`.
pub open spec fn ctrl_byte(width: nat, kind: nat, count: nat) -> u8 {
    (code_of_width(width) + 4 * kind + 16 * inline_count(count)) as u8
}

/// Whether `value` can be stored in `width` bytes.
pub open spec fn fits(value: nat, width: nat) -> bool {
    width >= WORD || value < pow256(width)
}

/// Bytes a frame's header occupies before its offset table: the control byte,
/// the length, the count where it follows, and in a packed frame the width of
/// one element.
pub open spec fn prefix_size(width: nat, follows: bool, kind: nat) -> nat {
    1 + width + (if follows {
        width
    } else {
        0
    }) + (if kind == PACKED {
        1nat
    } else {
        0nat
    })
}

/// Bytes a frame's whole header occupies, after which its entries begin.
pub open spec fn header_size(width: nat, count: nat, kind: nat, tag: nat) -> nat {
    prefix_size(width, count >= COUNT_FOLLOWS, kind) + if kind == PACKED {
        0
    } else if kind == TAGGED {
        count * width + varint_bytes(tag).len()
    } else {
        count * width
    }
}

/// What reading a frame's header says about it.
pub ghost struct FrameModel {
    /// Bytes the frame occupies, header included.
    pub length: nat,
    /// Bytes each of its numbers is stored in.
    pub width: nat,
    pub kind: nat,
    pub count: nat,
    /// Where the offset table begins, or in a packed frame the elements.
    pub table: nat,
    /// Where the entries begin, which is the least an offset may be.
    pub data: nat,
    /// Bytes one offset occupies, or one element of a packed frame.
    pub step: nat,
}

/// The number stored in `width` bytes at `s[at..]`, as reading it would give
/// it: `None` past the end of `s`, or where it does not fit in a `usize`.
pub open spec fn uint_at(s: Seq<u8>, at: nat, width: nat) -> Option<nat> {
    if at + width <= s.len() && le_value(s.subrange(at as int, (at + width) as int)) <= usize::MAX {
        Some(le_value(s.subrange(at as int, (at + width) as int)))
    } else {
        None
    }
}

/// Reads the header of the frame beginning at the start of `s`, checking that
/// the header and everything it addresses lie within the length the frame
/// claims.
pub open spec fn parse_frame(s: Seq<u8>) -> Result<FrameModel, Error> {
    if s.len() == 0 {
        Err(Error::UnexpectedEof)
    } else {
        let ctrl = s[0];
        let width = width_of_code((ctrl % 4) as nat);
        let kind = ((ctrl / 4) % 4) as nat;
        match uint_at(s, 1, width) {
            None => Err(Error::UnexpectedEof),
            Some(length) => if length > s.len() {
                Err(Error::UnexpectedEof)
            } else if kind == NO_SHAPE || length > MAX_FRAME {
                Err(Error::InvalidFrame)
            } else {
                let frame = s.subrange(0, length as int);
                let follows = (ctrl / 16) as nat == COUNT_FOLLOWS;
                let count = if follows {
                    uint_at(frame, 1 + width, width)
                } else {
                    Some((ctrl / 16) as nat)
                };
                let table = prefix_size(width, follows, kind);
                match count {
                    None => Err(Error::UnexpectedEof),
                    Some(count) => if kind == PACKED && table - 1 >= length {
                        Err(Error::UnexpectedEof)
                    } else {
                        let step = if kind == PACKED {
                            frame[table - 1] as nat
                        } else {
                            width
                        };
                        let entries = count * step + table;
                        if entries > usize::MAX {
                            Err(Error::UnexpectedEof)
                        } else if entries > length {
                            Err(Error::InvalidFrame)
                        } else if kind == TAGGED {
                            match varint_at(frame, entries as int) {
                                None => Err(Error::UnexpectedEof),
                                Some((_, size)) => Ok(
                                    FrameModel {
                                        length,
                                        width,
                                        kind,
                                        count,
                                        table,
                                        data: entries + size,
                                        step,
                                    },
                                ),
                            }
                        } else {
                            Ok(
                                FrameModel {
                                    length,
                                    width,
                                    kind,
                                    count,
                                    table,
                                    data: entries,
                                    step,
                                },
                            )
                        }
                    },
                }
            },
        }
    }
}

/// The bytes entry `index` of a table frame starts at, or `None` where the
/// frame does not carry it. `frame` is the frame's bytes, exactly.
pub open spec fn frame_entry(frame: Seq<u8>, model: FrameModel, index: nat) -> Result<
    Option<Seq<u8>>,
    Error,
> {
    if index >= model.count {
        Ok(None)
    } else {
        match uint_at(frame, model.table + index * model.step, model.step) {
            None => Err(Error::UnexpectedEof),
            Some(offset) => if offset == 0 {
                Ok(None)
            } else if offset < model.data || offset > frame.len() {
                Err(Error::UnexpectedEof)
            } else {
                Ok(Some(frame.subrange(offset as int, frame.len() as int)))
            },
        }
    }
}

/// Where an entry recorded at `position` in the data is, counted from the
/// start of its frame, and 0 for one that is absent.
pub open spec fn offset_of(position: Option<nat>, header: nat) -> nat {
    match position {
        Some(position) => header + position,
        None => 0,
    }
}

/// The offset table of a frame whose entries sit at `positions` of its data.
pub open spec fn table_bytes(positions: Seq<Option<nat>>, header: nat, width: nat) -> Seq<u8>
    decreases positions.len(),
{
    if positions.len() == 0 {
        Seq::empty()
    } else {
        table_bytes(positions.drop_last(), header, width) + le_bytes(
            offset_of(positions.last(), header),
            width,
        )
    }
}

/// The bytes of a finished frame: its header, stored at `width`, and then its
/// data, in which entry `i` begins at `positions[i]` where it is present.
pub open spec fn frame_bytes(
    width: nat,
    count: nat,
    kind: nat,
    tag: nat,
    stride: nat,
    positions: Seq<Option<nat>>,
    data: Seq<u8>,
) -> Seq<u8> {
    let header = header_size(width, count, kind, tag);
    let length = header + data.len();
    seq![ctrl_byte(width, kind, count)] + le_bytes(length, width) + (if count >= COUNT_FOLLOWS {
        le_bytes(count, width)
    } else {
        Seq::empty()
    }) + (if kind == PACKED {
        seq![stride as u8]
    } else {
        table_bytes(positions, header, width)
    }) + (if kind == TAGGED {
        varint_bytes(tag)
    } else {
        Seq::empty()
    }) + data
}

/// What a frame built by [`frame_bytes`] must satisfy to be read back.
pub open spec fn frame_parts_wf(
    width: nat,
    count: nat,
    kind: nat,
    tag: nat,
    stride: nat,
    positions: Seq<Option<nat>>,
    data: Seq<u8>,
) -> bool {
    let length = header_size(width, count, kind, tag) + data.len();
    &&& is_width(width)
    &&& kind < NO_SHAPE
    &&& tag <= u32::MAX
    &&& stride < 256
    &&& length <= MAX_FRAME
    &&& count <= MAX_FRAME
    &&& fits(length, width)
    &&& fits(count, width)
    &&& kind == PACKED ==> count * stride <= data.len()
    &&& kind != PACKED ==> positions.len() == count
    &&& kind != PACKED ==> forall|i: int|
        0 <= i < count ==> (#[trigger] positions[i] matches Some(p) ==> p <= data.len())
}

/// What reading back a frame built by [`frame_bytes`] says about it.
pub open spec fn frame_parts_model(
    width: nat,
    count: nat,
    kind: nat,
    tag: nat,
    stride: nat,
    data: Seq<u8>,
) -> FrameModel {
    let header = header_size(width, count, kind, tag);
    FrameModel {
        length: header + data.len(),
        width,
        kind,
        count,
        table: prefix_size(width, count >= COUNT_FOLLOWS, kind),
        data: if kind == PACKED {
            header + count * stride
        } else {
            header
        },
        step: if kind == PACKED {
            stride
        } else {
            width
        },
    }
}

/// What laying out the pieces of a frame needs: a width, a shape, and one
/// position per entry of a table.
pub open spec fn frame_parts_layout_wf(
    width: nat,
    count: nat,
    kind: nat,
    positions: Seq<Option<nat>>,
) -> bool {
    &&& is_width(width)
    &&& kind < NO_SHAPE
    &&& kind != PACKED ==> positions.len() == count
}

/// Where the pieces of a frame built by [`frame_bytes`] lie.
#[verifier::spinoff_prover]
pub proof fn lemma_frame_bytes_layout(
    width: nat,
    count: nat,
    kind: nat,
    tag: nat,
    stride: nat,
    positions: Seq<Option<nat>>,
    data: Seq<u8>,
)
    requires
        frame_parts_layout_wf(width, count, kind, positions),
    ensures
        ({
            let s = frame_bytes(width, count, kind, tag, stride, positions, data);
            let header = header_size(width, count, kind, tag);
            let prefix = prefix_size(width, count >= COUNT_FOLLOWS, kind);
            let length = header + data.len();
            &&& s.len() == length
            &&& prefix <= header
            &&& s[0] == ctrl_byte(width, kind, count)
            &&& s.subrange(1, 1 + width as int) == le_bytes(length, width)
            &&& count >= COUNT_FOLLOWS ==> s.subrange(1 + width as int, 1 + 2 * width as int)
                == le_bytes(count, width)
            &&& kind == PACKED ==> s[prefix - 1] == stride as u8 && header == prefix
            &&& kind != PACKED ==> s.subrange(prefix as int, (prefix + count * width) as int)
                == table_bytes(positions, header, width)
            &&& kind == TAGGED ==> header == prefix + count * width + varint_bytes(tag).len()
                && s.subrange((prefix + count * width) as int, header as int) == varint_bytes(tag)
            &&& kind == TABLE ==> header == prefix + count * width
            &&& s.subrange(header as int, length as int) == data
        }),
{
    let header = header_size(width, count, kind, tag);
    let prefix = prefix_size(width, count >= COUNT_FOLLOWS, kind);
    let length = header + data.len();
    let a = seq![ctrl_byte(width, kind, count)];
    let b = le_bytes(length, width);
    let c: Seq<u8> = if count >= COUNT_FOLLOWS {
        le_bytes(count, width)
    } else {
        Seq::empty()
    };
    let d = if kind == PACKED {
        seq![stride as u8]
    } else {
        table_bytes(positions, header, width)
    };
    let e: Seq<u8> = if kind == TAGGED {
        varint_bytes(tag)
    } else {
        Seq::empty()
    };
    let s = frame_bytes(width, count, kind, tag, stride, positions, data);
    assert(s == a + b + c + d + e + data);
    crate::bytes::lemma_le_round_trip(length, width);
    crate::bytes::lemma_le_round_trip(count, width);
    lemma_table_bytes_len(positions, header, width);
    let ab = a + b;
    let abc = ab + c;
    let abcd = abc + d;
    let abcde = abcd + e;
    assert(ab.len() == 1 + width);
    assert(abc.len() == 1 + width + (if count >= COUNT_FOLLOWS {
        width
    } else {
        0
    }));
    assert(abcd.len() == prefix + (if kind == PACKED {
        0
    } else {
        count * width
    }));
    assert(abcde.len() == header);
    assert(s.subrange(1, 1 + width as int) =~= b);
    if count >= COUNT_FOLLOWS {
        assert(s.subrange(1 + width as int, 1 + 2 * width as int) =~= c);
    }
    if kind == PACKED {
        assert(s[prefix - 1] == d[0]);
    } else {
        assert(s.subrange(prefix as int, (prefix + count * width) as int) =~= d);
    }
    if kind == TAGGED {
        assert(s.subrange((prefix + count * width) as int, header as int) =~= e);
    }
    assert(s.subrange(header as int, length as int) =~= data);
}

/// A frame built by [`frame_bytes`] reads back as the frame it was built as:
/// its length, width, shape and count, and the entries it was built with.
#[verifier::spinoff_prover]
pub proof fn lemma_frame_bytes_parse(
    width: nat,
    count: nat,
    kind: nat,
    tag: nat,
    stride: nat,
    positions: Seq<Option<nat>>,
    data: Seq<u8>,
)
    requires
        frame_parts_wf(width, count, kind, tag, stride, positions, data),
    ensures
        parse_frame(frame_bytes(width, count, kind, tag, stride, positions, data)) == Ok::<
            FrameModel,
            Error,
        >(frame_parts_model(width, count, kind, tag, stride, data)),
        frame_bytes(width, count, kind, tag, stride, positions, data).len() == header_size(
            width,
            count,
            kind,
            tag,
        ) + data.len(),
{
    let s = frame_bytes(width, count, kind, tag, stride, positions, data);
    let header = header_size(width, count, kind, tag);
    let prefix = prefix_size(width, count >= COUNT_FOLLOWS, kind);
    let length = header + data.len();
    lemma_frame_bytes_layout(width, count, kind, tag, stride, positions, data);
    lemma_ctrl_byte(width, kind, count);
    crate::bytes::lemma_pow256_values();
    assert(pow256(8) > MAX_FRAME);
    crate::bytes::lemma_le_round_trip_fits(length, width);
    if count >= COUNT_FOLLOWS {
        crate::bytes::lemma_le_round_trip_fits(count, width);
    }
    assert(s.subrange(0, length as int) =~= s);
    assert(uint_at(s, 1, width) == Some(length));
    if kind == PACKED {
        assert(count * stride + prefix <= length);
    } else {
        assert(count * width + prefix <= header);
    }
    if kind == TAGGED {
        let at = prefix + count * width;
        assert(s =~= s.subrange(0, at as int) + varint_bytes(tag) + data);
        crate::varint::lemma_varint_at_round_trip(s.subrange(0, at as int), tag as u64, data);
    }
}

/// Each entry of a frame built by [`frame_bytes`] reads back as the data from
/// the position it was recorded at, and an absent one as absent.
#[verifier::spinoff_prover]
pub proof fn lemma_frame_bytes_entry(
    width: nat,
    count: nat,
    kind: nat,
    tag: nat,
    stride: nat,
    positions: Seq<Option<nat>>,
    data: Seq<u8>,
    index: nat,
)
    requires
        frame_parts_wf(width, count, kind, tag, stride, positions, data),
        kind != PACKED,
        index < count,
    ensures
        frame_entry(
            frame_bytes(width, count, kind, tag, stride, positions, data),
            frame_parts_model(width, count, kind, tag, stride, data),
            index,
        ) == Ok::<Option<Seq<u8>>, Error>(
            match positions[index as int] {
                Some(position) => Some(data.subrange(position as int, data.len() as int)),
                None => None,
            },
        ),
{
    let s = frame_bytes(width, count, kind, tag, stride, positions, data);
    let header = header_size(width, count, kind, tag);
    let prefix = prefix_size(width, count >= COUNT_FOLLOWS, kind);
    let length = header + data.len();
    lemma_frame_bytes_layout(width, count, kind, tag, stride, positions, data);
    lemma_table_bytes(positions, header, width, index as int);
    let at = prefix + index * width;
    assert(index * width + width <= count * width) by (nonlinear_arith)
        requires
            index < count,
    ;
    let table = s.subrange(prefix as int, (prefix + count * width) as int);
    assert(s.subrange(at as int, (at + width) as int) =~= table.subrange(
        (index * width) as int,
        (index * width + width) as int,
    ));
    let offset = offset_of(positions[index as int], header);
    assert(offset <= length);
    crate::bytes::lemma_pow256_values();
    crate::bytes::lemma_le_round_trip_fits(offset, width);
    if let Some(position) = positions[index as int] {
        assert(s.subrange(offset as int, length as int) =~= data.subrange(
            position as int,
            data.len() as int,
        ));
    }
}

pub proof fn lemma_ctrl_byte(width: nat, kind: nat, count: nat)
    requires
        is_width(width),
        kind < 4,
    ensures
        width_of_code((ctrl_byte(width, kind, count) % 4) as nat) == width,
        (ctrl_byte(width, kind, count) / 4) % 4 == kind,
        ctrl_byte(width, kind, count) / 16 == inline_count(count),
        (ctrl_byte(width, kind, count) / 16 == COUNT_FOLLOWS) == (count >= COUNT_FOLLOWS),
{
    let c = code_of_width(width);
    let n = inline_count(count);
    assert(c + 4 * kind + 16 * n < 256);
    let b = (c + 4 * kind + 16 * n) as int;
    assert(b % 4 == c) by (nonlinear_arith)
        requires
            b == c + 4 * kind + 16 * n,
            c < 4,
    ;
    assert(b / 4 == kind + 4 * n) by (nonlinear_arith)
        requires
            b == c + 4 * kind + 16 * n,
            c < 4,
    ;
    assert((kind + 4 * n) % 4 == kind) by (nonlinear_arith)
        requires
            kind < 4,
    ;
    assert(b / 16 == n) by (nonlinear_arith)
        requires
            b == c + 4 * kind + 16 * n,
            c < 4,
            kind < 4,
    ;
}

/// A control byte names one width, one shape and one inline count, and is
/// the control byte of exactly those.
pub proof fn lemma_ctrl_byte_of(ctrl: u8)
    ensures
        ctrl == (ctrl % 4) + 4 * ((ctrl / 4) % 4) + 16 * (ctrl / 16),
        ctrl / 16 < 16,
{
}

/// The offset table holds one entry of `width` bytes per position.
pub proof fn lemma_table_bytes(positions: Seq<Option<nat>>, header: nat, width: nat, i: int)
    requires
        0 <= i < positions.len(),
    ensures
        table_bytes(positions, header, width).len() == positions.len() * width,
        table_bytes(positions, header, width).subrange(i * width, i * width + width) == le_bytes(
            offset_of(positions[i], header),
            width,
        ),
    decreases positions.len(),
{
    lemma_table_bytes_len(positions, header, width);
    let n = positions.len() - 1;
    let front = table_bytes(positions.drop_last(), header, width);
    let last = le_bytes(offset_of(positions.last(), header), width);
    lemma_table_bytes_len(positions.drop_last(), header, width);
    crate::bytes::lemma_le_round_trip(offset_of(positions.last(), header), width);
    assert(n * width + width == positions.len() * width) by (nonlinear_arith)
        requires
            n == positions.len() - 1,
    ;
    if i < n {
        lemma_table_bytes(positions.drop_last(), header, width, i);
        assert(i * width + width <= n * width) by (nonlinear_arith)
            requires
                i < n,
                width >= 0,
        ;
        assert((front + last).subrange(i * width, i * width + width) =~= front.subrange(
            i * width,
            i * width + width,
        ));
    } else {
        assert((front + last).subrange(i * width, i * width + width) =~= last);
    }
}

pub proof fn lemma_table_bytes_len(positions: Seq<Option<nat>>, header: nat, width: nat)
    ensures
        table_bytes(positions, header, width).len() == positions.len() * width,
    decreases positions.len(),
{
    if positions.len() > 0 {
        lemma_table_bytes_len(positions.drop_last(), header, width);
        crate::bytes::lemma_le_round_trip(offset_of(positions.last(), header), width);
        let n = positions.len() - 1;
        assert(n * width + width == positions.len() * width) by (nonlinear_arith)
            requires
                n == positions.len() - 1,
        ;
    }
}

} // verus!
