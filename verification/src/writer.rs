//! Building an encoded message at the end of a buffer.

use crate::bytes::{
    byte_of, le_bytes, le_value, pow256, push_uint, read_uint, twos, write_uint,
};
use crate::format::{
    COUNT_FOLLOWS, MAX_FRAME, NO_SHAPE, PACKED, TABLE, TAGGED, WORD, code_of_width, ctrl_byte, fits,
    frame_bytes, frame_parts_wf, header_size, inline_count, is_width, prefix_size,
    width_of_code,
};
use crate::list::Element;
use crate::frame::prefix;
use crate::varint::{push_varint, put_varint, varint_bytes, varint_len};
use vstd::prelude::*;
use vstd::string::StringSliceAdditionalSpecFns;

verus! {

/// Builds an encoded message at the end of a buffer.
///
/// Every offset a frame holds is relative to the start of that frame, so a
/// message is position independent: what a writer appends decodes the same
/// whether the buffer was empty or already held other messages. That is also
/// what lets a frame be widened as it grows, since widening moves the frames it
/// holds without rewriting them.
pub struct Writer {
    output: Vec<u8>,
}

/// Position of a frame's header, filled in by [`Writer::end_frame`].
///
/// The width the frame is being written at is not held here but in the control
/// byte the frame has already written, so that widening one is invisible to
/// whatever is writing into it.
#[must_use]
pub struct FrameMark {
    start: usize,
    count: usize,
    kind: u8,
    tag: u32,
    stride: usize,
}

impl View for Writer {
    type V = Seq<u8>;

    closed spec fn view(&self) -> Seq<u8> {
        self.output@
    }
}

impl FrameMark {
    /// Where the frame's header begins in the buffer.
    pub closed spec fn start(self) -> nat {
        self.start as nat
    }

    /// How many entries the frame holds.
    pub closed spec fn count(self) -> nat {
        self.count as nat
    }

    /// The frame's shape: a table, a tagged table, or packed.
    pub closed spec fn kind(self) -> nat {
        self.kind as nat
    }

    /// The tag of an enum's frame.
    pub closed spec fn tag(self) -> nat {
        self.tag as nat
    }

    /// Bytes one element of a packed frame occupies.
    pub closed spec fn stride(self) -> nat {
        self.stride as nat
    }

    /// The width the frame currently stores its numbers in, which its control
    /// byte names.
    pub closed spec fn width_in(self, s: Seq<u8>) -> nat {
        width_of_code((s[self.start as int] % 4) as nat)
    }

    /// Bytes the frame's header occupies at its current width.
    pub closed spec fn header_in(self, s: Seq<u8>) -> nat {
        header_size(self.width_in(s), self.count as nat, self.kind as nat, self.tag as nat)
    }

    /// Where the frame's offset table begins.
    pub closed spec fn table_in(self, s: Seq<u8>) -> nat {
        (self.start + prefix_size(
            self.width_in(s),
            self.count >= COUNT_FOLLOWS,
            self.kind as nat,
        )) as nat
    }

    /// The offset recorded so far for entry `i`, 0 where none is.
    pub closed spec fn offset_in(self, s: Seq<u8>, i: nat) -> nat {
        let w = self.width_in(s);
        let at = self.table_in(s) + i * w;
        le_value(s.subrange(at as int, (at + w) as int))
    }

    /// Whether the frame is one begun in `s` and not yet ended: its control
    /// byte and header are in place, and every entry recorded so far points
    /// into what follows its header.
    pub closed spec fn is_open_in(self, s: Seq<u8>) -> bool {
        let ctrl = s[self.start as int];
        let header = self.header_in(s);
        &&& self.start < s.len()
        &&& self.kind < NO_SHAPE
        &&& self.count <= MAX_FRAME
        &&& self.stride < 256
        &&& (ctrl / 4) % 4 == self.kind
        &&& ctrl / 16 == inline_count(self.count as nat)
        &&& self.start + header <= s.len()
        &&& self.kind != PACKED ==> forall|i: nat|
            i < self.count ==> #[trigger] self.offset_in(s, i) == 0 || (header <= self.offset_in(
                s,
                i,
            ) && self.offset_in(s, i) <= s.len() - self.start)
    }

    /// What has been written into the frame since its header.
    pub closed spec fn data_in(self, s: Seq<u8>) -> Seq<u8> {
        s.subrange(self.start + self.header_in(s), s.len() as int)
    }

    /// Where in that data each entry begins, for the entries recorded so far.
    pub closed spec fn positions_in(self, s: Seq<u8>) -> Seq<Option<nat>> {
        Seq::new(
            self.count as nat,
            |i: int|
                if self.kind == PACKED || self.offset_in(s, i as nat) == 0 {
                    None
                } else {
                    Some((self.offset_in(s, i as nat) - self.header_in(s)) as nat)
                },
        )
    }

    /// Whether the buffer has room for the frame's header to grow to its
    /// widest.
    pub open spec fn has_room_in(self, s: Seq<u8>) -> bool {
        s.len() + header_size(8, self.count(), self.kind(), self.tag()) - self.header_in(s)
            <= usize::MAX
    }
}

/// The width a frame of `length` bytes so far settles at once widened until
/// its length fits, and the length it then has.
pub open spec fn settled(length: nat, width: nat, count: nat, kind: nat, tag: nat) -> (nat, nat)
    decreases 16 - width,
{
    if width == 0 || width >= 8 || fits(length, width) {
        (width, length)
    } else {
        settled(
            (length + header_size(2 * width, count, kind, tag) - header_size(width, count, kind, tag)) as nat,
            2 * width,
            count,
            kind,
            tag,
        )
    }
}

/// Appends `n` zeros.
fn push_zeros(out: &mut Vec<u8>, n: usize)
    ensures
        final(out)@ == old(out)@ + Seq::new(n as nat, |i: int| 0u8),
{
    let mut i: usize = 0;
    while i < n
        invariant
            i <= n,
            out@ == old(out)@ + Seq::new(i as nat, |j: int| 0u8),
        decreases n - i,
    {
        out.push(0);
        i += 1;
        assert(out@ =~= old(out)@ + Seq::new(i as nat, |j: int| 0u8));
    }
}

/// Bytes a frame's whole header occupies, after which its entries begin.
fn header_len(width: usize, count: usize, kind: u8, tag: u32) -> (r: usize)
    requires
        width <= WORD,
        header_size(width as nat, count as nat, kind as nat, tag as nat) <= usize::MAX,
    ensures
        r == header_size(width as nat, count as nat, kind as nat, tag as nat),
{
    proof {
        crate::varint::lemma_varint_bytes_len(tag as nat);
    }
    prefix(width, count >= COUNT_FOLLOWS, kind) + if kind == PACKED {
        0
    } else if kind == TAGGED {
        count * width + varint_len(tag)
    } else {
        count * width
    }
}

/// Whether a number is small enough to be stored in `width` bytes.
fn fits_in(value: usize, width: usize) -> (r: bool)
    requires
        is_width(width as nat),
    ensures
        r == fits(value as nat, width as nat),
{
    if width == WORD {
        return true;
    }
    proof {
        crate::bytes::lemma_pow256_values();
    }
    let limit: u64 = if width == 1 {
        0x100
    } else if width == 2 {
        0x1_0000
    } else {
        0x1_0000_0000
    };
    (value as u64) < limit
}

/// Moves `out[from..from + len]` `shift` bytes to the right, which is where
/// the data of a frame goes when its header grows. The move runs from the end,
/// since the two ranges overlap and no byte moves left.
fn move_right(out: &mut Vec<u8>, from: usize, len: usize, shift: usize)
    requires
        from + len + shift <= old(out)@.len(),
    ensures
        final(out)@.len() == old(out)@.len(),
        forall|k: int| 0 <= k < from + shift ==> final(out)@[k] == old(out)@[k],
        forall|k: int|
            from + shift <= k < from + shift + len ==> final(out)@[k] == old(out)@[k - shift],
        forall|k: int| from + shift + len <= k < old(out)@.len() ==> final(out)@[k] == old(out)@[k],
{
    let mut i = len;
    let total = out.len();
    while i > 0
        invariant
            total == out@.len(),
            out@.len() == old(out)@.len(),
            i <= len,
            from + len + shift <= out@.len(),
            forall|k: int| 0 <= k < from + shift + i ==> out@[k] == old(out)@[k],
            forall|k: int|
                from + shift + i <= k < from + shift + len ==> out@[k] == old(out)@[k - shift],
            forall|k: int| from + shift + len <= k < out@.len() ==> out@[k] == old(out)@[k],
        decreases i,
    {
        i -= 1;
        let byte = out[from + i];
        out.set(from + shift + i, byte);
    }
}

/// The offset an entry has once its frame's header has grown by `shift`
/// bytes: an absent one stays absent.
pub open spec fn shifted(offset: nat, shift: nat) -> nat {
    if offset == 0 {
        0
    } else {
        offset + shift
    }
}

/// Rewrites the `count` offsets of `width` bytes at `table` as offsets of twice
/// that width at `wide`, each moved along by `shift`. The table is rewritten
/// from its end: no entry moves left, so a wider entry would otherwise cover a
/// narrow one still unread.
fn rewrite_table(out: &mut Vec<u8>, table: usize, wide: usize, count: usize, width: usize, shift: usize)
    requires
        width == 1 || width == 2 || width == 4,
        table + width <= wide,
        wide + count * (2 * width) <= old(out)@.len(),
        forall|j: nat|
            j < count ==> #[trigger] le_value(
                old(out)@.subrange(table + j * width, table + j * width + width),
            ) + shift <= usize::MAX,
    ensures
        final(out)@.len() == old(out)@.len(),
        forall|k: int| 0 <= k < wide ==> final(out)@[k] == old(out)@[k],
        forall|k: int| wide + count * (2 * width) <= k < old(out)@.len() ==> final(out)@[k] == old(
            out,
        )@[k],
        rewritten_from(
            old(out)@,
            final(out)@,
            table as nat,
            wide as nat,
            count as nat,
            width as nat,
            shift as nat,
            0,
        ),
{
    let wider = 2 * width;
    let mut i = count;
    let total = out.len();
    while i > 0
        invariant
            total == out@.len(),
            out@.len() == old(out)@.len(),
            wider == 2 * width,
            width == 1 || width == 2 || width == 4,
            table + width <= wide,
            i <= count,
            wide + count * wider <= out@.len(),
            forall|j: nat|
                j < count ==> #[trigger] le_value(
                    old(out)@.subrange(table + j * width, table + j * width + width),
                ) + shift <= usize::MAX,
            forall|k: int| 0 <= k < wide + i * wider ==> out@[k] == old(out)@[k],
            forall|k: int| wide + count * wider <= k < out@.len() ==> out@[k] == old(out)@[k],
            rewritten_from(
                old(out)@,
                out@,
                table as nat,
                wide as nat,
                count as nat,
                width as nat,
                shift as nat,
                i as nat,
            ),
        decreases i,
    {
        i -= 1;
        proof {
            lemma_mul_step(i as nat, width as nat);
            lemma_mul_step(i as nat, wider as nat);
            lemma_mul_le(i as nat, count as nat, wider as nat);
            lemma_mul_le((i + 1) as nat, count as nat, wider as nat);
            assert(table + i * width + width <= wide + (i + 1) * wider) by (nonlinear_arith)
                requires
                    table + width <= wide,
                    wider == 2 * width,
                    width >= 1,
            ;
            assert(out@.subrange(table + i * width, table + i * width + width) =~= old(
                out,
            )@.subrange(table + i * width, table + i * width + width));
        }
        let offset = match read_uint(out, table + i * width, width) {
            Ok(offset) => offset,
            Err(_) => {
                proof {
                    crate::bytes::lemma_le_value_bound(
                        old(out)@.subrange(table + i * width, table + i * width + width),
                    );
                    assert(le_value(
                        old(out)@.subrange(table + i * width, table + i * width + width),
                    ) + shift <= usize::MAX);
                }
                vstd::pervasive::unreached()
            },
        };
        let moved = if offset == 0 {
            0
        } else {
            offset + shift
        };
        let ghost before = out@;
        write_uint(out, wide + i * wider, moved, wider);
        proof {
            lemma_rewrite_step(
                old(out)@,
                before,
                out@,
                table as nat,
                wide as nat,
                count as nat,
                width as nat,
                shift as nat,
                i as nat,
                moved as nat,
            );
        }
    }
}

/// The entries of a table being rewritten from its end: past `i`, rewritten
/// as wider ones.
pub open spec fn rewritten_from(
    old: Seq<u8>,
    out: Seq<u8>,
    table: nat,
    wide: nat,
    count: nat,
    width: nat,
    shift: nat,
    i: nat,
) -> bool {
    forall|j: nat|
        i <= j < count ==> #[trigger] out.subrange(
            (wide + j * (2 * width)) as int,
            (wide + j * (2 * width) + 2 * width) as int,
        ) == le_bytes(
            shifted(
                le_value(old.subrange((table + j * width) as int, (table + j * width + width) as int)),
                shift,
            ),
            2 * width,
        )
}

proof fn lemma_rewrite_step(
    old: Seq<u8>,
    before: Seq<u8>,
    out: Seq<u8>,
    table: nat,
    wide: nat,
    count: nat,
    width: nat,
    shift: nat,
    i: nat,
    moved: nat,
)
    requires
        width >= 1,
        i < count,
        wide + count * (2 * width) <= before.len(),
        out.len() == before.len(),
        rewritten_from(old, before, table, wide, count, width, shift, i + 1),
        moved == shifted(
            le_value(old.subrange((table + i * width) as int, (table + i * width + width) as int)),
            shift,
        ),
        out.subrange((wide + i * (2 * width)) as int, (wide + i * (2 * width) + 2 * width) as int)
            == le_bytes(moved, 2 * width),
        forall|k: int|
            0 <= k < before.len() && !(wide + i * (2 * width) <= k < wide + i * (2 * width) + 2
                * width) ==> out[k] == before[k],
    ensures
        rewritten_from(old, out, table, wide, count, width, shift, i),
{
    let wider = 2 * width;
    assert forall|j: nat| i <= j < count implies #[trigger] out.subrange(
        (wide + j * wider) as int,
        (wide + j * wider + wider) as int,
    ) == le_bytes(
        shifted(
            le_value(old.subrange((table + j * width) as int, (table + j * width + width) as int)),
            shift,
        ),
        wider,
    ) by {
        if j > i {
            lemma_mul_le(i + 1, j, wider);
            lemma_mul_step(i, wider);
            lemma_mul_step(j, wider);
            lemma_mul_le(j + 1, count, wider);
            assert(out.subrange((wide + j * wider) as int, (wide + j * wider + wider) as int)
                =~= before.subrange((wide + j * wider) as int, (wide + j * wider + wider) as int));
        }
    }
}

/// `(i + 1) * s` is `i * s + s`.
pub proof fn lemma_mul_step(i: nat, s: nat)
    ensures
        (i + 1) * s == i * s + s,
        i * s >= 0,
{
    assert((i + 1) * s == i * s + s) by (nonlinear_arith);
}

/// Multiplying by the same number keeps order.
pub proof fn lemma_mul_le(a: nat, b: nat, s: nat)
    requires
        a <= b,
    ensures
        a * s <= b * s,
{
    assert(a * s <= b * s) by (nonlinear_arith)
        requires
            a <= b,
    ;
}

impl Writer {
    /// Writes at the end of `output`, leaving what it already holds alone.
    pub fn new(output: Vec<u8>) -> (r: Self)
        ensures
            r@ == output@,
    {
        Self { output }
    }

    /// The buffer, holding what was there before and everything written since.
    pub fn finish(self) -> (r: Vec<u8>)
        ensures
            r@ == self@,
    {
        self.output
    }

    /// The width `mark`'s frame stores its numbers in, which its control byte
    /// names.
    fn width(&self, mark: &FrameMark) -> (r: usize)
        requires
            mark.start() < self@.len(),
        ensures
            r == mark.width_in(self@),
            is_width(r as nat),
    {
        crate::frame::width_of(self.output[mark.start] % 4)
    }

    /// Doubles the width `mark`'s frame stores its numbers in, moving what it
    /// holds along and rewriting the offsets recorded so far.
    #[verifier::rlimit(40)]
    #[verifier::spinoff_prover]
    fn widen(&mut self, mark: &FrameMark)
        requires
            mark.is_open_in(old(self)@),
            mark.width_in(old(self)@) < 8,
            mark.has_room_in(old(self)@),
        ensures
            widened(old(self)@, final(self)@, *mark),
            mark.width_in(final(self)@) == 2 * mark.width_in(old(self)@),
    {
        let ghost s0 = self@;
        let width = self.width(mark);
        let wider = width * 2;
        proof {
            lemma_header_growth(width as nat, mark.count(), mark.kind(), mark.tag());
            lemma_header_growth(wider as nat, mark.count(), mark.kind(), mark.tag());
        }
        let header = header_len(width, mark.count, mark.kind, mark.tag);
        let shift = header_len(wider, mark.count, mark.kind, mark.tag) - header;
        let from = mark.start + header;
        let data = self.output.len() - from;
        push_zeros(&mut self.output, shift);
        let ghost s1 = self@;
        move_right(&mut self.output, from, data, shift);
        let ghost s2 = self@;
        if mark.kind != PACKED {
            let follows = mark.count >= COUNT_FOLLOWS;
            let table = mark.start + prefix(width, follows, mark.kind);
            let wide = mark.start + prefix(wider, follows, mark.kind);
            proof {
                assert forall|j: nat| j < mark.count() implies #[trigger] le_value(
                    s2.subrange(table + j * width, table + j * width + width),
                ) + shift <= usize::MAX by {
                    lemma_offset_within_header(s0, *mark, j);
                    assert(s2.subrange(table + j * width, table + j * width + width) =~= s0.subrange(
                        table + j * width,
                        table + j * width + width,
                    ));
                    assert(mark.offset_in(s0, j) == le_value(
                        s0.subrange(table + j * width, table + j * width + width),
                    ));
                }
                assert(mark.count() * wider == 2 * (mark.count() * width)) by (nonlinear_arith)
                    requires
                        wider == 2 * width,
                ;
            }
            rewrite_table(&mut self.output, table, wide, mark.count, width, shift);
        }
        let ghost s3 = self@;
        let ctrl = self.output[mark.start];
        let code: u8 = if wider == 2 {
            1
        } else if wider == 4 {
            2
        } else {
            3
        };
        self.output.set(mark.start, ctrl - ctrl % 4 + code);
        proof {
            assert forall|k: int| 0 <= k < from implies s2[k] == s0[k] by {
                assert(s1[k] == s0[k]);
            }
            assert forall|k: int| from + shift <= k < s2.len() implies s2[k] == s0[k - shift] by {
                assert(s1[k - shift] == s0[k - shift]);
            }
            lemma_widen_result(s0, s2, s3, self@, *mark, shift as nat, ctrl, code);
        }
    }

    /// Widens the frame until where it ends can be stored, which is what both
    /// an entry's offset and the frame's own length have to fit in, and hands
    /// back the width it settled at.
    #[verifier::spinoff_prover]
    fn widen_to_fit(&mut self, mark: &FrameMark) -> (r: usize)
        requires
            mark.is_open_in(old(self)@),
            mark.has_room_in(old(self)@),
            !fits((old(self)@.len() - mark.start()) as nat, mark.width_in(old(self)@)),
        ensures
            widened(old(self)@, final(self)@, *mark),
            r == mark.width_in(final(self)@),
            fits((final(self)@.len() - mark.start()) as nat, r as nat),
            settled(
                (old(self)@.len() - mark.start()) as nat,
                mark.width_in(old(self)@),
                mark.count(),
                mark.kind(),
                mark.tag(),
            ) == (r as nat, (final(self)@.len() - mark.start()) as nat),
    {
        let ghost s0 = self@;
        proof {
            lemma_settled_step(s0, *mark);
        }
        self.widen(mark);
        let mut width = self.width(mark);
        while !fits_in(self.output.len() - mark.start, width)
            invariant
                mark.is_open_in(s0),
                widened(s0, self@, *mark),
                width == mark.width_in(self@),
                settled(
                    (s0.len() - mark.start()) as nat,
                    mark.width_in(s0),
                    mark.count(),
                    mark.kind(),
                    mark.tag(),
                ) == settled(
                    (self@.len() - mark.start()) as nat,
                    mark.width_in(self@),
                    mark.count(),
                    mark.kind(),
                    mark.tag(),
                ),
            decreases 8 - width,
        {
            let ghost s1 = self@;
            proof {
                lemma_settled_step(s1, *mark);
            }
            self.widen(mark);
            proof {
                lemma_widened_trans(s0, s1, self@, *mark);
            }
            width = self.width(mark);
        }
        width
    }

    /// Records that whatever is written next is the entry at `index`. A packed
    /// frame needs no record: an element is where its position puts it.
    #[verifier::spinoff_prover]
    pub fn begin_entry(&mut self, mark: &FrameMark, index: usize)
        requires
            mark.is_open_in(old(self)@),
            mark.has_room_in(old(self)@),
            mark.kind() != PACKED ==> index < mark.count(),
        ensures
            mark.kind() == PACKED ==> final(self)@ == old(self)@,
            mark.kind() != PACKED ==> entry_begun(old(self)@, final(self)@, *mark, index as nat),
    {
        if mark.kind == PACKED {
            return;
        }
        let ghost s0 = self@;
        let mut width = self.width(mark);
        if !fits_in(self.output.len() - mark.start, width) {
            width = self.widen_to_fit(mark);
        } else {
            proof {
                lemma_widened_refl(s0, *mark);
            }
        }
        let ghost s1 = self@;
        let at = self.output.len() - mark.start;
        let table = mark.start + prefix(width, mark.count >= COUNT_FOLLOWS, mark.kind);
        proof {
            lemma_offset_within_header(s1, *mark, index as nat);
        }
        write_uint(&mut self.output, table + index * width, at, width);
        proof {
            lemma_entry_written(s0, s1, self@, *mark, index as nat);
        }
    }

    /// Writes what only the finished frame knows: its length, and the tag or
    /// element width its shape calls for.
    ///
    /// What it leaves behind the frame's start is the frame, finished at the
    /// width its length settled at: its header, then the data written into it,
    /// whose entries begin where they were recorded.
    #[verifier::rlimit(80)]
    #[verifier::spinoff_prover]
    pub fn end_frame(&mut self, mark: FrameMark)
        requires
            mark.is_open_in(old(self)@),
            mark.has_room_in(old(self)@),
            settled(
                (old(self)@.len() - mark.start()) as nat,
                mark.width_in(old(self)@),
                mark.count(),
                mark.kind(),
                mark.tag(),
            ).1 <= MAX_FRAME,
        ensures
            ended(old(self)@, final(self)@, mark),
    {
        let ghost s0 = self@;
        let mut width = self.width(&mark);
        if !fits_in(self.output.len() - mark.start, width) {
            width = self.widen_to_fit(&mark);
        } else {
            proof {
                lemma_widened_refl(s0, mark);
            }
        }
        let ghost s1 = self@;
        let length = self.output.len() - mark.start;
        proof {
            lemma_header_growth(width as nat, mark.count(), mark.kind(), mark.tag());
            crate::varint::lemma_varint_bytes_len(mark.tag());
            lemma_mul_le(0, mark.count(), width as nat);
        }
        let follows = mark.count >= COUNT_FOLLOWS;
        let table = mark.start + prefix(width, follows, mark.kind);
        let mut at = mark.start + 1;
        write_uint(&mut self.output, at, length, width);
        let ghost s2 = self@;
        at += width;
        if follows {
            write_uint(&mut self.output, at, mark.count, width);
            at += width;
        }
        let ghost s3 = self@;
        if mark.kind == PACKED {
            self.output.set(at, mark.stride as u8);
        } else if mark.kind == TAGGED {
            put_varint(&mut self.output, at + mark.count * width, mark.tag);
        }
        let ghost s4 = self@;
        proof {
            lemma_end_frame_writes(s1, s2, s3, s4, mark);
            lemma_end_frame(s0, s1, s4, mark);
        }
    }

    /// Begins a frame of `count` entries. Entries left unwritten decode as
    /// absent.
    pub fn begin_frame(&mut self, count: usize) -> (mark: FrameMark)
        requires
            count <= MAX_FRAME,
            old(self)@.len() + header_size(1, count as nat, TABLE as nat, 0) <= usize::MAX,
        ensures
            begun(old(self)@, final(self)@, mark, count as nat, TABLE as nat, 0, 0),
    {
        self.begin(count, TABLE, 0, 0)
    }

    /// Begins the frame of an enum: the tag naming its variant, and that
    /// variant's fields as the frame's own entries.
    pub fn begin_variant(&mut self, tag: u32, count: usize) -> (mark: FrameMark)
        requires
            count <= MAX_FRAME,
            old(self)@.len() + header_size(1, count as nat, TAGGED as nat, tag as nat)
                <= usize::MAX,
        ensures
            begun(old(self)@, final(self)@, mark, count as nat, TAGGED as nat, tag as nat, 0),
    {
        self.begin(count, TAGGED, tag, 0)
    }

    /// Begins the frame of a list of `count` elements, packed where every
    /// element of `E` is the same width.
    pub fn begin_list<E: Element + ?Sized>(&mut self, count: usize) -> (mark: FrameMark)
        requires
            count <= MAX_FRAME,
            old(self)@.len() + header_size(1, count as nat, TABLE as nat, 0) + 1 <= usize::MAX,
        ensures
            match E::packed_as() {
                Some(packing) => begun(
                    old(self)@,
                    final(self)@,
                    mark,
                    count as nat,
                    PACKED as nat,
                    0,
                    packing.width as nat,
                ),
                None => begun(old(self)@, final(self)@, mark, count as nat, TABLE as nat, 0, 0),
            },
    {
        match E::packing() {
            Some(packing) => self.begin(count, PACKED, 0, packing.width as usize),
            None => self.begin_frame(count),
        }
    }

    #[verifier::spinoff_prover]
    fn begin(&mut self, count: usize, kind: u8, tag: u32, stride: usize) -> (mark: FrameMark)
        requires
            count <= MAX_FRAME,
            kind < NO_SHAPE,
            stride < 256,
            old(self)@.len() + header_size(1, count as nat, kind as nat, tag as nat)
                <= usize::MAX,
        ensures
            begun(old(self)@, final(self)@, mark, count as nat, kind as nat, tag as nat, stride as nat),
    {
        let start = self.output.len();
        // A frame begins at the narrowest width, which is where most of them
        // end, and is widened by whatever outgrows it.
        let inline: u8 = if count < COUNT_FOLLOWS {
            count as u8
        } else {
            COUNT_FOLLOWS as u8
        };
        self.output.push(kind * 4 + inline * 16);
        let header = header_len(1, count, kind, tag);
        push_zeros(&mut self.output, header - 1);
        let mark = FrameMark { start, count, kind, tag, stride };
        proof {
            let s = self.output@;
            assert(s[start as int] == kind * 4 + inline * 16);
            assert((s[start as int] / 4) % 4 == kind && s[start as int] / 16 == inline
                && s[start as int] % 4 == 0) by (nonlinear_arith)
                requires
                    s[start as int] == kind * 4 + inline * 16,
                    kind < 4,
                    inline < 16,
            ;
            assert(mark.width_in(s) == 1);
            assert forall|i: nat| kind != PACKED && i < count implies #[trigger] mark.offset_in(s, i) == 0 by {
                let at = mark.table_in(s) + i * 1;
                assert(at + 1 <= start + header) by (nonlinear_arith)
                    requires
                        at == mark.table_in(s) + i * 1,
                        i < count,
                        mark.table_in(s) + count * 1 <= start + header,
                ;
                crate::bytes::lemma_le_value_zeros(s.subrange(at as int, (at + 1) as int));
            }
            assert(mark.data_in(s) =~= Seq::<u8>::empty());
            assert(mark.positions_in(s) =~= Seq::new(count as nat, |i: int| None::<nat>));
            assert(s.subrange(0, start as int) =~= old(self)@);
            assert(code_of_width(1) == 0);
            assert(s =~= old(self)@ + seq![ctrl_byte(1, kind as nat, count as nat)] + Seq::new(
                (header_size(1, count as nat, kind as nat, tag as nat) - 1) as nat,
                |i: int| 0u8,
            ));
        }
        mark
    }

    pub fn write_bool(&mut self, value: bool)
        ensures
            final(self)@ == old(self)@ + seq![if value {
                1u8
            } else {
                0u8
            }],
    {
        self.output.push(if value {
            1
        } else {
            0
        });
    }

    pub fn write_u8(&mut self, value: u8)
        ensures
            final(self)@ == old(self)@ + le_bytes(value as nat, 1),
    {
        push_uint(&mut self.output, value as u128, 1);
    }

    pub fn write_u16(&mut self, value: u16)
        ensures
            final(self)@ == old(self)@ + le_bytes(value as nat, 2),
    {
        push_uint(&mut self.output, value as u128, 2);
    }

    pub fn write_u32(&mut self, value: u32)
        ensures
            final(self)@ == old(self)@ + le_bytes(value as nat, 4),
    {
        push_uint(&mut self.output, value as u128, 4);
    }

    pub fn write_u64(&mut self, value: u64)
        ensures
            final(self)@ == old(self)@ + le_bytes(value as nat, 8),
    {
        push_uint(&mut self.output, value as u128, 8);
    }

    pub fn write_u128(&mut self, value: u128)
        ensures
            final(self)@ == old(self)@ + le_bytes(value as nat, 16),
    {
        push_uint(&mut self.output, value, 16);
    }

    pub fn write_i8(&mut self, value: i8)
        ensures
            final(self)@ == old(self)@ + le_bytes(twos(value as int, 1), 1),
    {
        let bits: u8 = if value >= 0 {
            value as u8
        } else {
            (value as i16 + 0x100) as u8
        };
        proof {
            crate::bytes::lemma_pow256_values();
        }
        push_uint(&mut self.output, bits as u128, 1);
    }

    pub fn write_i16(&mut self, value: i16)
        ensures
            final(self)@ == old(self)@ + le_bytes(twos(value as int, 2), 2),
    {
        let bits: u16 = if value >= 0 {
            value as u16
        } else {
            (value as i32 + 0x1_0000) as u16
        };
        proof {
            crate::bytes::lemma_pow256_values();
        }
        push_uint(&mut self.output, bits as u128, 2);
    }

    pub fn write_i32(&mut self, value: i32)
        ensures
            final(self)@ == old(self)@ + le_bytes(twos(value as int, 4), 4),
    {
        let bits: u32 = if value >= 0 {
            value as u32
        } else {
            (value as i64 + 0x1_0000_0000) as u32
        };
        proof {
            crate::bytes::lemma_pow256_values();
        }
        push_uint(&mut self.output, bits as u128, 4);
    }

    pub fn write_i64(&mut self, value: i64)
        ensures
            final(self)@ == old(self)@ + le_bytes(twos(value as int, 8), 8),
    {
        let bits: u64 = if value >= 0 {
            value as u64
        } else {
            (value as i128 + 0x1_0000_0000_0000_0000) as u64
        };
        proof {
            crate::bytes::lemma_pow256_values();
        }
        push_uint(&mut self.output, bits as u128, 8);
    }

    pub fn write_i128(&mut self, value: i128)
        ensures
            final(self)@ == old(self)@ + le_bytes(twos(value as int, 16), 16),
    {
        let bits: u128 = if value >= 0 {
            value as u128
        } else {
            (value - i128::MIN) as u128 + 0x8000_0000_0000_0000_0000_0000_0000_0000
        };
        proof {
            crate::bytes::lemma_pow256_values();
        }
        push_uint(&mut self.output, bits, 16);
    }

    /// A `char` is written as the Unicode scalar value it is, which is what
    /// makes reading one a range check rather than a decode.
    pub fn write_char(&mut self, value: char)
        ensures
            final(self)@ == old(self)@ + le_bytes(value as nat, 4),
    {
        self.write_u32(value as u32);
    }

    /// Writes the number naming the variant of a value enum that carries no
    /// fields, which is all such an enum is on the wire.
    pub fn write_number(&mut self, value: u32)
        ensures
            final(self)@ == old(self)@ + varint_bytes(value as nat),
    {
        push_varint(&mut self.output, value as u64);
    }

    pub fn write_bytes(&mut self, value: &[u8])
        ensures
            final(self)@ == old(self)@ + varint_bytes(value@.len()) + value@,
    {
        push_varint(&mut self.output, value.len() as u64);
        let ghost before = self.output@;
        let mut i: usize = 0;
        while i < value.len()
            invariant
                i <= value@.len(),
                self.output@ == before + value@.subrange(0, i as int),
            decreases value@.len() - i,
        {
            self.output.push(value[i]);
            i += 1;
            assert(self.output@ =~= before + value@.subrange(0, i as int));
        }
        assert(value@.subrange(0, i as int) =~= value@);
    }

    pub fn write_str(&mut self, value: &str)
        ensures
            final(self)@ == old(self)@ + varint_bytes(value.spec_bytes().len()) + value.spec_bytes(),
    {
        self.write_bytes(value.as_bytes());
    }
}

/// `after` is `before` with a frame of that shape begun at its end, and `mark`
/// is that frame: open, at the narrowest width, with nothing written into it.
/// Its header is its control byte and then zeros, where the length, the count,
/// the offsets, the tag and the element width go once the frame is ended. Where
/// the buffer can take that header at its widest, the frame has room to grow.
pub open spec fn begun(
    before: Seq<u8>,
    after: Seq<u8>,
    mark: FrameMark,
    count: nat,
    kind: nat,
    tag: nat,
    stride: nat,
) -> bool {
    &&& mark.start() == before.len()
    &&& mark.count() == count
    &&& mark.kind() == kind
    &&& mark.tag() == tag
    &&& mark.stride() == stride
    &&& mark.is_open_in(after)
    &&& mark.width_in(after) == 1
    &&& after == before + seq![ctrl_byte(1, kind, count)] + Seq::new(
        (header_size(1, count, kind, tag) - 1) as nat,
        |i: int| 0u8,
    )
    &&& before.len() + header_size(8, count, kind, tag) <= usize::MAX ==> mark.has_room_in(after)
    &&& mark.data_in(after) == Seq::<u8>::empty()
    &&& mark.positions_in(after) == Seq::new(count, |i: int| None::<nat>)
}

/// `after` is `before` with `mark`'s frame widened: its header has grown, and
/// its data and the entries it recorded are as they were.
pub open spec fn widened(before: Seq<u8>, after: Seq<u8>, mark: FrameMark) -> bool {
    &&& mark.is_open_in(after)
    &&& mark.width_in(after) >= mark.width_in(before)
    &&& after.len() == before.len() + mark.header_in(after) - mark.header_in(before)
    &&& mark.data_in(after) == mark.data_in(before)
    &&& mark.positions_in(after) == mark.positions_in(before)
    &&& after.subrange(0, mark.start() as int) == before.subrange(0, mark.start() as int)
    &&& mark.has_room_in(after)
}

#[verifier::spinoff_prover]
proof fn lemma_widen_offset(
    s0: Seq<u8>,
    s2: Seq<u8>,
    s3: Seq<u8>,
    s4: Seq<u8>,
    mark: FrameMark,
    shift: nat,
    i: nat,
)
    requires
        mark.is_open_in(s0),
        mark.width_in(s0) < 8,
        mark.has_room_in(s0),
        shift == header_size(2 * mark.width_in(s0), mark.count(), mark.kind(), mark.tag())
            - mark.header_in(s0),
        s2.len() == s0.len() + shift,
        forall|k: int| 0 <= k < mark.start() + mark.header_in(s0) ==> s2[k] == s0[k],
        forall|k: int|
            mark.start() + mark.header_in(s0) + shift <= k < s2.len() ==> s2[k] == s0[k - shift],
        mark.kind() == PACKED ==> s3 == s2,
        mark.kind() != PACKED ==> {
            let w = mark.width_in(s0);
            let table = mark.start() + prefix_size(w, mark.count() >= COUNT_FOLLOWS, mark.kind());
            let wide = mark.start() + prefix_size(
                2 * w,
                mark.count() >= COUNT_FOLLOWS,
                mark.kind(),
            );
            &&& s3.len() == s2.len()
            &&& forall|k: int| 0 <= k < wide ==> s3[k] == s2[k]
            &&& forall|k: int| wide + mark.count() * (2 * w) <= k < s2.len() ==> s3[k] == s2[k]
            &&& rewritten_from(s2, s3, table, wide, mark.count(), w, shift, 0)
        },
        s4.len() == s3.len(),
        forall|k: int| 0 <= k < s4.len() && k != mark.start() ==> s4[k] == s3[k],
        mark.kind() != PACKED,
        i < mark.count(),
        mark.width_in(s4) == 2 * mark.width_in(s0),
    ensures
        mark.offset_in(s4, i) == shifted(mark.offset_in(s0, i), shift),
{
    let start = mark.start();
    let w = mark.width_in(s0);
    let w2 = 2 * w;
    let hs = mark.header_in(s0);
    lemma_header_growth(w, mark.count(), mark.kind(), mark.tag());
    let follows = mark.count() >= COUNT_FOLLOWS;
    let wide = start + prefix_size(w2, follows, mark.kind());
    let table = start + prefix_size(w, follows, mark.kind());
    lemma_offset_within_header(s0, mark, i);
    lemma_mul_step(i, w2);
    lemma_mul_le(i + 1, mark.count(), w2);
    assert(mark.count() * w2 == 2 * (mark.count() * w)) by (nonlinear_arith)
        requires
            w2 == 2 * w,
    ;
    let old_slot = s2.subrange((table + i * w) as int, (table + i * w + w) as int);
    assert(old_slot =~= s0.subrange((table + i * w) as int, (table + i * w + w) as int));
    let new_at = wide + i * w2;
    assert(s4.subrange(new_at as int, (new_at + w2) as int) =~= s3.subrange(
        new_at as int,
        (new_at + w2) as int,
    ));
    let o = mark.offset_in(s0, i);
    crate::bytes::lemma_le_value_bound(old_slot);
    crate::bytes::lemma_pow256_values();
    if o != 0 {
        assert(o + shift < pow256(w2)) by {
            if w == 1 {
            } else if w == 2 {
            } else {
                assert(w == 4);
            }
        }
    }
    crate::bytes::lemma_le_round_trip_fits(shifted(o, shift), w2);
}

#[verifier::spinoff_prover]
proof fn lemma_widen_result(
    s0: Seq<u8>,
    s2: Seq<u8>,
    s3: Seq<u8>,
    s4: Seq<u8>,
    mark: FrameMark,
    shift: nat,
    ctrl: u8,
    code: u8,
)
    requires
        mark.is_open_in(s0),
        mark.width_in(s0) < 8,
        mark.has_room_in(s0),
        shift == header_size(2 * mark.width_in(s0), mark.count(), mark.kind(), mark.tag())
            - mark.header_in(s0),
        code as nat == code_of_width(2 * mark.width_in(s0)),
        s2.len() == s0.len() + shift,
        forall|k: int| 0 <= k < mark.start() + mark.header_in(s0) ==> s2[k] == s0[k],
        forall|k: int|
            mark.start() + mark.header_in(s0) + shift <= k < s2.len() ==> s2[k] == s0[k - shift],
        mark.kind() == PACKED ==> s3 == s2,
        mark.kind() != PACKED ==> {
            let w = mark.width_in(s0);
            let table = mark.start() + prefix_size(w, mark.count() >= COUNT_FOLLOWS, mark.kind());
            let wide = mark.start() + prefix_size(
                2 * w,
                mark.count() >= COUNT_FOLLOWS,
                mark.kind(),
            );
            &&& s3.len() == s2.len()
            &&& forall|k: int| 0 <= k < wide ==> s3[k] == s2[k]
            &&& forall|k: int| wide + mark.count() * (2 * w) <= k < s2.len() ==> s3[k] == s2[k]
            &&& rewritten_from(s2, s3, table, wide, mark.count(), w, shift, 0)
        },
        ctrl == s3[mark.start() as int],
        s4 == s3.update(mark.start() as int, (ctrl - ctrl % 4 + code) as u8),
    ensures
        widened(s0, s4, mark),
        mark.width_in(s4) == 2 * mark.width_in(s0),
{
    let start = mark.start();
    let w = mark.width_in(s0);
    let w2 = 2 * w;
    let hs = mark.header_in(s0);
    let from = start + hs;
    lemma_header_growth(w, mark.count(), mark.kind(), mark.tag());
    lemma_header_growth(w2, mark.count(), mark.kind(), mark.tag());
    let hs2 = header_size(w2, mark.count(), mark.kind(), mark.tag());
    let follows = mark.count() >= COUNT_FOLLOWS;
    let wide = start + prefix_size(w2, follows, mark.kind());
    assert(mark.count() * w2 == 2 * (mark.count() * w)) by (nonlinear_arith)
        requires
            w2 == 2 * w,
    ;
    assert(wide + (if mark.kind() == PACKED {
        0
    } else {
        mark.count() * w2
    }) <= start + hs2);
    // The control byte keeps its shape and count, and names the wider width.
    assert(s3[start as int] == s0[start as int]);
    assert((s4[start as int] / 4) % 4 == (ctrl / 4) % 4 && s4[start as int] / 16 == ctrl / 16
        && s4[start as int] % 4 == code) by (nonlinear_arith)
        requires
            s4[start as int] == ctrl - ctrl % 4 + code,
            code < 4,
    ;
    assert(mark.width_in(s4) == w2);
    assert(mark.header_in(s4) == hs2);
    // The data moved along with the header.
    assert forall|k: int| start + hs2 <= k < s4.len() implies s4[k] == s0[k - shift] by {
        assert(s3[k] == s2[k]);
    }
    assert(mark.data_in(s4) =~= mark.data_in(s0));
    // Every offset moved along with it too.
    if mark.kind() != PACKED {
        assert forall|i: nat| i < mark.count() implies #[trigger] mark.offset_in(s4, i)
            == shifted(mark.offset_in(s0, i), shift) by {
            lemma_widen_offset(s0, s2, s3, s4, mark, shift, i);
        }
    }
    assert(mark.positions_in(s4) =~= mark.positions_in(s0));
    assert(s4.subrange(0, start as int) =~= s0.subrange(0, start as int)) by {
        assert forall|k: int| 0 <= k < start implies s4[k] == s0[k] by {
            assert(s3[k] == s2[k]);
        }
    }
}

/// `after` is `before` with entry `index` of `mark`'s frame recorded as
/// beginning where the data now ends, the frame first widened to the narrowest
/// width that where it ends fits in. A frame that needed no widening has only
/// that entry's slot of its offset table rewritten.
pub open spec fn entry_begun(before: Seq<u8>, after: Seq<u8>, mark: FrameMark, index: nat) -> bool {
    &&& mark.is_open_in(after)
    &&& mark.width_in(after) >= mark.width_in(before)
    &&& fits((after.len() - mark.start()) as nat, mark.width_in(after))
    &&& (mark.width_in(after), (after.len() - mark.start()) as nat) == settled(
        (before.len() - mark.start()) as nat,
        mark.width_in(before),
        mark.count(),
        mark.kind(),
        mark.tag(),
    )
    &&& after.len() == before.len() + mark.header_in(after) - mark.header_in(before)
    &&& fits((before.len() - mark.start()) as nat, mark.width_in(before)) ==> {
        let w = mark.width_in(before);
        let slot = mark.start() + prefix_size(w, mark.count() >= COUNT_FOLLOWS, mark.kind())
            + index * w;
        after == before.subrange(0, slot as int) + le_bytes(
            (before.len() - mark.start()) as nat,
            w,
        ) + before.subrange((slot + w) as int, before.len() as int)
    }
    &&& mark.data_in(after) == mark.data_in(before)
    &&& mark.positions_in(after) == mark.positions_in(before).update(
        index as int,
        Some(mark.data_in(before).len()),
    )
    &&& after.subrange(0, mark.start() as int) == before.subrange(0, mark.start() as int)
    &&& mark.has_room_in(after)
}

proof fn lemma_widened_refl(s: Seq<u8>, mark: FrameMark)
    requires
        mark.is_open_in(s),
        mark.has_room_in(s),
    ensures
        widened(s, s, mark),
{
}

proof fn lemma_widened_trans(a: Seq<u8>, b: Seq<u8>, c: Seq<u8>, mark: FrameMark)
    requires
        widened(a, b, mark),
        widened(b, c, mark),
    ensures
        widened(a, c, mark),
{
    assert(c.subrange(0, mark.start() as int) =~= a.subrange(0, mark.start() as int)) by {
        assert forall|k: int| 0 <= k < mark.start() implies c[k] == a[k] by {
            assert(c.subrange(0, mark.start() as int)[k] == b.subrange(0, mark.start() as int)[k]);
            assert(b.subrange(0, mark.start() as int)[k] == a.subrange(0, mark.start() as int)[k]);
        }
    }
}

/// A frame that does not fit its width settles where the frame widened once
/// does.
proof fn lemma_settled_step(s: Seq<u8>, mark: FrameMark)
    requires
        mark.is_open_in(s),
        !fits((s.len() - mark.start()) as nat, mark.width_in(s)),
    ensures
        mark.width_in(s) < 8,
        settled(
            (s.len() - mark.start()) as nat,
            mark.width_in(s),
            mark.count(),
            mark.kind(),
            mark.tag(),
        ) == settled(
            (s.len() - mark.start() + header_size(
                2 * mark.width_in(s),
                mark.count(),
                mark.kind(),
                mark.tag(),
            ) - mark.header_in(s)) as nat,
            2 * mark.width_in(s),
            mark.count(),
            mark.kind(),
            mark.tag(),
        ),
{
}

#[verifier::spinoff_prover]
proof fn lemma_entry_written(s0: Seq<u8>, s1: Seq<u8>, s2: Seq<u8>, mark: FrameMark, index: nat)
    requires
        mark.kind() != PACKED,
        index < mark.count(),
        mark.is_open_in(s0),
        widened(s0, s1, mark),
        fits((s1.len() - mark.start()) as nat, mark.width_in(s1)),
        settled(
            (s0.len() - mark.start()) as nat,
            mark.width_in(s0),
            mark.count(),
            mark.kind(),
            mark.tag(),
        ) == (mark.width_in(s1), (s1.len() - mark.start()) as nat),
        fits((s0.len() - mark.start()) as nat, mark.width_in(s0)) ==> s1 == s0,
        s2.len() == s1.len(),
        ({
            let w = mark.width_in(s1);
            let at = mark.table_in(s1) + index * w;
            &&& s2.subrange(at as int, (at + w) as int) == le_bytes(
                (s1.len() - mark.start()) as nat,
                w,
            )
            &&& forall|k: int|
                0 <= k < s1.len() && !(at <= k < at + w) ==> s2[k] == s1[k]
        }),
    ensures
        entry_begun(s0, s2, mark, index),
{
    let w = mark.width_in(s1);
    let hs = mark.header_in(s1);
    let start = mark.start();
    let at = mark.table_in(s1) + index * w;
    lemma_offset_within_header(s1, mark, index);
    assert(s2[start as int] == s1[start as int]);
    assert(mark.width_in(s2) == w);
    assert(mark.header_in(s2) == hs);
    assert(mark.table_in(s2) == mark.table_in(s1));
    let end = s1.len() - start;
    crate::bytes::lemma_pow256_values();
    assert(end < pow256(w)) by {
        if w == 8 {
            assert(end <= usize::MAX);
        }
    }
    crate::bytes::lemma_le_round_trip_fits(end as nat, w);
    assert forall|i: nat| i < mark.count() implies #[trigger] mark.offset_in(s2, i) == if i
        == index {
        end as nat
    } else {
        mark.offset_in(s1, i)
    } by {
        lemma_offset_within_header(s1, mark, i);
        let slot = mark.table_in(s1) + i * w;
        if i != index {
            if i < index {
                lemma_mul_le(i + 1, index, w);
            } else {
                lemma_mul_le(index + 1, i, w);
            }
            lemma_mul_step(i, w);
            lemma_mul_step(index, w);
            assert(s2.subrange(slot as int, (slot + w) as int) =~= s1.subrange(
                slot as int,
                (slot + w) as int,
            ));
        }
    }
    assert(mark.data_in(s2) =~= mark.data_in(s1));
    assert(mark.positions_in(s2) =~= mark.positions_in(s1).update(
        index as int,
        Some(mark.data_in(s1).len()),
    ));
    assert(s2.subrange(0, start as int) =~= s1.subrange(0, start as int));
    if fits((s0.len() - start) as nat, mark.width_in(s0)) {
        assert(s2 =~= s0.subrange(0, at as int) + le_bytes(end as nat, w) + s0.subrange(
            (at + w) as int,
            s0.len() as int,
        ));
    }
}

/// An open frame lies within the buffer it was begun in: its header, as its
/// width and shape make it, and then the data written into it.
pub proof fn lemma_open_frame_bounds(s: Seq<u8>, mark: FrameMark)
    requires
        mark.is_open_in(s),
    ensures
        mark.header_in(s) == header_size(mark.width_in(s), mark.count(), mark.kind(), mark.tag()),
        mark.start() + mark.header_in(s) <= s.len(),
        mark.data_in(s).len() == s.len() - mark.start() - mark.header_in(s),
{
}

/// Whatever is done past where a frame's data has reached (a frame nested in
/// it begun, an entry of that one recorded, that one widened or ended) leaves
/// the frame as it was: still open, its entries recorded where they were, and
/// its data up to that point unchanged.
pub proof fn lemma_work_past_leaves_frame_alone(s: Seq<u8>, t: Seq<u8>, mark: FrameMark, at: nat)
    requires
        mark.is_open_in(s),
        mark.start() + mark.header_in(s) <= at <= s.len(),
        t.len() >= s.len(),
        t.subrange(0, at as int) == s.subrange(0, at as int),
    ensures
        mark.is_open_in(t),
        mark.header_in(t) == mark.header_in(s),
        mark.positions_in(t) == mark.positions_in(s),
        mark.data_in(t).subrange(0, at - mark.start() - mark.header_in(s)) == mark.data_in(
            s,
        ).subrange(0, at - mark.start() - mark.header_in(s)),
{
    let end = (mark.start() + mark.header_in(s)) as int;
    assert(t.subrange(0, end) =~= s.subrange(0, end)) by {
        assert forall|j: int| 0 <= j < end implies t.subrange(0, end)[j] == s.subrange(0, end)[j] by {
            assert(t.subrange(0, at as int)[j] == s.subrange(0, at as int)[j]);
        }
    }
    lemma_rewrite_after_header(s, t, mark);
    let k = at - mark.start() - mark.header_in(s);
    assert(mark.header_in(t) == mark.header_in(s));
    assert(mark.data_in(t).subrange(0, k) =~= t.subrange(end, at as int));
    assert(mark.data_in(s).subrange(0, k) =~= s.subrange(end, at as int));
    assert(t.subrange(end, at as int) =~= s.subrange(end, at as int)) by {
        assert forall|j: int| end <= j < at implies t[j] == s[j] by {
            assert(0 <= j < at);
            assert(t.subrange(0, at as int)[j] == t[j]);
            assert(s.subrange(0, at as int)[j] == s[j]);
            assert(t.subrange(0, at as int)[j] == s.subrange(0, at as int)[j]);
        }
    }
}

/// `after` is `before` with `mark`'s frame finished: the bytes up to its start
/// as they were, and then the frame, at the width its length settled at.
pub open spec fn ended(before: Seq<u8>, after: Seq<u8>, mark: FrameMark) -> bool {
    let (width, length) = settled(
        (before.len() - mark.start()) as nat,
        mark.width_in(before),
        mark.count(),
        mark.kind(),
        mark.tag(),
    );
    &&& after == before.subrange(0, mark.start() as int) + frame_bytes(
        width,
        mark.count(),
        mark.kind(),
        mark.tag(),
        mark.stride(),
        mark.positions_in(before),
        mark.data_in(before),
    )
    &&& fits(length, width)
    &&& is_width(width)
    &&& length == after.len() - mark.start()
    &&& mark.kind() != PACKED || (mark.stride() > 0 && mark.count() * mark.stride()
        <= mark.data_in(before).len()) ==> frame_parts_wf(
        width,
        mark.count(),
        mark.kind(),
        mark.tag(),
        mark.stride(),
        mark.positions_in(before),
        mark.data_in(before),
    )
}

/// The offset table of an open frame is the table of the entries it recorded.
proof fn lemma_open_table(s: Seq<u8>, mark: FrameMark)
    requires
        mark.is_open_in(s),
        mark.kind() != PACKED,
    ensures
        s.subrange(
            mark.table_in(s) as int,
            (mark.table_in(s) + mark.count() * mark.width_in(s)) as int,
        ) == crate::format::table_bytes(
            mark.positions_in(s),
            mark.header_in(s),
            mark.width_in(s),
        ),
{
    let w = mark.width_in(s);
    let hs = mark.header_in(s);
    let table = mark.table_in(s);
    let t = s.subrange(table as int, (table + mark.count() * w) as int);
    assert forall|i: nat| i < mark.count() implies #[trigger] t.subrange(
        (i * w) as int,
        (i * w + w) as int,
    ) == le_bytes(crate::format::offset_of(mark.positions_in(s)[i as int], hs), w) by {
        lemma_offset_within_header(s, mark, i);
        let slot = s.subrange((table + i * w) as int, (table + i * w + w) as int);
        lemma_mul_step(i, w);
        lemma_mul_le(i + 1, mark.count(), w);
        assert(t.subrange((i * w) as int, (i * w + w) as int) =~= slot);
        crate::bytes::lemma_le_bytes_of_value(slot);
    }
    lemma_table_from_slots(t, mark.positions_in(s), hs, w);
}

/// Bytes made of one slot per position, each the offset of that position,
/// are the offset table of those positions.
proof fn lemma_table_from_slots(t: Seq<u8>, positions: Seq<Option<nat>>, header: nat, width: nat)
    requires
        t.len() == positions.len() * width,
        forall|i: nat|
            i < positions.len() ==> #[trigger] t.subrange((i * width) as int, (i * width + width) as int)
                == le_bytes(crate::format::offset_of(positions[i as int], header), width),
    ensures
        t == crate::format::table_bytes(positions, header, width),
    decreases positions.len(),
{
    if positions.len() == 0 {
        assert(t =~= Seq::<u8>::empty());
    } else {
        let n = (positions.len() - 1) as nat;
        lemma_mul_step(n, width);
        let front = t.subrange(0, (n * width) as int);
        assert forall|i: nat| i < n implies #[trigger] front.subrange(
            (i * width) as int,
            (i * width + width) as int,
        ) == le_bytes(crate::format::offset_of(positions.drop_last()[i as int], header), width) by {
            lemma_mul_step(i, width);
            lemma_mul_le(i + 1, n, width);
            assert(front.subrange((i * width) as int, (i * width + width) as int) =~= t.subrange(
                (i * width) as int,
                (i * width + width) as int,
            ));
            assert(t.subrange((i * width) as int, (i * width + width) as int) == le_bytes(
                crate::format::offset_of(positions[i as int], header),
                width,
            ));
        }
        lemma_table_from_slots(front, positions.drop_last(), header, width);
        assert(t.subrange((n * width) as int, (n * width + width) as int) == le_bytes(
            crate::format::offset_of(positions[n as int], header),
            width,
        ));
        assert(t =~= front + t.subrange((n * width) as int, (n * width + width) as int));
    }
}

/// What the writes that finish a frame leave in its header.
#[verifier::spinoff_prover]
proof fn lemma_end_frame_writes(s1: Seq<u8>, s2: Seq<u8>, s3: Seq<u8>, s4: Seq<u8>, mark: FrameMark)
    requires
        mark.is_open_in(s1),
        ({
            let start = mark.start();
            let w = mark.width_in(s1);
            let follows = mark.count() >= COUNT_FOLLOWS;
            let table = mark.table_in(s1);
            let tag_at = table + mark.count() * w;
            let length = (s1.len() - start) as nat;
            &&& s2.len() == s1.len()
            &&& s2.subrange((start + 1) as int, (start + 1 + w) as int) == le_bytes(length, w)
            &&& forall|k: int|
                0 <= k < s1.len() && !(start + 1 <= k < start + 1 + w) ==> s2[k] == s1[k]
            &&& follows ==> {
                &&& s3.len() == s2.len()
                &&& s3.subrange((start + 1 + w) as int, (start + 1 + 2 * w) as int) == le_bytes(
                    mark.count(),
                    w,
                )
                &&& forall|k: int|
                    0 <= k < s2.len() && !(start + 1 + w <= k < start + 1 + 2 * w) ==> s3[k]
                        == s2[k]
            }
            &&& !follows ==> s3 == s2
            &&& mark.kind() == PACKED ==> s4 == s3.update(table - 1, mark.stride() as u8)
            &&& mark.kind() == TAGGED ==> s4 == s3.subrange(0, tag_at as int) + varint_bytes(
                mark.tag(),
            ) + s3.subrange((tag_at + varint_bytes(mark.tag()).len()) as int, s3.len() as int)
            &&& mark.kind() == TABLE ==> s4 == s3
        }),
    ensures
        ({
            let start = mark.start();
            let w = mark.width_in(s1);
            let hs = mark.header_in(s1);
            let table = mark.table_in(s1);
            let tag_at = table + mark.count() * w;
            let length = (s1.len() - start) as nat;
            &&& s4.len() == s1.len()
            &&& s4.subrange((start + 1) as int, (start + 1 + w) as int) == le_bytes(length, w)
            &&& mark.count() >= COUNT_FOLLOWS ==> s4.subrange(
                (start + 1 + w) as int,
                (start + 1 + 2 * w) as int,
            ) == le_bytes(mark.count(), w)
            &&& mark.kind() == PACKED ==> s4[table - 1] == mark.stride() as u8
            &&& mark.kind() == TAGGED ==> s4.subrange(tag_at as int, (start + hs) as int)
                == varint_bytes(mark.tag())
            &&& forall|k: int|
                (0 <= k <= start || start + hs <= k < s1.len() || (mark.kind() != PACKED && table
                    <= k < tag_at)) ==> s4[k] == s1[k]
        }),
{
    let start = mark.start();
    let w = mark.width_in(s1);
    let hs = mark.header_in(s1);
    let follows = mark.count() >= COUNT_FOLLOWS;
    let table = mark.table_in(s1);
    let tag_at = table + mark.count() * w;
    let v = varint_bytes(mark.tag());
    crate::varint::lemma_varint_bytes_len(mark.tag());
    lemma_mul_le(0, mark.count(), w);
    assert(start + 1 + w <= table);
    assert forall|k: int| start + 1 <= k < start + 1 + w implies s4[k] == s2[k] by {
        assert(s3[k] == s2[k]);
    }
    assert(s4.subrange((start + 1) as int, (start + 1 + w) as int) =~= s2.subrange(
        (start + 1) as int,
        (start + 1 + w) as int,
    ));
    if follows {
        assert(s4.subrange((start + 1 + w) as int, (start + 1 + 2 * w) as int) =~= s3.subrange(
            (start + 1 + w) as int,
            (start + 1 + 2 * w) as int,
        ));
    }
    if mark.kind() == TAGGED {
        assert(s4.subrange(tag_at as int, (start + hs) as int) =~= v);
    }
    assert forall|k: int|
        (0 <= k <= start || start + hs <= k < s1.len() || (mark.kind() != PACKED && table <= k
            < tag_at)) implies s4[k] == s1[k] by {
        assert(s2[k] == s1[k]);
        assert(s3[k] == s2[k]);
    }
}

/// The control byte of an open frame is the control byte of its shape, count
/// and width.
proof fn lemma_open_ctrl(s1: Seq<u8>, mark: FrameMark)
    requires
        mark.is_open_in(s1),
    ensures
        s1[mark.start() as int] == ctrl_byte(mark.width_in(s1), mark.kind(), mark.count()),
{
    let w = mark.width_in(s1);
    let ctrl = s1[mark.start() as int];
    crate::format::lemma_ctrl_byte_of(ctrl);
    crate::format::lemma_ctrl_byte(w, mark.kind(), mark.count());
    let c = ctrl_byte(w, mark.kind(), mark.count());
    crate::format::lemma_ctrl_byte_of(c);
    assert(code_of_width(width_of_code((ctrl % 4) as nat)) == ctrl % 4);
    assert(code_of_width(width_of_code((c % 4) as nat)) == c % 4);
}

/// Byte `k` of a finished frame is byte `k` of [`frame_bytes`].
#[verifier::spinoff_prover]
#[verifier::rlimit(40)]
proof fn lemma_end_byte(s1: Seq<u8>, s4: Seq<u8>, mark: FrameMark, k: int)
    requires
        mark.is_open_in(s1),
        0 <= k < s1.len() - mark.start(),
        s4.len() == s1.len(),
        ({
            let start = mark.start();
            let w = mark.width_in(s1);
            let hs = mark.header_in(s1);
            let table = mark.table_in(s1);
            let tag_at = table + mark.count() * w;
            let length = (s1.len() - start) as nat;
            &&& s4.subrange((start + 1) as int, (start + 1 + w) as int) == le_bytes(length, w)
            &&& mark.count() >= COUNT_FOLLOWS ==> s4.subrange((start + 1 + w) as int, (start + 1 + 2 * w) as int)
                == le_bytes(mark.count(), w)
            &&& mark.kind() == PACKED ==> s4[table - 1] == mark.stride() as u8
            &&& mark.kind() == TAGGED ==> s4.subrange(tag_at as int, (start + hs) as int) == varint_bytes(
                mark.tag(),
            )
            &&& forall|k: int|
                (0 <= k <= start || start + hs <= k < s1.len() || (mark.kind() != PACKED && table
                    <= k < tag_at)) ==> s4[k] == s1[k]
        }),
    ensures
        s4[mark.start() + k] == frame_bytes(
            mark.width_in(s1),
            mark.count(),
            mark.kind(),
            mark.tag(),
            mark.stride(),
            mark.positions_in(s1),
            mark.data_in(s1),
        )[k],
{
    let start = mark.start();
    let w = mark.width_in(s1);
    let hs = mark.header_in(s1);
    let count = mark.count();
    let kind = mark.kind();
    let positions = mark.positions_in(s1);
    let data = mark.data_in(s1);
    let prefix = prefix_size(w, count >= COUNT_FOLLOWS, kind);
    let fb = frame_bytes(w, count, kind, mark.tag(), mark.stride(), positions, data);
    let table = mark.table_in(s1);
    assert(crate::format::frame_parts_layout_wf(w, count, kind, positions));
    crate::format::lemma_frame_bytes_layout(w, count, kind, mark.tag(), mark.stride(), positions, data);
    if k == 0 {
        lemma_open_ctrl(s1, mark);
    } else if k < 1 + w {
        assert(s4.subrange((start + 1) as int, (start + 1 + w) as int)[k - 1] == fb.subrange(
            1,
            1 + w as int,
        )[k - 1]);
    } else if count >= COUNT_FOLLOWS && k < 1 + 2 * w {
        assert(s4.subrange((start + 1 + w) as int, (start + 1 + 2 * w) as int)[k - 1 - w]
            == fb.subrange(1 + w as int, 1 + 2 * w as int)[k - 1 - w]);
    } else if kind == PACKED && k < prefix {
        assert(k == prefix - 1);
    } else if k < hs {
        if kind != PACKED && k < prefix + count * w {
            lemma_open_table(s1, mark);
            assert(s1.subrange(table as int, (table + count * w) as int)[k - prefix] == fb.subrange(
                prefix as int,
                (prefix + count * w) as int,
            )[k - prefix]);
        } else {
            assert(kind == TAGGED);
            assert(s4.subrange((table + count * w) as int, (start + hs) as int)[k - prefix - count
                * w] == fb.subrange((prefix + count * w) as int, hs as int)[k - prefix - count * w]);
        }
    } else {
        assert(fb.subrange(hs as int, fb.len() as int)[k - hs] == data[k - hs]);
    }
}

#[verifier::spinoff_prover]
proof fn lemma_end_frame(s0: Seq<u8>, s1: Seq<u8>, s4: Seq<u8>, mark: FrameMark)
    requires
        mark.is_open_in(s0),
        widened(s0, s1, mark),
        fits((s1.len() - mark.start()) as nat, mark.width_in(s1)),
        settled(
            (s0.len() - mark.start()) as nat,
            mark.width_in(s0),
            mark.count(),
            mark.kind(),
            mark.tag(),
        ) == (mark.width_in(s1), (s1.len() - mark.start()) as nat),
        settled(
            (s0.len() - mark.start()) as nat,
            mark.width_in(s0),
            mark.count(),
            mark.kind(),
            mark.tag(),
        ).1 <= MAX_FRAME,
        s4.len() == s1.len(),
        ({
            let start = mark.start();
            let w = mark.width_in(s1);
            let hs = mark.header_in(s1);
            let table = mark.table_in(s1);
            let tag_at = table + mark.count() * w;
            let length = (s1.len() - start) as nat;
            &&& s4.subrange((start + 1) as int, (start + 1 + w) as int) == le_bytes(length, w)
            &&& mark.count() >= COUNT_FOLLOWS ==> s4.subrange((start + 1 + w) as int, (start + 1 + 2 * w) as int)
                == le_bytes(mark.count(), w)
            &&& mark.kind() == PACKED ==> s4[table - 1] == mark.stride() as u8
            &&& mark.kind() == TAGGED ==> s4.subrange(tag_at as int, (start + hs) as int) == varint_bytes(
                mark.tag(),
            )
            &&& forall|k: int|
                (0 <= k <= start || start + hs <= k < s1.len() || (mark.kind() != PACKED && table
                    <= k < tag_at)) ==> s4[k] == s1[k]
        }),
    ensures
        ended(s0, s4, mark),
{
    let start = mark.start();
    let w = mark.width_in(s1);
    let count = mark.count();
    let kind = mark.kind();
    let stride = mark.stride();
    let positions = mark.positions_in(s1);
    let data = mark.data_in(s1);
    let length = (s1.len() - start) as nat;
    let fb = frame_bytes(w, count, kind, mark.tag(), stride, positions, data);
    assert(crate::format::frame_parts_layout_wf(w, count, kind, positions));
    crate::format::lemma_frame_bytes_layout(w, count, kind, mark.tag(), stride, positions, data);
    let r = s4.subrange(start as int, s4.len() as int);
    assert forall|k: int| 0 <= k < r.len() implies r[k] == fb[k] by {
        lemma_end_byte(s1, s4, mark, k);
    }
    assert(r =~= fb);
    assert(s4.subrange(0, start as int) =~= s0.subrange(0, start as int)) by {
        assert forall|k: int| 0 <= k < start implies s4[k] == s0[k] by {
            assert(s1.subrange(0, start as int)[k] == s0.subrange(0, start as int)[k]);
        }
    }
    assert(s4 =~= s4.subrange(0, start as int) + r);
    crate::bytes::lemma_pow256_values();
    if kind != PACKED || (stride > 0 && count * stride <= data.len()) {
        assert(count <= length) by {
            if kind != PACKED {
                lemma_mul_le(1, w, count);
            } else {
                lemma_mul_le(1, stride, count);
            }
        }
    }
}

/// A header grows with its width, by no more than doubling, up to its widest.
pub proof fn lemma_header_growth(width: nat, count: nat, kind: nat, tag: nat)
    requires
        is_width(width),
    ensures
        header_size(width, count, kind, tag) <= header_size(8, count, kind, tag),
        width < 8 ==> header_size(width, count, kind, tag) <= header_size(
            2 * width,
            count,
            kind,
            tag,
        ) <= 2 * header_size(width, count, kind, tag),
        header_size(width, count, kind, tag) >= 2,
{
    assert(count * width <= count * 8) by (nonlinear_arith)
        requires
            width <= 8,
    ;
    assert(count * (2 * width) == 2 * (count * width)) by (nonlinear_arith);
}

/// Writing past the end of a buffer appends what is written to the data of
/// every frame still open in it, and changes nothing else about them.
pub proof fn lemma_append_to_open_frame(s: Seq<u8>, extra: Seq<u8>, mark: FrameMark)
    requires
        mark.is_open_in(s),
    ensures
        mark.is_open_in(s + extra),
        mark.width_in(s + extra) == mark.width_in(s),
        mark.header_in(s + extra) == mark.header_in(s),
        mark.data_in(s + extra) == mark.data_in(s) + extra,
        mark.positions_in(s + extra) == mark.positions_in(s),
{
    let end = (mark.start() + mark.header_in(s)) as int;
    assert((s + extra).subrange(0, end) =~= s.subrange(0, end));
    lemma_rewrite_after_header(s, s + extra, mark);
    assert(mark.data_in(s + extra) =~= mark.data_in(s) + extra);
}

/// Changing a buffer only past the end of a frame's header, and not
/// shortening it, leaves the frame open with the entries it recorded, and the
/// part of its data before the change as it was.
pub proof fn lemma_rewrite_after_header(s: Seq<u8>, t: Seq<u8>, mark: FrameMark)
    requires
        mark.is_open_in(s),
        t.len() >= s.len(),
        t.subrange(0, (mark.start() + mark.header_in(s)) as int) == s.subrange(
            0,
            (mark.start() + mark.header_in(s)) as int,
        ),
    ensures
        mark.is_open_in(t),
        mark.width_in(t) == mark.width_in(s),
        mark.header_in(t) == mark.header_in(s),
        mark.positions_in(t) == mark.positions_in(s),
{
    let end = (mark.start() + mark.header_in(s)) as int;
    assert(t[mark.start() as int] == t.subrange(0, end)[mark.start() as int]);
    assert(s[mark.start() as int] == s.subrange(0, end)[mark.start() as int]);
    if mark.kind() != PACKED {
        assert forall|i: nat| i < mark.count() implies #[trigger] mark.offset_in(t, i)
            == mark.offset_in(s, i) by {
            lemma_offset_within_header(s, mark, i);
            let w = mark.width_in(s);
            let at = mark.table_in(s) + i * w;
            assert(t.subrange(at as int, (at + w) as int) =~= s.subrange(at as int, (at + w) as int)) by {
                assert forall|j: int| at <= j < at + w implies t[j] == s[j] by {
                    assert(t.subrange(0, end)[j] == s.subrange(0, end)[j]);
                }
            }
        }
    }
    assert(mark.positions_in(t) =~= mark.positions_in(s));
}

/// Entry `i` of an open frame's table lies within its header.
pub proof fn lemma_offset_within_header(s: Seq<u8>, mark: FrameMark, i: nat)
    requires
        mark.is_open_in(s),
        mark.kind() != PACKED,
        i < mark.count(),
    ensures
        mark.table_in(s) + i * mark.width_in(s) + mark.width_in(s) <= mark.start()
            + mark.header_in(s),
        mark.start() < mark.table_in(s),
{
    let w = mark.width_in(s);
    assert(i * w + w <= mark.count() * w) by (nonlinear_arith)
        requires
            i < mark.count(),
    ;
}

/// An open frame is all in the bytes from its start on: a frame of the same
/// shape begun where another buffer holds the same bytes from its start on is
/// open there too, at the same width, with the same entries and data.
pub proof fn lemma_open_frame_from_its_bytes(s: Seq<u8>, m: FrameMark, t: Seq<u8>, n: FrameMark)
    requires
        m.is_open_in(s),
        n.start() <= t.len(),
        n.count() == m.count(),
        n.kind() == m.kind(),
        n.tag() == m.tag(),
        n.stride() == m.stride(),
        t.subrange(n.start() as int, t.len() as int) == s.subrange(m.start() as int, s.len() as int),
    ensures
        n.is_open_in(t),
        n.width_in(t) == m.width_in(s),
        n.header_in(t) == m.header_in(s),
        n.data_in(t) == m.data_in(s),
        n.positions_in(t) == m.positions_in(s),
{
    let ms = m.start() as int;
    let ns = n.start() as int;
    let u = s.subrange(ms, s.len() as int);
    assert(u.len() == s.len() - ms);
    assert(t.subrange(ns, t.len() as int).len() == t.len() - ns);
    assert(t.len() - ns == u.len());
    assert forall|k: int| 0 <= k < u.len() implies s[ms + k] == #[trigger] u[k] && t[ns + k] == u[k] by {
        assert(t.subrange(ns, t.len() as int)[k] == t[ns + k]);
    }
    assert(s[ms] == u[0]);
    assert(t[ns] == u[0]);
    let w = m.width_in(s);
    let hs = m.header_in(s);
    assert(n.width_in(t) == w);
    assert(n.header_in(t) == hs);
    if m.kind() != PACKED {
        assert forall|i: nat| i < m.count() implies #[trigger] n.offset_in(t, i) == m.offset_in(s, i) by {
            lemma_offset_within_header(s, m, i);
            let at = m.table_in(s) + i * w - ms;
            assert forall|j: int| 0 <= j < w implies #[trigger] t.subrange(ns + at, ns + at + w)[j]
                == s.subrange(ms + at, ms + at + w)[j] by {
                assert(u[at + j] == s[ms + at + j]);
            }
            assert(t.subrange(ns + at, ns + at + w) =~= s.subrange(ms + at, ms + at + w));
        }
    }
    assert forall|j: int| 0 <= j < u.len() - hs implies #[trigger] n.data_in(t)[j] == m.data_in(s)[j] by {
        assert(u[hs + j] == s[ms + hs + j]);
        assert(t[ns + hs + j] == u[hs + j]);
    }
    assert(n.data_in(t) =~= m.data_in(s));
    assert(n.positions_in(t) =~= m.positions_in(s));
}

} // verus!
