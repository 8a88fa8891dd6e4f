//! Reading a frame's header, and reaching its entries.

use crate::Error;
use crate::bytes::read_uint;
use crate::format::{
    COUNT_FOLLOWS, FrameModel, MAX_FRAME, NO_SHAPE, PACKED, TAGGED, WORD, frame_entry, is_width,
    parse_frame, prefix_size, width_of_code,
};
use crate::varint::{read_varint, varint_at};
use vstd::prelude::*;

verus! {

/// A frame's bytes, exactly, beside what reading its header said about them.
///
/// The header is kept rather than read back, because a frame is walked far more
/// often than it is opened: reaching an entry is then an index into the table,
/// a constant number of loads no matter how many entries the frame has.
#[derive(Clone, Copy)]
pub(crate) struct Frame<'buf> {
    pub(crate) bytes: &'buf [u8],
    /// Where the offset table begins, or, in a packed frame, the elements.
    pub(crate) table: u32,
    pub(crate) count: u32,
    /// Where the entries begin, which is the least an offset may be: one that
    /// began inside the header could not be told from an absent one, whose
    /// offset is zero. In a tagged frame this is past the tag as well.
    pub(crate) data: u32,
    /// Bytes one offset occupies, or one element of a packed frame.
    pub(crate) step: u8,
    pub(crate) kind: u8,
}

/// The view of what reading an entry gave back.
pub open spec fn entry_view(r: Result<Option<&[u8]>, Error>) -> Result<Option<Seq<u8>>, Error> {
    match r {
        Ok(Some(bytes)) => Ok(Some(bytes@)),
        Ok(None) => Ok(None),
        Err(e) => Err(e),
    }
}

impl<'buf> Frame<'buf> {
    /// What reading the header of these bytes said.
    pub(crate) open spec fn model(self) -> FrameModel {
        match parse_frame(self.bytes@) {
            Ok(model) => model,
            Err(_) => vstd::pervasive::arbitrary(),
        }
    }

    /// The bytes are a frame, exactly, and the fields are what reading its
    /// header said.
    pub(crate) open spec fn wf(self) -> bool {
        let model = self.model();
        &&& parse_frame(self.bytes@) is Ok
        &&& self.bytes@.len() == model.length
        &&& self.table == model.table
        &&& self.count == model.count as u32
        &&& self.data == model.data
        &&& self.step == model.step
        &&& self.kind == model.kind
    }
}

/// What a successful read of a header says, beyond the model itself.
pub proof fn lemma_parse_frame_facts(s: Seq<u8>)
    requires
        parse_frame(s) is Ok,
    ensures
        ({
            let m = parse_frame(s)->Ok_0;
            &&& is_width(m.width)
            &&& m.kind < NO_SHAPE
            &&& m.length <= s.len()
            &&& m.length <= MAX_FRAME
            &&& m.table == prefix_size(m.width, (s[0] / 16) as nat == COUNT_FOLLOWS, m.kind)
            &&& m.table + m.count * m.step <= m.data <= m.length
            &&& 1 + m.width <= m.table
            &&& m.kind != PACKED ==> m.step == m.width
            &&& m.kind == PACKED ==> m.step < 256
            &&& m.kind != TAGGED ==> m.data == m.table + m.count * m.step
            &&& m.step > 0 ==> m.count <= MAX_FRAME
            &&& m.kind == TAGGED ==> varint_at(
                s.subrange(0, m.length as int),
                (m.table + m.count * m.step) as int,
            ) is Some
        }),
{
    let m = parse_frame(s)->Ok_0;
    let frame = s.subrange(0, m.length as int);
    if m.kind == TAGGED {
        let entries = m.table + m.count * m.step;
        let (_, size) = varint_at(frame, entries as int)->Some_0;
        assert(frame.skip(entries as int).len() == frame.len() - entries);
        assert(size <= frame.skip(entries as int).len()) by {
            lemma_varint_size(frame.skip(entries as int), crate::varint::MAX_VARINT as nat);
        }
    }
    if m.step > 0 {
        assert(m.count <= m.count * m.step) by (nonlinear_arith)
            requires
                m.step > 0,
        ;
    }
}

/// A LEB128 integer lies within the bytes it was read from.
pub proof fn lemma_varint_size(s: Seq<u8>, groups: nat)
    requires
        crate::varint::varint_groups(s, groups) is Some,
    ensures
        crate::varint::varint_groups(s, groups)->Some_0.1 <= s.len(),
        crate::varint::varint_groups(s, groups)->Some_0.1 >= 1,
    decreases groups,
{
    if s[0] >= 128 {
        lemma_varint_size(s.drop_first(), (groups - 1) as nat);
    }
}

/// Cutting bytes down to the frame at their start reads the same frame.
pub proof fn lemma_parse_frame_truncate(s: Seq<u8>)
    requires
        parse_frame(s) is Ok,
    ensures
        parse_frame(s.subrange(0, parse_frame(s)->Ok_0.length as int)) == parse_frame(s),
{
    let m = parse_frame(s)->Ok_0;
    lemma_parse_frame_facts(s);
    let t = s.subrange(0, m.length as int);
    assert(t.subrange(1, 1 + m.width as int) =~= s.subrange(1, 1 + m.width as int));
    assert(t.subrange(0, m.length as int) =~= t);
}

/// The width the two lowest bits of a control byte name.
pub(crate) fn width_of(code: u8) -> (r: usize)
    requires
        code < 4,
    ensures
        r == width_of_code(code as nat),
{
    if code == 0 {
        1
    } else if code == 1 {
        2
    } else if code == 2 {
        4
    } else {
        8
    }
}

/// Bytes a frame's header occupies before its offset table.
pub fn prefix(width: usize, follows: bool, kind: u8) -> (r: usize)
    requires
        width <= WORD,
    ensures
        r == prefix_size(width as nat, follows, kind as nat),
{
    1 + width + if follows {
        width
    } else {
        0
    } + if kind == PACKED {
        1
    } else {
        0
    }
}

/// Reads the header of the frame beginning at the start of `bytes`, checking
/// that the header and everything it addresses are within the length the frame
/// claims.
#[verifier::spinoff_prover]
pub(crate) fn parse<'buf>(bytes: &'buf [u8]) -> (r: Result<Frame<'buf>, Error>)
    ensures
        match r {
            Ok(frame) => parse_frame(bytes@) is Ok && frame.wf() && frame.bytes@ == bytes@.subrange(
                0,
                parse_frame(bytes@)->Ok_0.length as int,
            ) && frame.model() == parse_frame(bytes@)->Ok_0,
            Err(e) => parse_frame(bytes@) == Err::<FrameModel, Error>(e),
        },
{
    if bytes.len() == 0 {
        return Err(Error::UnexpectedEof);
    }
    let ctrl = bytes[0];
    let width = width_of(ctrl % 4);
    let kind = (ctrl / 4) % 4;
    let length = read_uint(bytes, 1, width)?;
    if length > bytes.len() {
        return Err(Error::UnexpectedEof);
    }
    // Everything after the length is read out of the frame itself, so that a
    // frame claiming less than it holds cannot reach past what it claims.
    let frame = vstd::slice::slice_subrange(bytes, 0, length);
    if kind == NO_SHAPE || length > MAX_FRAME {
        return Err(Error::InvalidFrame);
    }
    let inline = (ctrl / 16) as usize;
    let follows = inline == COUNT_FOLLOWS;
    let count = if follows {
        read_uint(frame, 1 + width, width)?
    } else {
        inline
    };
    let table = prefix(width, follows, kind);
    let step = if kind == PACKED {
        if table - 1 >= frame.len() {
            return Err(Error::UnexpectedEof);
        }
        frame[table - 1] as usize
    } else {
        width
    };
    let entries = match count.checked_mul(step) {
        Some(span) => match span.checked_add(table) {
            Some(entries) => entries,
            None => {
                return Err(Error::UnexpectedEof);
            },
        },
        None => {
            proof {
                assert(count * step + table > usize::MAX) by (nonlinear_arith)
                    requires
                        count * step > usize::MAX,
                ;
            }
            return Err(Error::UnexpectedEof);
        },
    };
    if entries > length {
        return Err(Error::InvalidFrame);
    }
    // The tag of an enum sits between the table and the entries, so a frame
    // that does not hold one is as truncated as one missing an entry, and the
    // entries begin after it rather than at it.
    let data = if kind == TAGGED {
        let (_, size) = read_varint(frame, entries)?;
        proof {
            let (_, n) = varint_at(frame@, entries as int)->Some_0;
            lemma_varint_size(frame@.skip(entries as int), crate::varint::MAX_VARINT as nat);
        }
        entries + size
    } else {
        entries
    };
    proof {
        assert(frame@ == bytes@.subrange(0, length as int));
        lemma_parse_frame_facts(bytes@);
        lemma_parse_frame_truncate(bytes@);
    }
    Ok(
        Frame {
            bytes: frame,
            table: table as u32,
            count: #[verifier::truncate]
            (count as u32),
            data: data as u32,
            step: step as u8,
            kind,
        },
    )
}

impl<'buf> Frame<'buf> {
    /// Reads the frame beginning at the start of `bytes`, checking only its
    /// header. Entries are checked as they are read, which is what keeps this
    /// constant time.
    pub(crate) fn read(bytes: &'buf [u8]) -> (r: Result<Self, Error>)
        ensures
            match r {
                Ok(frame) => parse_frame(bytes@) is Ok && frame.wf() && frame.bytes@
                    == bytes@.subrange(0, parse_frame(bytes@)->Ok_0.length as int) && frame.model()
                    == parse_frame(bytes@)->Ok_0,
                Err(e) => parse_frame(bytes@) == Err::<FrameModel, Error>(e),
            },
    {
        parse(bytes)
    }

    /// Wraps bytes that are already known to be a frame, because they came
    /// from a decode that read them.
    pub(crate) fn trusted(bytes: &'buf [u8]) -> (r: Self)
        requires
            parse_frame(bytes@) is Ok,
        ensures
            r.wf(),
            r.bytes@ == bytes@.subrange(0, parse_frame(bytes@)->Ok_0.length as int),
            r.model() == parse_frame(bytes@)->Ok_0,
    {
        match parse(bytes) {
            Ok(frame) => frame,
            Err(_) => vstd::pervasive::unreached(),
        }
    }

    /// The tag naming an enum's variant, which sits between the table and the
    /// entries.
    pub(crate) fn tag(&self) -> (r: Result<u32, Error>)
        requires
            self.wf(),
            self.kind == TAGGED,
        ensures
            r == match varint_at(self.bytes@, (self.table + self.count as nat * self.step) as int) {
                Some((tag, _)) => if tag <= u32::MAX {
                    Ok::<u32, Error>(tag as u32)
                } else {
                    Err(Error::InvalidFrame)
                },
                None => Err(Error::UnexpectedEof),
            },
    {
        proof {
            lemma_parse_frame_facts(self.bytes@);
            let m = self.model();
            assert(m.step == m.width && m.width > 0);
            assert(self.count == m.count);
            assert(self.table + self.count * self.step <= m.length);
        }
        let at = self.table as usize + self.count as usize * self.step as usize;
        let (tag, _) = read_varint(self.bytes, at)?;
        if tag > u32::MAX as u64 {
            return Err(Error::InvalidFrame);
        }
        Ok(tag as u32)
    }

    /// The bytes an entry starts at, or `None` when the frame does not carry
    /// that entry.
    ///
    /// Only a frame that reaches its entries through a table is asked this: a
    /// packed list reads an element out of [`Frame::elements`] by its position
    /// instead.
    pub(crate) fn entry(&self, index: usize) -> (r: Result<Option<&'buf [u8]>, Error>)
        requires
            self.wf(),
            self.kind != PACKED,
        ensures
            entry_view(r) == frame_entry(self.bytes@, self.model(), index as nat),
            r matches Ok(Some(entry)) ==> entry@ == self.bytes@.subrange(
                self.bytes@.len() - entry@.len(),
                self.bytes@.len() as int,
            ),
    {
        proof {
            lemma_parse_frame_facts(self.bytes@);
            assert(self.bytes@.subrange(0, self.model().length as int) =~= self.bytes@);
        }
        if index >= self.count as usize {
            return Ok(None);
        }
        let step = self.step as usize;
        proof {
            assert(index * step + step <= self.count * step) by (nonlinear_arith)
                requires
                    index < self.count,
            ;
        }
        let at = self.table as usize + index * step;
        let offset = read_uint(self.bytes, at, step)?;
        if offset == 0 {
            return Ok(None);
        }
        if offset < self.data as usize {
            return Err(Error::UnexpectedEof);
        }
        if offset > self.bytes.len() {
            return Err(Error::UnexpectedEof);
        }
        Ok(Some(vstd::slice::slice_subrange(self.bytes, offset, self.bytes.len())))
    }

    /// The elements of a packed frame, one after another, which is where they
    /// are rather than where a table would have said they are.
    pub(crate) fn elements(&self) -> (r: &'buf [u8])
        requires
            self.wf(),
        ensures
            r@ == self.bytes@.subrange(self.table as int, self.bytes@.len() as int),
    {
        proof {
            lemma_parse_frame_facts(self.bytes@);
            assert(self.bytes@.subrange(0, self.model().length as int) =~= self.bytes@);
        }
        vstd::slice::slice_subrange(self.bytes, self.table as usize, self.bytes.len())
    }
}

} // verus!
