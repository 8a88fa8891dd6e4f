//! One encoded message, read by slot.

use crate::Error;
use crate::bytes::{le_value, read_le, signed};
use crate::format::{FrameModel, MAX_DEPTH, PACKED, TABLE, TAGGED, frame_entry, parse_frame};
use crate::frame::{Frame, entry_view};
use crate::list::{Element, ListView, Packing, element_accepted, element_read};
use crate::varint::{read_varint, varint_at};
use vstd::prelude::*;
use vstd::string::StringSliceAdditionalSpecFns;
use vstd::utf8::valid_utf8;

verus! {

/// One encoded message, read by slot.
#[derive(Clone, Copy)]
pub struct Message<'buf> {
    frame: Frame<'buf>,
    depth: u32,
    /// Whether nested data is decoded as it is read. Decoding a message
    /// validates it in full, so that accessors on the resulting view cannot
    /// fail; reading through those accessors then skips the work.
    validate: bool,
}

/// `core::str::from_utf8`, which std documents as accepting exactly the byte
/// slices that are UTF-8, and handing back the same bytes as a `str`.
#[verifier::external_body]
fn str_from_utf8(bytes: &[u8]) -> (r: Option<&str>)
    ensures
        r is Some <==> valid_utf8(bytes@),
        r matches Some(text) ==> text.spec_bytes() == bytes@,
{
    core::str::from_utf8(bytes).ok()
}

/// `char::from_u32`, which std documents as giving a `char` exactly for the
/// Unicode scalar values, which are the numbers up to `0x10FFFF` outside the
/// surrogates `0xD800..=0xDFFF`, and that `char` as the number it is.
#[verifier::external_body]
pub(crate) fn char_from_u32(value: u32) -> (r: Option<char>)
    ensures
        r is Some <==> is_scalar_value(value as nat),
        r matches Some(c) ==> c as nat == value as nat,
{
    char::from_u32(value)
}

/// Whether `value` is a Unicode scalar value, which is what a `char` is.
pub open spec fn is_scalar_value(value: nat) -> bool {
    value < 0xD800 || (0xE000 <= value && value <= 0x10FFFF)
}

/// What reading an entry that must be there gives: its bytes, or the error
/// reading it gave, or `MissingField` where it is absent.
pub open spec fn required(entry: Result<Option<Seq<u8>>, Error>) -> Result<Seq<u8>, Error> {
    match entry {
        Ok(Some(bytes)) => Ok(bytes),
        Ok(None) => Err(Error::MissingField),
        Err(e) => Err(e),
    }
}

/// The number stored little-endian in the first `n` bytes of an entry.
pub open spec fn scalar_of(entry: Result<Seq<u8>, Error>, n: nat) -> Result<nat, Error> {
    match entry {
        Ok(bytes) => if bytes.len() >= n {
            Ok(le_value(bytes.subrange(0, n as int)))
        } else {
            Err(Error::UnexpectedEof)
        },
        Err(e) => Err(e),
    }
}

/// The bytes a length-prefixed entry holds.
pub open spec fn bytes_of(entry: Result<Seq<u8>, Error>) -> Result<Seq<u8>, Error> {
    match entry {
        Ok(bytes) => match varint_at(bytes, 0) {
            Some((length, size)) => if size + length <= bytes.len() {
                Ok(bytes.subrange(size as int, (size + length) as int))
            } else {
                Err(Error::UnexpectedEof)
            },
            None => Err(Error::UnexpectedEof),
        },
        Err(e) => Err(e),
    }
}

/// What reading a scalar gave, as the number it is.
pub open spec fn result_nat<T>(r: Result<T, Error>, value: spec_fn(T) -> int) -> Result<int, Error> {
    match r {
        Ok(v) => Ok(value(v)),
        Err(e) => Err(e),
    }
}

impl<'buf> Message<'buf> {
    #[verifier::type_invariant]
    spec fn inv(self) -> bool {
        &&& self.frame.wf()
        &&& self.depth <= MAX_DEPTH
    }

    /// The bytes of this message's frame, exactly.
    pub closed spec fn bytes_view(self) -> Seq<u8> {
        self.frame.bytes@
    }

    /// What reading this message's header said about it.
    pub closed spec fn model(self) -> FrameModel {
        self.frame.model()
    }

    /// How deeply this message is nested in the one a decode began at.
    pub closed spec fn depth(self) -> nat {
        self.depth as nat
    }

    /// Whether reading through this message checks what it reads.
    pub closed spec fn validating(self) -> bool {
        self.validate
    }

    /// The entry at `slot`: its bytes, or `None` where it is absent. A packed
    /// list has no table to hold entries in.
    pub open spec fn slot_entry(self, slot: nat) -> Result<Option<Seq<u8>>, Error> {
        if self.model().kind == PACKED {
            Err(Error::InvalidFrame)
        } else {
            frame_entry(self.bytes_view(), self.model(), slot)
        }
    }

    /// The number stored little-endian in the first `n` bytes of `slot`.
    pub open spec fn scalar_at(self, slot: nat, n: nat) -> Result<nat, Error> {
        scalar_of(required(self.slot_entry(slot)), n)
    }

    /// Reads the outermost message of a buffer, which must be the whole of it.
    pub(crate) fn root(bytes: &'buf [u8]) -> (r: Result<Self, Error>)
        ensures
            match parse_frame(bytes@) {
                Err(e) => r == Err::<Self, Error>(e),
                Ok(model) => if model.length != bytes@.len() {
                    r == Err::<Self, Error>(Error::TrailingBytes)
                } else {
                    r matches Ok(message) && message.bytes_view() == bytes@ && message.model()
                        == model && message.depth() == 0 && message.validating()
                },
            },
    {
        let frame = Frame::read(bytes)?;
        if frame.bytes.len() != bytes.len() {
            return Err(Error::TrailingBytes);
        }
        proof {
            assert(frame.bytes@ =~= bytes@);
        }
        Ok(Self { frame, depth: 0, validate: true })
    }

    /// A message over bytes a previous decode already validated.
    ///
    /// This is what a view's accessors read through: the bytes must hold a
    /// frame, and reading it skips the checks a decode already made.
    pub fn trusted(bytes: &'buf [u8]) -> (r: Self)
        requires
            parse_frame(bytes@) is Ok,
        ensures
            r.bytes_view() == bytes@.subrange(0, parse_frame(bytes@)->Ok_0.length as int),
            r.model() == parse_frame(bytes@)->Ok_0,
            r.depth() == 0,
            !r.validating(),
    {
        Self { frame: Frame::trusted(bytes), depth: 0, validate: false }
    }

    /// A message over a frame reached from another one, at the depth that frame
    /// sits at and validated as that one is.
    pub(crate) fn nested(frame: Frame<'buf>, depth: u32, validate: bool) -> (r: Self)
        requires
            frame.wf(),
            depth <= MAX_DEPTH,
        ensures
            r.bytes_view() == frame.bytes@,
            r.model() == frame.model(),
            r.depth() == depth,
            r.validating() == validate,
    {
        Self { frame, depth, validate }
    }

    /// The bytes of this message, which is all a view needs to keep.
    pub fn bytes(&self) -> (r: &'buf [u8])
        ensures
            r@ == self.bytes_view(),
    {
        self.frame.bytes
    }

    /// Whether a schema decoding this message should read its fields to check
    /// them.
    pub fn validates(&self) -> (r: bool)
        ensures
            r == self.validating(),
    {
        self.validate
    }

    fn slot(&self, slot: u32) -> (r: Result<&'buf [u8], Error>)
        ensures
            match r {
                Ok(bytes) => required(self.slot_entry(slot as nat)) == Ok::<Seq<u8>, Error>(bytes@),
                Err(e) => required(self.slot_entry(slot as nat)) == Err::<Seq<u8>, Error>(e),
            },
    {
        proof {
            use_type_invariant(self);
        }
        if self.frame.kind == PACKED {
            return Err(Error::InvalidFrame);
        }
        match self.frame.entry(slot as usize)? {
            Some(bytes) => Ok(bytes),
            None => Err(Error::MissingField),
        }
    }

    fn read_scalar(&self, slot: u32, width: usize) -> (r: Result<u128, Error>)
        requires
            width <= 16,
        ensures
            match r {
                Ok(value) => self.scalar_at(slot as nat, width as nat) == Ok::<nat, Error>(
                    value as nat,
                ),
                Err(e) => self.scalar_at(slot as nat, width as nat) == Err::<nat, Error>(e),
            },
    {
        let bytes = self.slot(slot)?;
        if bytes.len() < width {
            return Err(Error::UnexpectedEof);
        }
        Ok(read_le(bytes, width))
    }

    pub fn read_u8(&self, slot: u32) -> (r: Result<u8, Error>)
        ensures
            result_nat(r, |v: u8| v as int) == result_nat(
                self.scalar_at(slot as nat, 1),
                |v: nat| v as int,
            ),
    {
        let value = self.read_scalar(slot, 1)?;
        proof {
            crate::bytes::lemma_pow256_values();
            crate::bytes::lemma_le_value_bound(required(self.slot_entry(slot as nat))->Ok_0.subrange(0, 1));
        }
        Ok(value as u8)
    }

    pub fn read_u16(&self, slot: u32) -> (r: Result<u16, Error>)
        ensures
            result_nat(r, |v: u16| v as int) == result_nat(
                self.scalar_at(slot as nat, 2),
                |v: nat| v as int,
            ),
    {
        let value = self.read_scalar(slot, 2)?;
        proof {
            crate::bytes::lemma_pow256_values();
            crate::bytes::lemma_le_value_bound(required(self.slot_entry(slot as nat))->Ok_0.subrange(0, 2));
        }
        Ok(value as u16)
    }

    pub fn read_u32(&self, slot: u32) -> (r: Result<u32, Error>)
        ensures
            result_nat(r, |v: u32| v as int) == result_nat(
                self.scalar_at(slot as nat, 4),
                |v: nat| v as int,
            ),
    {
        let value = self.read_scalar(slot, 4)?;
        proof {
            crate::bytes::lemma_pow256_values();
            crate::bytes::lemma_le_value_bound(required(self.slot_entry(slot as nat))->Ok_0.subrange(0, 4));
        }
        Ok(value as u32)
    }

    pub fn read_u64(&self, slot: u32) -> (r: Result<u64, Error>)
        ensures
            result_nat(r, |v: u64| v as int) == result_nat(
                self.scalar_at(slot as nat, 8),
                |v: nat| v as int,
            ),
    {
        let value = self.read_scalar(slot, 8)?;
        proof {
            crate::bytes::lemma_pow256_values();
            crate::bytes::lemma_le_value_bound(required(self.slot_entry(slot as nat))->Ok_0.subrange(0, 8));
        }
        Ok(value as u64)
    }

    pub fn read_u128(&self, slot: u32) -> (r: Result<u128, Error>)
        ensures
            result_nat(r, |v: u128| v as int) == result_nat(
                self.scalar_at(slot as nat, 16),
                |v: nat| v as int,
            ),
    {
        self.read_scalar(slot, 16)
    }

    pub fn read_i8(&self, slot: u32) -> (r: Result<i8, Error>)
        ensures
            result_nat(r, |v: i8| v as int) == result_nat(
                self.scalar_at(slot as nat, 1),
                |v: nat| signed(v, 1),
            ),
    {
        Ok(crate::bytes::signed_i8(self.read_u8(slot)?))
    }

    pub fn read_i16(&self, slot: u32) -> (r: Result<i16, Error>)
        ensures
            result_nat(r, |v: i16| v as int) == result_nat(
                self.scalar_at(slot as nat, 2),
                |v: nat| signed(v, 2),
            ),
    {
        Ok(crate::bytes::signed_i16(self.read_u16(slot)?))
    }

    pub fn read_i32(&self, slot: u32) -> (r: Result<i32, Error>)
        ensures
            result_nat(r, |v: i32| v as int) == result_nat(
                self.scalar_at(slot as nat, 4),
                |v: nat| signed(v, 4),
            ),
    {
        Ok(crate::bytes::signed_i32(self.read_u32(slot)?))
    }

    pub fn read_i64(&self, slot: u32) -> (r: Result<i64, Error>)
        ensures
            result_nat(r, |v: i64| v as int) == result_nat(
                self.scalar_at(slot as nat, 8),
                |v: nat| signed(v, 8),
            ),
    {
        Ok(crate::bytes::signed_i64(self.read_u64(slot)?))
    }

    pub fn read_i128(&self, slot: u32) -> (r: Result<i128, Error>)
        ensures
            result_nat(r, |v: i128| v as int) == result_nat(
                self.scalar_at(slot as nat, 16),
                |v: nat| signed(v, 16),
            ),
    {
        Ok(crate::bytes::signed_i128(self.read_u128(slot)?))
    }

    pub fn read_bytes(&self, slot: u32) -> (r: Result<&'buf [u8], Error>)
        ensures
            match r {
                Ok(bytes) => bytes_of(required(self.slot_entry(slot as nat))) == Ok::<
                    Seq<u8>,
                    Error,
                >(bytes@),
                Err(e) => bytes_of(required(self.slot_entry(slot as nat))) == Err::<Seq<u8>, Error>(
                    e,
                ),
            },
    {
        let bytes = self.slot(slot)?;
        let (length, size) = read_varint(bytes, 0)?;
        proof {
            assert(bytes@.skip(0) =~= bytes@);
            crate::frame::lemma_varint_size(bytes@, crate::varint::MAX_VARINT as nat);
        }
        // A length that cannot be added to is as out of bounds as one past the
        // end of the buffer: nothing that long was ever written.
        if length > (bytes.len() - size) as u64 {
            return Err(Error::UnexpectedEof);
        }
        let end = size + length as usize;
        Ok(vstd::slice::slice_subrange(bytes, size, end))
    }

    pub fn read_str(&self, slot: u32) -> (r: Result<&'buf str, Error>)
        ensures
            match r {
                Ok(text) => bytes_of(required(self.slot_entry(slot as nat))) == Ok::<
                    Seq<u8>,
                    Error,
                >(text.spec_bytes()) && valid_utf8(text.spec_bytes()),
                Err(e) => match bytes_of(required(self.slot_entry(slot as nat))) {
                    Ok(bytes) => e == Error::InvalidUtf8 && !valid_utf8(bytes),
                    Err(f) => e == f,
                },
            },
    {
        let bytes = self.read_bytes(slot)?;
        match str_from_utf8(bytes) {
            Some(text) => Ok(text),
            None => Err(Error::InvalidUtf8),
        }
    }

    pub fn read_bool(&self, slot: u32) -> (r: Result<bool, Error>)
        ensures
            match self.scalar_at(slot as nat, 1) {
                Ok(value) => if value == 0 {
                    r == Ok::<bool, Error>(false)
                } else if value == 1 {
                    r == Ok::<bool, Error>(true)
                } else {
                    r == Err::<bool, Error>(Error::InvalidBool)
                },
                Err(e) => r == Err::<bool, Error>(e),
            },
    {
        match self.read_u8(slot)? {
            0 => Ok(false),
            1 => Ok(true),
            _ => Err(Error::InvalidBool),
        }
    }

    pub fn read_char(&self, slot: u32) -> (r: Result<char, Error>)
        ensures
            match self.scalar_at(slot as nat, 4) {
                Ok(value) => if is_scalar_value(value) {
                    r matches Ok(c) && c as nat == value
                } else {
                    r == Err::<char, Error>(Error::InvalidChar)
                },
                Err(e) => r == Err::<char, Error>(e),
            },
    {
        match char_from_u32(self.read_u32(slot)?) {
            Some(c) => Ok(c),
            None => Err(Error::InvalidChar),
        }
    }

    /// Reads the number naming the variant of a value enum that carries no
    /// fields.
    pub fn read_number(&self, slot: u32) -> (r: Result<u32, Error>)
        ensures
            match required(self.slot_entry(slot as nat)) {
                Ok(bytes) => match varint_at(bytes, 0) {
                    Some((value, _)) => if value <= u32::MAX {
                        r == Ok::<u32, Error>(value as u32)
                    } else {
                        r == Err::<u32, Error>(Error::UnknownVariant)
                    },
                    None => r == Err::<u32, Error>(Error::UnexpectedEof),
                },
                Err(e) => r == Err::<u32, Error>(e),
            },
    {
        let (value, _) = read_varint(self.slot(slot)?, 0)?;
        if value > u32::MAX as u64 {
            return Err(Error::UnknownVariant);
        }
        Ok(value as u32)
    }

    /// Whether `slot` carries an entry, which is what tells `Some` from `None`.
    ///
    /// An optional field encodes `None` by leaving its slot unwritten, so this
    /// is also false for a slot the writer did not have at all: a field added
    /// as an optional one reads as absent rather than as missing.
    pub fn is_present(&self, slot: u32) -> (r: Result<bool, Error>)
        ensures
            match self.slot_entry(slot as nat) {
                Ok(entry) => r == Ok::<bool, Error>(entry is Some),
                Err(e) => r == Err::<bool, Error>(e),
            },
    {
        proof {
            use_type_invariant(self);
        }
        if self.frame.kind == PACKED {
            return Err(Error::InvalidFrame);
        }
        Ok(self.frame.entry(slot as usize)?.is_some())
    }

    /// Checks that this frame is a message rather than an enum, which is what
    /// a schema decoding the outermost frame of a buffer asks of it. Every
    /// other frame is checked as it is reached.
    pub fn expect_message(&self) -> (r: Result<(), Error>)
        ensures
            r is Ok <==> self.model().kind == TABLE,
            r matches Err(e) ==> e == Error::InvalidFrame,
    {
        proof {
            use_type_invariant(self);
        }
        if self.frame.kind != TABLE {
            return Err(Error::InvalidFrame);
        }
        Ok(())
    }

    /// Reads the tag of an encoded enum, naming the variant it holds.
    pub fn read_tag(&self) -> (r: Result<u32, Error>)
        ensures
            self.model().kind != TAGGED ==> r == Err::<u32, Error>(Error::InvalidFrame),
            self.model().kind == TAGGED ==> r == match varint_at(
                self.bytes_view(),
                (self.model().table + self.model().count * self.model().step) as int,
            ) {
                Some((tag, _)) => if tag <= u32::MAX {
                    Ok::<u32, Error>(tag as u32)
                } else {
                    Err(Error::InvalidFrame)
                },
                None => Err(Error::UnexpectedEof),
            },
    {
        proof {
            use_type_invariant(self);
            crate::frame::lemma_parse_frame_facts(self.frame.bytes@);
        }
        if self.frame.kind != TAGGED {
            return Err(Error::InvalidFrame);
        }
        self.frame.tag()
    }

    /// Reads a nested message, which inherits this one's validation mode.
    pub fn read_message(&self, slot: u32) -> (r: Result<Message<'buf>, Error>)
        ensures
            nested_read(*self, slot as nat, TABLE as nat, r),
    {
        self.read_nested(slot, TABLE)
    }

    /// Reads a nested enum, whose entries are the fields of the variant its
    /// tag names.
    ///
    /// A variant that carries nothing is a frame of no entries rather than a
    /// missing one, so a variant that gained its first field reads that field
    /// the way a message that gained one does: absent rather than missing.
    pub fn read_variant(&self, slot: u32) -> (r: Result<Message<'buf>, Error>)
        ensures
            nested_read(*self, slot as nat, TAGGED as nat, r),
    {
        self.read_nested(slot, TAGGED)
    }

    fn read_nested(&self, slot: u32, kind: u8) -> (r: Result<Message<'buf>, Error>)
        ensures
            nested_read(*self, slot as nat, kind as nat, r),
    {
        proof {
            use_type_invariant(self);
        }
        if self.depth == MAX_DEPTH {
            return Err(Error::RecursionLimit);
        }
        let frame = Frame::read(self.slot(slot)?)?;
        if frame.kind != kind {
            return Err(Error::InvalidFrame);
        }
        Ok(Self { frame, depth: self.depth + 1, validate: self.validate })
    }

    /// Reads a list. When this message is being validated, every element that
    /// is not checked by the list's shape alone is decoded here, so that
    /// reading one later finds it.
    ///
    /// A list is validated at this message's own depth: what it holds is one
    /// level deeper than this message, which is the level an element that is
    /// itself a message is read at.
    pub fn read_list<E: Element + ?Sized>(&self, slot: u32) -> (r: Result<ListView<'buf, E>, Error>)
        ensures
            list_read::<E>(*self, slot as nat, r),
    {
        proof {
            use_type_invariant(self);
        }
        if self.depth == MAX_DEPTH {
            return Err(Error::RecursionLimit);
        }
        let frame = Frame::read(self.slot(slot)?)?;
        // A packed list is checked by its shape: reading the header already
        // said that every element is within the frame, so where any bytes of
        // that width are an element there is nothing left to read.
        let (kind, checked) = match E::packing() {
            Some(packing) => {
                if frame.step != packing.width {
                    return Err(Error::InvalidFrame);
                }
                (PACKED, packing.total)
            },
            None => (TABLE, false),
        };
        if frame.kind != kind {
            return Err(Error::InvalidFrame);
        }
        let list = ListView::new(frame);
        if self.validate && !checked {
            list.validate(self.depth)?;
        }
        Ok(list)
    }
}

/// Whether a frame has the shape a list of elements packed as `packing` is
/// written in: packed at their width, or reached through a table.
pub open spec fn list_shape(model: FrameModel, packing: Option<Packing>) -> bool {
    match packing {
        Some(packing) => model.step == packing.width && model.kind == PACKED,
        None => model.kind == TABLE,
    }
}

/// Whether a list of elements packed as `packing` is checked by its shape
/// alone, every byte pattern of their width being one.
pub open spec fn checked_by_shape(packing: Option<Packing>) -> bool {
    match packing {
        Some(packing) => packing.total,
        None => false,
    }
}

/// What reading the list held by `slot` of `message` gives, for elements of
/// `E`: the list over that frame where its shape is theirs, or the error
/// reading it met. A validating message then decodes every element its shape
/// does not check, at its own depth, and refuses the list with the error the
/// first element it refused was refused with, every element before that one
/// accepted.
pub open spec fn list_read<'buf, E: Element + ?Sized>(
    message: Message<'buf>,
    slot: nat,
    r: Result<ListView<'buf, E>, Error>,
) -> bool {
    let packing = E::packed_as();
    let checks = message.validating() && !checked_by_shape(packing);
    if message.depth() == MAX_DEPTH {
        r == Err::<ListView<E>, Error>(Error::RecursionLimit)
    } else {
        match required(message.slot_entry(slot)) {
            Err(e) => r == Err::<ListView<E>, Error>(e),
            Ok(bytes) => match parse_frame(bytes) {
                Err(e) => r == Err::<ListView<E>, Error>(e),
                Ok(model) => {
                    let frame = bytes.subrange(0, model.length as int);
                    if !list_shape(model, packing) {
                        r == Err::<ListView<E>, Error>(Error::InvalidFrame)
                    } else {
                        match r {
                            Ok(list) => list.bytes_view() == frame && list.model() == model
                                && list.entries() == model.count as u32 && (checks ==> forall|
                                index: nat,
                            |
                                index < list.entries() ==> #[trigger] element_accepted::<E>(
                                    frame,
                                    model,
                                    index,
                                    message.depth(),
                                )),
                            Err(e) => checks && exists|index: nat|
                                index < model.count as u32 && element_read::<E>(
                                    frame,
                                    model,
                                    index,
                                    message.depth(),
                                    true,
                                    Err::<E::Item<'buf>, Error>(e),
                                ) && forall|before: nat|
                                    before < index ==> #[trigger] element_accepted::<E>(
                                        frame,
                                        model,
                                        before,
                                        message.depth(),
                                    ),
                        }
                    }
                },
            },
        }
    }
}

/// What reading the frame of shape `kind` held by `slot` of `message` gives:
/// a message one level deeper, over that frame, validated as `message` is; or
/// the error reading it met.
pub open spec fn nested_read(
    message: Message,
    slot: nat,
    kind: nat,
    r: Result<Message, Error>,
) -> bool {
    if message.depth() == MAX_DEPTH {
        r == Err::<Message, Error>(Error::RecursionLimit)
    } else {
        match required(message.slot_entry(slot)) {
            Err(e) => r == Err::<Message, Error>(e),
            Ok(bytes) => match parse_frame(bytes) {
                Err(e) => r == Err::<Message, Error>(e),
                Ok(model) => if model.kind != kind {
                    r == Err::<Message, Error>(Error::InvalidFrame)
                } else {
                    r matches Ok(nested) && nested.bytes_view() == bytes.subrange(
                        0,
                        model.length as int,
                    ) && nested.model() == model && nested.depth() == message.depth() + 1
                        && nested.validating() == message.validating()
                },
            },
        }
    }
}

} // verus!
