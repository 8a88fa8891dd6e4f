//! Zero-copy serialization driven by schemas.

use vstd::prelude::*;

pub mod bytes;
pub mod varint;
pub mod format;
mod frame;
pub mod writer;
pub mod message;
pub mod list;
pub mod laws;

pub use list::{CopyOut, Copied, Element, List, ListIter, ListView, OwnedList, Packing};
pub use message::Message;
pub use writer::{FrameMark, Writer};

use crate::format::parse_frame;

verus! {

/// Why a buffer could not be decoded.
#[derive(Debug, Clone, Copy, PartialEq, Eq, Hash, Structural)]
pub enum Error {
    UnexpectedEof,
    InvalidUtf8,
    InvalidBool,
    InvalidChar,
    TrailingBytes,
    MissingField,
    RecursionLimit,
    InvalidFrame,
    /// A variant number no variant of the reader's enum claims. Unlike an
    /// unknown slot, which a reader skips by never asking for it, an enum that
    /// gained a variant cannot be read by a reader built before it.
    UnknownVariant,
}

impl Error {
    /// What went wrong, in a few words.
    pub fn description(&self) -> (r: &'static str)
        ensures
            r@ == match self {
                Error::UnexpectedEof => "the input ended before what it declares"@,
                Error::InvalidUtf8 => "a string is not UTF-8"@,
                Error::InvalidBool => "a bool is neither 0 nor 1"@,
                Error::InvalidChar => "a char is not a Unicode scalar value"@,
                Error::TrailingBytes => "bytes follow the end of the message"@,
                Error::MissingField => "a required field is absent"@,
                Error::RecursionLimit => "messages are nested too deeply"@,
                Error::InvalidFrame => "a frame does not have the shape it is read as"@,
                Error::UnknownVariant => "a number names no variant"@,
            },
    {
        match self {
            Error::UnexpectedEof => "the input ended before what it declares",
            Error::InvalidUtf8 => "a string is not UTF-8",
            Error::InvalidBool => "a bool is neither 0 nor 1",
            Error::InvalidChar => "a char is not a Unicode scalar value",
            Error::TrailingBytes => "bytes follow the end of the message",
            Error::MissingField => "a required field is absent",
            Error::RecursionLimit => "messages are nested too deeply",
            Error::InvalidFrame => "a frame does not have the shape it is read as",
            Error::UnknownVariant => "a number names no variant",
        }
    }
}

/// A schema: what may be encoded as it, and the view decoding it gives.
pub trait Zerializable {
    /// Types that may be encoded as this schema.
    ///
    /// This is a GAT so sources containing borrowed data work.
    type Source<'src>: ?Sized + 'src;

    /// The zero-copy view returned by decoding.
    type View<'buf>: 'buf;

    fn encode_source<'src>(source: &'src Self::Source<'src>, writer: &mut Writer);

    fn decode_view<'buf>(message: Message<'buf>) -> Result<Self::View<'buf>, Error>;
}

/// A field that decodes back into itself rather than into a view.
///
/// A value is `Copy`, so nothing it holds can borrow from the buffer, which is
/// what lets it be read out whole: a schema's accessor hands back the value
/// itself, not a handle over the bytes it was read from.
pub trait Value: Copy {
    fn encode_value(&self, writer: &mut Writer);

    /// Decodes the value held by `slot` of `message`.
    ///
    /// A value is addressed by its slot rather than handed its bytes because it
    /// chooses its own shape on the wire: a value enum is a scalar, a value
    /// struct a message of its own.
    fn decode_value(message: Message<'_>, slot: u32) -> Result<Self, Error>;
}

/// Encodes `source` as the schema `S`: what comes back is what the schema
/// writes into a writer over an empty buffer.
///
/// Encoding cannot fail: every source that fits in memory has an encoding.
pub fn encode<'src, S: Zerializable + ?Sized>(source: &'src S::Source<'src>) -> (r: Vec<u8>)
    ensures
        exists|writer: &mut Writer|
            (*writer)@ == Seq::<u8>::empty() && (*final(writer))@ == r@ && call_ensures(
                S::encode_source,
                (source, writer),
                (),
            ),
{
    let mut writer = Writer::new(Vec::new());
    let write = S::encode_source;
    write(source, &mut writer);
    writer.finish()
}

/// Decodes a view of `bytes` as the schema `S`.
///
/// The returned view is a handle over `bytes`; nothing is copied out of it,
/// and fields are read from the buffer as they are asked for. The outermost
/// frame must be the whole of `bytes`: what reading its header refuses, and
/// any byte past its end, is refused here before the schema sees a thing.
/// Otherwise what comes back is what the schema makes of that frame, read as
/// the outermost message: at depth zero, and validating what it reads.
pub fn decode<'buf, S: Zerializable + ?Sized>(bytes: &'buf [u8]) -> (r: Result<
    S::View<'buf>,
    Error,
>)
    ensures
        parse_frame(bytes@) matches Err(e) ==> r == Err::<S::View<'buf>, Error>(e),
        parse_frame(bytes@) matches Ok(model) && model.length != bytes@.len() ==> r == Err::<
            S::View<'buf>,
            Error,
        >(Error::TrailingBytes),
        parse_frame(bytes@) is Ok && parse_frame(bytes@)->Ok_0.length == bytes@.len() ==> exists|
            root: Message<'buf>,
        |
            root.bytes_view() == bytes@ && root.model() == parse_frame(bytes@)->Ok_0
                && root.depth() == 0 && root.validating() && #[trigger] call_ensures(
                S::decode_view,
                (root,),
                r,
            ),
{
    let root = Message::root(bytes)?;
    let read = S::decode_view;
    let r = read(root);
    assert(call_ensures(S::decode_view, (root,), r));
    r
}

/// What a schema argument stands for.
///
/// A schema's enum is generic over the schemas its variants carry, which is
/// what lets one declaration be both an ordinary value, `Worker<OwnedPerson>`,
/// and the name of the schema that value encodes as, `Worker<dyn Person>`. An
/// implementation stands for itself, so a variant of `Worker<OwnedPerson>`
/// carries an `OwnedPerson`; a schema stands for [`SchemaOnly`], so the same
/// variant of `Worker<dyn Person>` carries nothing that can be constructed.
pub trait SchemaArg {
    type Value;
}

impl<T> SchemaArg for T {
    type Value = T;
}

/// What a variant carries under the name of a schema.
///
/// `Worker<dyn Person>` names a schema rather than holding one, so its variants
/// carry this, which no value inhabits: its one variant holds a value of a
/// type that has none.
pub enum SchemaOnly {
    Never(core::convert::Infallible),
}

} // verus!