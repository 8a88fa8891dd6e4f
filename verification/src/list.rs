//! Sequences of elements.

use crate::Error;
use crate::bytes::{read_le, signed, signed_i128, signed_i16, signed_i32, signed_i64, signed_i8};
use crate::format::{FrameModel, MAX_DEPTH, PACKED, parse_frame};
use crate::frame::Frame;
use crate::message::{
    Message, bytes_of, char_from_u32, is_scalar_value, required, result_nat, scalar_of,
};
use core::marker::PhantomData;
use vstd::prelude::*;
use vstd::string::StringSliceAdditionalSpecFns;
use vstd::utf8::valid_utf8;

verus! {

/// How a list holds an element every one of which is the same size.
#[derive(Clone, Copy)]
pub struct Packing {
    /// Bytes one element occupies.
    pub width: u8,
    /// Whether every byte pattern of that width is an element, which is what
    /// lets a packed list of them be checked by its length alone.
    pub total: bool,
}

/// A sequence of elements: messages, choices, values, or primitives.
///
/// Implementations return elements by value rather than by reference, which is
/// what lets [`ListView`] decode an element only when it is asked for.
pub trait List {
    type Item;

    fn len(&self) -> usize;

    fn is_empty(&self) -> (r: bool)
        ensures
            exists|len: usize| call_ensures(Self::len, (self,), len) && r == (len == 0),
    {
        let len = Self::len;
        let n = len(self);
        assert(call_ensures(Self::len, (self,), n));
        n == 0
    }

    /// The element at `index`, which a list past its end does not hold.
    fn get(&self, index: usize) -> Option<Self::Item>;

    fn iter(&self) -> (r: ListIter<'_, Self>) where Self: Sized
        ensures
            r.list() == self,
            r.position() == 0,
    {
        ListIter { list: self, index: 0 }
    }
}

// Implemented for the reference so that a list may be handed out borrowed, as a
// schema may: a variant carrying a list is borrowed by `as_ref` the way one
// carrying a message is.
impl<'l, L: List + ?Sized> List for &'l L {
    type Item = L::Item;

    fn len(&self) -> (r: usize)
        ensures
            call_ensures(L::len, (*self,), r),
    {
        let len = L::len;
        let r = len(*self);
        assert(call_ensures(L::len, (*self,), r));
        r
    }

    fn get(&self, index: usize) -> (r: Option<L::Item>)
        ensures
            call_ensures(L::get, (*self, index), r),
    {
        let get = L::get;
        let r = get(*self, index);
        assert(call_ensures(L::get, (*self, index), r));
        r
    }
}

/// Walks a list from its first element to its last.
pub struct ListIter<'a, L> {
    list: &'a L,
    index: usize,
}

impl<'a, L> ListIter<'a, L> {
    /// The list being walked.
    pub closed spec fn list(&self) -> &'a L {
        self.list
    }

    /// How many elements have been handed out.
    pub closed spec fn position(&self) -> nat {
        self.index as nat
    }
}

/// `after` is `before` moved on by one call of `next`, which handed out `r`:
/// the element at the position reached, and then the next position, or
/// `None` where the list holds nothing there.
pub open spec fn stepped<'a, L: List>(before: ListIter<'a, L>, after: ListIter<'a, L>, r: Option<L::Item>) -> bool {
    &&& after.list() == before.list()
    &&& r is Some ==> after.position() == before.position() + 1
    &&& r is None ==> after.position() == before.position()
    &&& before.position() < usize::MAX ==> call_ensures(
        L::get,
        (before.list(), before.position() as usize),
        r,
    )
    &&& before.position() == usize::MAX ==> r is None
}

impl<'a, L: List> ListIter<'a, L> {
    /// Hands out the next element, or `None` once the list has none left. No
    /// list holds an element past the last position a `usize` counts.
    pub fn next(&mut self) -> (r: Option<L::Item>)
        ensures
            stepped(*old(self), *final(self), r),
    {
        if self.index == usize::MAX {
            return None;
        }
        let get = L::get;
        let item = get(self.list, self.index);
        assert(call_ensures(L::get, (self.list, self.index), item));
        match item {
            Some(item) => {
                self.index = self.index + 1;
                Some(item)
            },
            None => None,
        }
    }

    /// How many elements are left to hand out: what the list holds past the
    /// position reached.
    pub fn remaining(&self) -> (r: usize)
        ensures
            exists|len: usize|
                #[trigger] call_ensures(L::len, (self.list(),), len) && r == if self.position()
                    <= len {
                    (len - self.position()) as usize
                } else {
                    0
                },
    {
        let len = L::len;
        let n = len(self.list);
        assert(call_ensures(L::len, (self.list,), n));
        let r = if self.index <= n {
            n - self.index
        } else {
            0
        };
        assert(call_ensures(L::len, (self.list(),), n) && r == if self.position() <= n {
            (n - self.position()) as usize
        } else {
            0
        });
        r
    }
}

/// A list of `Copy` items handed out by value, over one that hands out
/// references to them.
///
/// What a list of primitives or values holds, it holds by value, so this is
/// what an implementation storing them, an `OwnedList<u32>`, is handed out
/// through: `Copied(&self.scores)`.
#[derive(Clone, Copy, Debug)]
pub struct Copied<L>(pub L);

/// A list that owns its elements, for implementations that build data in
/// memory rather than decoding it.
#[derive(Clone, Debug, PartialEq, Eq)]
pub struct OwnedList<T> {
    items: Vec<T>,
}

impl<T> View for OwnedList<T> {
    type V = Seq<T>;

    closed spec fn view(&self) -> Seq<T> {
        self.items@
    }
}

impl<T> OwnedList<T> {
    pub fn new() -> (r: Self)
        ensures
            r@ == Seq::<T>::empty(),
    {
        Self { items: Vec::new() }
    }

    pub fn push(&mut self, item: T)
        ensures
            final(self)@ == old(self)@.push(item),
    {
        self.items.push(item);
    }

    pub fn len(&self) -> (r: usize)
        ensures
            r == self@.len(),
    {
        self.items.len()
    }

    pub fn is_empty(&self) -> (r: bool)
        ensures
            r == (self@.len() == 0),
    {
        self.items.len() == 0
    }

    pub fn as_slice(&self) -> (r: &[T])
        ensures
            r@ == self@,
    {
        self.items.as_slice()
    }
}

impl<T> Default for OwnedList<T> {
    fn default() -> (r: Self)
        ensures
            r@ == Seq::<T>::empty(),
    {
        Self::new()
    }
}

impl<T> From<Vec<T>> for OwnedList<T> {
    fn from(items: Vec<T>) -> (r: Self)
        ensures
            r@ == items@,
    {
        Self { items }
    }
}

impl<T> vstd::std_specs::convert::FromSpecImpl<Vec<T>> for OwnedList<T> {
    open spec fn obeys_from_spec() -> bool {
        true
    }

    closed spec fn from_spec(items: Vec<T>) -> Self {
        Self { items }
    }
}

// Implemented for the reference so that an accessor can hand out `&self.field`,
// with elements borrowed from the list rather than cloned out of it.
impl<'a, T> List for &'a OwnedList<T> {
    type Item = &'a T;

    fn len(&self) -> (r: usize)
        ensures
            r == (*self)@.len(),
    {
        self.items.len()
    }

    fn get(&self, index: usize) -> (r: Option<&'a T>)
        ensures
            r == if index < (*self)@.len() {
                Some(&(*self)@[index as int])
            } else {
                None
            },
    {
        if index < self.items.len() {
            Some(&self.items[index])
        } else {
            None
        }
    }
}

/// A reference to a `Copy` item, which the item can be copied out of.
pub trait CopyOut {
    type Target: Copy;

    /// The item referred to.
    spec fn target(&self) -> Self::Target;

    fn copy_out(&self) -> (r: Self::Target)
        ensures
            r == self.target(),
    ;
}

impl<'a, T: Copy> CopyOut for &'a T {
    type Target = T;

    open spec fn target(&self) -> T {
        **self
    }

    fn copy_out(&self) -> (r: T) {
        **self
    }
}

// What a list of `Copy` items handed out by reference holds, this hands out
// by value.
impl<L: List> List for Copied<L> where L::Item: CopyOut {
    type Item = <L::Item as CopyOut>::Target;

    /// As many items as the list it copies out of holds.
    fn len(&self) -> (r: usize)
        ensures
            call_ensures(L::len, (&self.0,), r),
    {
        let len = L::len;
        let r = len(&self.0);
        assert(call_ensures(L::len, (&self.0,), r));
        r
    }

    /// The item the list holds at `index`, copied out of the reference it
    /// hands out.
    fn get(&self, index: usize) -> (r: Option<<L::Item as CopyOut>::Target>)
        ensures
            exists|held: Option<L::Item>|
                call_ensures(L::get, (&self.0, index), held) && r == match held {
                    Some(item) => Some(item.target()),
                    None => None,
                },
    {
        let get = L::get;
        let held = get(&self.0, index);
        assert(call_ensures(L::get, (&self.0, index), held));
        match held {
            Some(item) => Some(item.copy_out()),
            None => None,
        }
    }
}

/// What a list holds.
///
/// A list is a frame, exactly as a message is, with its entries indexed by
/// position rather than by slot. An element whose every value is one width is
/// packed: it is reached by its position among the elements, and read out of
/// the bytes there by `decode_packed`. Any other element is reached through the
/// frame's table, and read by `decode_element` as a field of the list.
pub trait Element {
    /// What reading one element gives back, which borrows from the buffer
    /// wherever the element itself does.
    type Item<'buf>;

    /// How the element is packed, or `None` where it is reached through a
    /// table, as every schema and every value is.
    open spec fn packed_as() -> Option<Packing> {
        None
    }

    /// How the element is packed, or `None` where it is reached through a
    /// table.
    fn packing() -> (r: Option<Packing>)
        ensures
            r == Self::packed_as(),
    ;

    fn decode_element<'buf>(list: Message<'buf>, index: u32) -> Result<Self::Item<'buf>, Error>;

    fn decode_packed<'buf>(element: &'buf [u8]) -> Result<Self::Item<'buf>, Error>;
}

/// What a packed element of `n` bytes reads as, out of the bytes it begins.
pub open spec fn packed_scalar(element: Seq<u8>, n: nat) -> Result<nat, Error> {
    scalar_of(Ok(element), n)
}

/// Reads the number a packed element of `width` bytes stores, little-endian.
fn read_packed(element: &[u8], width: usize) -> (r: Result<u128, Error>)
    requires
        width <= 16,
    ensures
        match r {
            Ok(value) => packed_scalar(element@, width as nat) == Ok::<nat, Error>(value as nat),
            Err(e) => packed_scalar(element@, width as nat) == Err::<nat, Error>(e),
        },
{
    if element.len() < width {
        return Err(Error::UnexpectedEof);
    }
    Ok(read_le(element, width))
}

impl Element for bool {
    type Item<'buf> = bool;

    open spec fn packed_as() -> Option<Packing> {
        Some(Packing { width: 1, total: false })
    }

    fn packing() -> (r: Option<Packing>) {
        Some(Packing { width: 1, total: false })
    }

    /// A bool is reached by its position, never through a table.
    fn decode_element<'buf>(list: Message<'buf>, index: u32) -> (r: Result<bool, Error>)
        ensures
            r == Err::<bool, Error>(Error::InvalidFrame),
    {
        Err(Error::InvalidFrame)
    }

    fn decode_packed<'buf>(element: &'buf [u8]) -> (r: Result<bool, Error>)
        ensures
            match packed_scalar(element@, 1) {
                Ok(value) => if value == 0 {
                    r == Ok::<bool, Error>(false)
                } else if value == 1 {
                    r == Ok::<bool, Error>(true)
                } else {
                    r == Err::<bool, Error>(Error::InvalidBool)
                },
                Err(e) => r == Err::<bool, Error>(e),
            },
    {
        let value = read_packed(element, 1)?;
        if value == 0 {
            Ok(false)
        } else if value == 1 {
            Ok(true)
        } else {
            Err(Error::InvalidBool)
        }
    }
}

impl Element for char {
    type Item<'buf> = char;

    open spec fn packed_as() -> Option<Packing> {
        Some(Packing { width: 4, total: false })
    }

    fn packing() -> (r: Option<Packing>) {
        Some(Packing { width: 4, total: false })
    }

    /// A char is reached by its position, never through a table.
    fn decode_element<'buf>(list: Message<'buf>, index: u32) -> (r: Result<char, Error>)
        ensures
            r == Err::<char, Error>(Error::InvalidFrame),
    {
        Err(Error::InvalidFrame)
    }

    fn decode_packed<'buf>(element: &'buf [u8]) -> (r: Result<char, Error>)
        ensures
            match packed_scalar(element@, 4) {
                Ok(value) => if is_scalar_value(value) {
                    r matches Ok(c) && c as nat == value
                } else {
                    r == Err::<char, Error>(Error::InvalidChar)
                },
                Err(e) => r == Err::<char, Error>(e),
            },
    {
        let value = read_packed(element, 4)?;
        proof {
            crate::bytes::lemma_pow256_values();
            crate::bytes::lemma_le_value_bound(element@.subrange(0, 4));
        }
        match char_from_u32(value as u32) {
            Some(c) => Ok(c),
            None => Err(Error::InvalidChar),
        }
    }
}

impl Element for u8 {
    type Item<'buf> = u8;

    open spec fn packed_as() -> Option<Packing> {
        Some(Packing { width: 1, total: true })
    }

    fn packing() -> (r: Option<Packing>) {
        Some(Packing { width: 1, total: true })
    }

    /// A number is reached by its position, never through a table.
    fn decode_element<'buf>(list: Message<'buf>, index: u32) -> (r: Result<u8, Error>)
        ensures
            r == Err::<u8, Error>(Error::InvalidFrame),
    {
        Err(Error::InvalidFrame)
    }

    fn decode_packed<'buf>(element: &'buf [u8]) -> (r: Result<u8, Error>)
        ensures
            result_nat(r, |v: u8| v as int) == result_nat(
                packed_scalar(element@, 1),
                |v: nat| v as int,
            ),
    {
        let value = read_packed(element, 1)?;
        proof {
            crate::bytes::lemma_pow256_values();
            crate::bytes::lemma_le_value_bound(element@.subrange(0, 1));
        }
        Ok(value as u8)
    }
}

impl Element for u16 {
    type Item<'buf> = u16;

    open spec fn packed_as() -> Option<Packing> {
        Some(Packing { width: 2, total: true })
    }

    fn packing() -> (r: Option<Packing>) {
        Some(Packing { width: 2, total: true })
    }

    /// A number is reached by its position, never through a table.
    fn decode_element<'buf>(list: Message<'buf>, index: u32) -> (r: Result<u16, Error>)
        ensures
            r == Err::<u16, Error>(Error::InvalidFrame),
    {
        Err(Error::InvalidFrame)
    }

    fn decode_packed<'buf>(element: &'buf [u8]) -> (r: Result<u16, Error>)
        ensures
            result_nat(r, |v: u16| v as int) == result_nat(
                packed_scalar(element@, 2),
                |v: nat| v as int,
            ),
    {
        let value = read_packed(element, 2)?;
        proof {
            crate::bytes::lemma_pow256_values();
            crate::bytes::lemma_le_value_bound(element@.subrange(0, 2));
        }
        Ok(value as u16)
    }
}

impl Element for u32 {
    type Item<'buf> = u32;

    open spec fn packed_as() -> Option<Packing> {
        Some(Packing { width: 4, total: true })
    }

    fn packing() -> (r: Option<Packing>) {
        Some(Packing { width: 4, total: true })
    }

    /// A number is reached by its position, never through a table.
    fn decode_element<'buf>(list: Message<'buf>, index: u32) -> (r: Result<u32, Error>)
        ensures
            r == Err::<u32, Error>(Error::InvalidFrame),
    {
        Err(Error::InvalidFrame)
    }

    fn decode_packed<'buf>(element: &'buf [u8]) -> (r: Result<u32, Error>)
        ensures
            result_nat(r, |v: u32| v as int) == result_nat(
                packed_scalar(element@, 4),
                |v: nat| v as int,
            ),
    {
        let value = read_packed(element, 4)?;
        proof {
            crate::bytes::lemma_pow256_values();
            crate::bytes::lemma_le_value_bound(element@.subrange(0, 4));
        }
        Ok(value as u32)
    }
}

impl Element for u64 {
    type Item<'buf> = u64;

    open spec fn packed_as() -> Option<Packing> {
        Some(Packing { width: 8, total: true })
    }

    fn packing() -> (r: Option<Packing>) {
        Some(Packing { width: 8, total: true })
    }

    /// A number is reached by its position, never through a table.
    fn decode_element<'buf>(list: Message<'buf>, index: u32) -> (r: Result<u64, Error>)
        ensures
            r == Err::<u64, Error>(Error::InvalidFrame),
    {
        Err(Error::InvalidFrame)
    }

    fn decode_packed<'buf>(element: &'buf [u8]) -> (r: Result<u64, Error>)
        ensures
            result_nat(r, |v: u64| v as int) == result_nat(
                packed_scalar(element@, 8),
                |v: nat| v as int,
            ),
    {
        let value = read_packed(element, 8)?;
        proof {
            crate::bytes::lemma_pow256_values();
            crate::bytes::lemma_le_value_bound(element@.subrange(0, 8));
        }
        Ok(value as u64)
    }
}

impl Element for u128 {
    type Item<'buf> = u128;

    open spec fn packed_as() -> Option<Packing> {
        Some(Packing { width: 16, total: true })
    }

    fn packing() -> (r: Option<Packing>) {
        Some(Packing { width: 16, total: true })
    }

    /// A number is reached by its position, never through a table.
    fn decode_element<'buf>(list: Message<'buf>, index: u32) -> (r: Result<u128, Error>)
        ensures
            r == Err::<u128, Error>(Error::InvalidFrame),
    {
        Err(Error::InvalidFrame)
    }

    fn decode_packed<'buf>(element: &'buf [u8]) -> (r: Result<u128, Error>)
        ensures
            result_nat(r, |v: u128| v as int) == result_nat(
                packed_scalar(element@, 16),
                |v: nat| v as int,
            ),
    {
        read_packed(element, 16)
    }
}

impl Element for i8 {
    type Item<'buf> = i8;

    open spec fn packed_as() -> Option<Packing> {
        Some(Packing { width: 1, total: true })
    }

    fn packing() -> (r: Option<Packing>) {
        Some(Packing { width: 1, total: true })
    }

    /// A number is reached by its position, never through a table.
    fn decode_element<'buf>(list: Message<'buf>, index: u32) -> (r: Result<i8, Error>)
        ensures
            r == Err::<i8, Error>(Error::InvalidFrame),
    {
        Err(Error::InvalidFrame)
    }

    fn decode_packed<'buf>(element: &'buf [u8]) -> (r: Result<i8, Error>)
        ensures
            result_nat(r, |v: i8| v as int) == result_nat(
                packed_scalar(element@, 1),
                |v: nat| signed(v, 1),
            ),
    {
        Ok(signed_i8(<u8 as Element>::decode_packed(element)?))
    }
}

impl Element for i16 {
    type Item<'buf> = i16;

    open spec fn packed_as() -> Option<Packing> {
        Some(Packing { width: 2, total: true })
    }

    fn packing() -> (r: Option<Packing>) {
        Some(Packing { width: 2, total: true })
    }

    /// A number is reached by its position, never through a table.
    fn decode_element<'buf>(list: Message<'buf>, index: u32) -> (r: Result<i16, Error>)
        ensures
            r == Err::<i16, Error>(Error::InvalidFrame),
    {
        Err(Error::InvalidFrame)
    }

    fn decode_packed<'buf>(element: &'buf [u8]) -> (r: Result<i16, Error>)
        ensures
            result_nat(r, |v: i16| v as int) == result_nat(
                packed_scalar(element@, 2),
                |v: nat| signed(v, 2),
            ),
    {
        Ok(signed_i16(<u16 as Element>::decode_packed(element)?))
    }
}

impl Element for i32 {
    type Item<'buf> = i32;

    open spec fn packed_as() -> Option<Packing> {
        Some(Packing { width: 4, total: true })
    }

    fn packing() -> (r: Option<Packing>) {
        Some(Packing { width: 4, total: true })
    }

    /// A number is reached by its position, never through a table.
    fn decode_element<'buf>(list: Message<'buf>, index: u32) -> (r: Result<i32, Error>)
        ensures
            r == Err::<i32, Error>(Error::InvalidFrame),
    {
        Err(Error::InvalidFrame)
    }

    fn decode_packed<'buf>(element: &'buf [u8]) -> (r: Result<i32, Error>)
        ensures
            result_nat(r, |v: i32| v as int) == result_nat(
                packed_scalar(element@, 4),
                |v: nat| signed(v, 4),
            ),
    {
        Ok(signed_i32(<u32 as Element>::decode_packed(element)?))
    }
}

impl Element for i64 {
    type Item<'buf> = i64;

    open spec fn packed_as() -> Option<Packing> {
        Some(Packing { width: 8, total: true })
    }

    fn packing() -> (r: Option<Packing>) {
        Some(Packing { width: 8, total: true })
    }

    /// A number is reached by its position, never through a table.
    fn decode_element<'buf>(list: Message<'buf>, index: u32) -> (r: Result<i64, Error>)
        ensures
            r == Err::<i64, Error>(Error::InvalidFrame),
    {
        Err(Error::InvalidFrame)
    }

    fn decode_packed<'buf>(element: &'buf [u8]) -> (r: Result<i64, Error>)
        ensures
            result_nat(r, |v: i64| v as int) == result_nat(
                packed_scalar(element@, 8),
                |v: nat| signed(v, 8),
            ),
    {
        Ok(signed_i64(<u64 as Element>::decode_packed(element)?))
    }
}

impl Element for i128 {
    type Item<'buf> = i128;

    open spec fn packed_as() -> Option<Packing> {
        Some(Packing { width: 16, total: true })
    }

    fn packing() -> (r: Option<Packing>) {
        Some(Packing { width: 16, total: true })
    }

    /// A number is reached by its position, never through a table.
    fn decode_element<'buf>(list: Message<'buf>, index: u32) -> (r: Result<i128, Error>)
        ensures
            r == Err::<i128, Error>(Error::InvalidFrame),
    {
        Err(Error::InvalidFrame)
    }

    fn decode_packed<'buf>(element: &'buf [u8]) -> (r: Result<i128, Error>)
        ensures
            result_nat(r, |v: i128| v as int) == result_nat(
                packed_scalar(element@, 16),
                |v: nat| signed(v, 16),
            ),
    {
        Ok(signed_i128(<u128 as Element>::decode_packed(element)?))
    }
}

// The two elements that are read as handles over the buffer rather than copied
// out of it are named by what they point at, since what a list holds is the
// element rather than the reference to it.
impl Element for str {
    type Item<'buf> = &'buf str;

    open spec fn packed_as() -> Option<Packing> {
        None
    }

    fn packing() -> (r: Option<Packing>) {
        None
    }

    fn decode_element<'buf>(list: Message<'buf>, index: u32) -> (r: Result<&'buf str, Error>)
        ensures
            match r {
                Ok(text) => bytes_of(required(list.slot_entry(index as nat))) == Ok::<
                    Seq<u8>,
                    Error,
                >(text.spec_bytes()) && valid_utf8(text.spec_bytes()),
                Err(e) => match bytes_of(required(list.slot_entry(index as nat))) {
                    Ok(bytes) => e == Error::InvalidUtf8 && !valid_utf8(bytes),
                    Err(f) => e == f,
                },
            },
    {
        list.read_str(index)
    }

    /// A string is reached through a table, never by its position.
    fn decode_packed<'buf>(element: &'buf [u8]) -> (r: Result<&'buf str, Error>)
        ensures
            r == Err::<&'buf str, Error>(Error::InvalidFrame),
    {
        Err(Error::InvalidFrame)
    }
}

impl Element for [u8] {
    type Item<'buf> = &'buf [u8];

    open spec fn packed_as() -> Option<Packing> {
        None
    }

    fn packing() -> (r: Option<Packing>) {
        None
    }

    fn decode_element<'buf>(list: Message<'buf>, index: u32) -> (r: Result<&'buf [u8], Error>)
        ensures
            match r {
                Ok(bytes) => bytes_of(required(list.slot_entry(index as nat))) == Ok::<
                    Seq<u8>,
                    Error,
                >(bytes@),
                Err(e) => bytes_of(required(list.slot_entry(index as nat))) == Err::<Seq<u8>, Error>(
                    e,
                ),
            },
    {
        list.read_bytes(index)
    }

    /// Bytes are reached through a table, never by their position.
    fn decode_packed<'buf>(element: &'buf [u8]) -> (r: Result<&'buf [u8], Error>)
        ensures
            r == Err::<&'buf [u8], Error>(Error::InvalidFrame),
    {
        Err(Error::InvalidFrame)
    }
}

/// A list of encoded elements, each decoded when it is asked for.
///
/// This is the bytes of one frame and nothing else, so it costs the same as a
/// slice however many elements it covers. Reaching any one of them reads the
/// frame's header again, and is then an index into its offset table, or a
/// multiple of its stride.
pub struct ListView<'buf, E: ?Sized> {
    bytes: &'buf [u8],
    element: PhantomData<E>,
}

impl<E: ?Sized> Clone for ListView<'_, E> {
    fn clone(&self) -> (r: Self)
        ensures
            r == *self,
    {
        *self
    }
}

impl<E: ?Sized> Copy for ListView<'_, E> {

}

/// The bytes element `index` of a packed frame occupies.
pub open spec fn packed_element(frame: Seq<u8>, model: FrameModel, index: nat) -> Seq<u8> {
    frame.subrange(
        (model.table + index * model.step) as int,
        (model.table + (index + 1) * model.step) as int,
    )
}

/// What decoding an element gave: the element, or `None` where it was refused.
pub open spec fn decoded<T>(out: Result<T, Error>) -> Option<T> {
    match out {
        Ok(item) => Some(item),
        Err(_) => None,
    }
}

/// Whether `out` is what `E` made of element `index` of the list whose frame
/// is `bytes`, read at `depth` and validated or not: decoded out of the bytes
/// the element occupies where the list is packed, and read as an entry of the
/// list, as a message, where it is reached through its table.
pub open spec fn element_read<'buf, E: Element + ?Sized>(
    bytes: Seq<u8>,
    model: FrameModel,
    index: nat,
    depth: nat,
    validate: bool,
    out: Result<E::Item<'buf>, Error>,
) -> bool {
    if model.kind == PACKED {
        exists|element: &'buf [u8]|
            element@ == packed_element(bytes, model, index) && #[trigger] call_ensures(
                E::decode_packed,
                (element,),
                out,
            )
    } else {
        exists|list: Message<'buf>|
            list.bytes_view() == bytes && list.model() == model && list.depth() == depth
                && list.validating() == validate && #[trigger] call_ensures(
                E::decode_element,
                (list, index as u32),
                out,
            )
    }
}

/// Whether `E` accepted element `index` of the list whose frame is `bytes`,
/// read at `depth` as a validated message reads it.
pub open spec fn element_accepted<'buf, E: Element + ?Sized>(
    bytes: Seq<u8>,
    model: FrameModel,
    index: nat,
    depth: nat,
) -> bool {
    exists|out: Result<E::Item<'buf>, Error>|
        element_read::<E>(bytes, model, index, depth, true, out) && out is Ok
}

impl<'buf, E: ?Sized> ListView<'buf, E> {
    /// The bytes are one frame, exactly.
    #[verifier::type_invariant]
    spec fn inv(self) -> bool {
        &&& parse_frame(self.bytes@) is Ok
        &&& parse_frame(self.bytes@)->Ok_0.length == self.bytes@.len()
    }

    /// The bytes of the list's frame, exactly.
    pub closed spec fn bytes_view(self) -> Seq<u8> {
        self.bytes@
    }

    /// What reading the list's header said about it.
    pub closed spec fn model(self) -> FrameModel {
        match parse_frame(self.bytes@) {
            Ok(model) => model,
            Err(_) => vstd::pervasive::arbitrary(),
        }
    }

    pub(crate) fn new(frame: Frame<'buf>) -> (r: Self)
        requires
            frame.wf(),
        ensures
            r.bytes_view() == frame.bytes@,
            r.model() == frame.model(),
            r.entries() == frame.count,
    {
        Self { bytes: frame.bytes, element: PhantomData }
    }

    /// The list's frame, its header read again out of its bytes.
    fn frame(&self) -> (r: Frame<'buf>)
        ensures
            r.wf(),
            r.bytes@ == self.bytes_view(),
            r.model() == self.model(),
            r.count as nat == self.entries(),
    {
        proof {
            use_type_invariant(self);
            assert(self.bytes@.subrange(0, self.bytes@.len() as int) =~= self.bytes@);
        }
        Frame::trusted(self.bytes)
    }

    /// The list as the frame it is, which is what an element is read out of.
    fn as_message(&self, depth: u32, validate: bool) -> (r: Message<'buf>)
        requires
            depth <= MAX_DEPTH,
        ensures
            r.bytes_view() == self.bytes_view(),
            r.model() == self.model(),
            r.depth() == depth,
            r.validating() == validate,
    {
        Message::nested(self.frame(), depth, validate)
    }

    /// Where an element sits in that frame. An index past what an entry can be
    /// numbered by is one no list in a buffer this size can hold, since every
    /// entry costs a word of the offset table.
    fn position(index: usize) -> (r: Option<u32>)
        ensures
            r == if index <= u32::MAX {
                Some(index as u32)
            } else {
                None::<u32>
            },
    {
        if index <= u32::MAX as usize {
            Some(index as u32)
        } else {
            None
        }
    }

    /// How many entries the list's frame holds, as its header was kept.
    pub closed spec fn entries(self) -> nat {
        (self.model().count as u32) as nat
    }

    /// The bytes of element `index` of a packed list.
    fn packed(frame: &Frame<'buf>, index: usize) -> (r: &'buf [u8])
        requires
            frame.wf(),
            frame.model().kind == PACKED,
            index < frame.count,
        ensures
            r@ == packed_element(frame.bytes@, frame.model(), index as nat),
    {
        proof {
            crate::frame::lemma_parse_frame_facts(frame.bytes@);
            assert(frame.bytes@.subrange(0, frame.model().length as int) =~= frame.bytes@);
            let m = frame.model();
            if m.step > 0 {
                assert(frame.count == m.count);
                assert((index + 1) * m.step <= m.count * m.step) by (nonlinear_arith)
                    requires
                        index < m.count,
                ;
                assert((index + 1) * m.step == index * m.step + m.step) by (nonlinear_arith);
            } else {
                assert(index * m.step == 0 && (index + 1) * m.step == 0) by (nonlinear_arith)
                    requires
                        m.step == 0,
                ;
            }
        }
        let stride = frame.step as usize;
        let start = frame.table as usize + index * stride;
        vstd::slice::slice_subrange(frame.bytes, start, start + stride)
    }
}

impl<'buf, E: Element + ?Sized> List for ListView<'buf, E> {
    type Item = E::Item<'buf>;

    fn len(&self) -> (r: usize)
        ensures
            r == self.entries(),
    {
        self.frame().count as usize
    }

    /// The element at `index`, decoded from the buffer. A list read out of a
    /// decoded message had every element checked then; one whose element does
    /// not decode holds nothing there.
    fn get(&self, index: usize) -> (r: Option<E::Item<'buf>>)
        ensures
            index >= self.entries() ==> r is None,
            index < self.entries() ==> exists|out: Result<E::Item<'buf>, Error>|
                element_read::<E>(self.bytes_view(), self.model(), index as nat, 0, false, out)
                    && r == decoded(out),
    {
        proof {
            use_type_invariant(self);
        }
        if index >= self.len() {
            return None;
        }
        let position = Self::position(index)?;
        let element = self.element(position, 0, false);
        let r = match element {
            Ok(item) => Some(item),
            Err(_) => None,
        };
        assert(position as nat == index as nat);
        assert(element_read::<E>(self.bytes_view(), self.model(), index as nat, 0, false, element)
            && r == decoded(element));
        r
    }
}

impl<'buf, E: Element + ?Sized> ListView<'buf, E> {
    /// Decodes element `index`, out of the bytes it occupies in a packed
    /// list, and as an entry of the list, read at `depth`, otherwise.
    fn element(&self, index: u32, depth: u32, validate: bool) -> (r: Result<E::Item<'buf>, Error>)
        requires
            index < self.entries(),
            depth <= MAX_DEPTH,
        ensures
            element_read::<E>(self.bytes_view(), self.model(), index as nat, depth as nat, validate, r),
    {
        let frame = self.frame();
        if frame.kind == PACKED {
            let decode = E::decode_packed;
            let element = Self::packed(&frame, index as usize);
            let r = decode(element);
            assert(call_ensures(E::decode_packed, (element,), r));
            r
        } else {
            let decode = E::decode_element;
            let list = self.as_message(depth, validate);
            let r = decode(list, index);
            assert(call_ensures(E::decode_element, (list, index), r));
            assert((index as nat) as u32 == index);
            assert(call_ensures(E::decode_element, (list, (index as nat) as u32), r));
            r
        }
    }

    /// Decodes every element, reading each at `depth` as a validated message
    /// would, and stops at the first that is refused.
    pub(crate) fn validate(&self, depth: u32) -> (r: Result<(), Error>)
        requires
            depth <= MAX_DEPTH,
        ensures
            r is Ok ==> forall|index: nat|
                index < self.entries() ==> #[trigger] element_accepted::<E>(
                    self.bytes_view(),
                    self.model(),
                    index,
                    depth as nat,
                ),
            r matches Err(e) ==> exists|index: nat|
                index < self.entries() && element_read::<E>(
                    self.bytes_view(),
                    self.model(),
                    index,
                    depth as nat,
                    true,
                    Err::<E::Item<'buf>, Error>(e),
                ) && forall|before: nat|
                    before < index ==> #[trigger] element_accepted::<E>(
                        self.bytes_view(),
                        self.model(),
                        before,
                        depth as nat,
                    ),
    {
        proof {
            use_type_invariant(self);
        }
        let len = self.len();
        let mut index: usize = 0;
        while index < len
            invariant
                len == self.entries(),
                len <= u32::MAX,
                index <= len,
                depth <= MAX_DEPTH,
                forall|i: nat|
                    i < index ==> #[trigger] element_accepted::<E>(
                        self.bytes_view(),
                        self.model(),
                        i,
                        depth as nat,
                    ),
            decreases len - index,
        {
            let element = self.element(index as u32, depth, true);
            match element {
                Ok(_) => {},
                Err(e) => {
                    return Err(e);
                },
            }
            index = index + 1;
        }
        Ok(())
    }
}

} // verus!
