//! Round trips of schemas that nest messages and lists of them, and what a
//! decode refuses.
//!
//! Each schema is written out as the reading and writing code a schema stands
//! for: a trait of accessors, a view over the bytes of a frame, and the
//! `Zerializable` implementation that connects the two.

use std::fmt;

use lib::{
    Element, Error, List, ListView, Message, OwnedList, Packing, Writer, Zerializable, decode,
    encode,
};

const VALIDATED: &str = "the message was validated when it was decoded";

/// Every element of a list, in order.
fn collect<L: List>(list: &L) -> Vec<L::Item> {
    let mut iter = list.iter();
    let mut items = Vec::new();
    while let Some(item) = iter.next() {
        items.push(item);
    }
    items
}

// ============================================================
// Address: a city in slot 0 and a zip in slot 1
// ============================================================

trait Address {
    fn city(&self) -> &str;
    fn zip(&self) -> u32;
}

impl<S: Address> Address for &S {
    fn city(&self) -> &str {
        S::city(self)
    }

    fn zip(&self) -> u32 {
        S::zip(self)
    }
}

trait AddressSource {
    fn encode_address(&self, writer: &mut Writer);
}

impl<S: Address> AddressSource for S {
    fn encode_address(&self, writer: &mut Writer) {
        let frame = writer.begin_frame(2);
        writer.begin_entry(&frame, 0);
        writer.write_str(self.city());
        writer.begin_entry(&frame, 1);
        writer.write_u32(self.zip());
        writer.end_frame(frame);
    }
}

#[derive(Clone, Copy)]
struct AddressView<'buf> {
    bytes: &'buf [u8],
}

impl<'buf> AddressView<'buf> {
    fn city(&self) -> &'buf str {
        Message::trusted(self.bytes).read_str(0).expect(VALIDATED)
    }

    fn zip(&self) -> u32 {
        Message::trusted(self.bytes).read_u32(1).expect(VALIDATED)
    }
}

impl Address for AddressView<'_> {
    fn city(&self) -> &str {
        AddressView::city(self)
    }

    fn zip(&self) -> u32 {
        AddressView::zip(self)
    }
}

impl<S: Address> PartialEq<S> for AddressView<'_> {
    fn eq(&self, other: &S) -> bool {
        AddressView::city(self) == other.city() && AddressView::zip(self) == other.zip()
    }
}

impl fmt::Debug for AddressView<'_> {
    fn fmt(&self, formatter: &mut fmt::Formatter<'_>) -> fmt::Result {
        formatter
            .debug_struct("AddressView")
            .field("city", &AddressView::city(self))
            .field("zip", &AddressView::zip(self))
            .finish()
    }
}

impl Zerializable for dyn Address {
    type Source<'src> = dyn AddressSource + 'src;
    type View<'buf> = AddressView<'buf>;

    fn encode_source<'src>(source: &'src Self::Source<'src>, writer: &mut Writer) {
        source.encode_address(writer)
    }

    fn decode_view<'buf>(message: Message<'buf>) -> Result<AddressView<'buf>, Error> {
        message.expect_message()?;
        if message.validates() {
            message.read_str(0)?;
            message.read_u32(1)?;
        }
        Ok(AddressView { bytes: message.bytes() })
    }
}

#[derive(Debug)]
struct OwnedAddress {
    city: String,
    zip: u32,
}

impl Address for OwnedAddress {
    fn city(&self) -> &str {
        &self.city
    }

    fn zip(&self) -> u32 {
        self.zip
    }
}

// ============================================================
// Person: a name in slot 0, children in slot 1, an address in slot 2
// ============================================================

trait Person {
    fn name(&self) -> &str;

    fn children(&self) -> impl List<Item = impl Person + '_> + '_
    where
        Self: Sized;

    fn address(&self) -> impl Address + '_
    where
        Self: Sized;
}

impl<S: Person> Person for &S {
    fn name(&self) -> &str {
        S::name(self)
    }

    fn children(&self) -> impl List<Item = impl Person + '_> + '_ {
        S::children(self)
    }

    fn address(&self) -> impl Address + '_ {
        S::address(self)
    }
}

trait PersonSource {
    fn encode_person(&self, writer: &mut Writer);
}

impl<S: Person> PersonSource for S {
    fn encode_person(&self, writer: &mut Writer) {
        let frame = writer.begin_frame(3);
        writer.begin_entry(&frame, 0);
        writer.write_str(self.name());
        writer.begin_entry(&frame, 1);
        let items = self.children();
        let length = items.len();
        let list = writer.begin_list::<dyn Person>(length);
        for index in 0..length {
            let item = items.get(index).expect("List::get returned None below List::len");
            writer.begin_entry(&list, index);
            <dyn Person as Zerializable>::encode_source(&item, writer);
        }
        writer.end_frame(list);
        writer.begin_entry(&frame, 2);
        let address = self.address();
        <dyn Address as Zerializable>::encode_source(&address, writer);
        writer.end_frame(frame);
    }
}

#[derive(Clone, Copy)]
struct PersonView<'buf> {
    bytes: &'buf [u8],
}

impl<'buf> PersonView<'buf> {
    fn name(&self) -> &'buf str {
        Message::trusted(self.bytes).read_str(0).expect(VALIDATED)
    }

    fn children(&self) -> ListView<'buf, dyn Person> {
        Message::trusted(self.bytes).read_list::<dyn Person>(1).expect(VALIDATED)
    }

    fn address(&self) -> AddressView<'buf> {
        let nested = Message::trusted(self.bytes).read_message(2).expect(VALIDATED);
        <dyn Address as Zerializable>::decode_view(nested).expect(VALIDATED)
    }
}

impl Person for PersonView<'_> {
    fn name(&self) -> &str {
        PersonView::name(self)
    }

    fn children(&self) -> impl List<Item = impl Person + '_> + '_ {
        PersonView::children(self)
    }

    fn address(&self) -> impl Address + '_ {
        PersonView::address(self)
    }
}

impl<S: Person> PartialEq<S> for PersonView<'_> {
    fn eq(&self, other: &S) -> bool {
        if PersonView::name(self) != other.name() {
            return false;
        }
        let mine = PersonView::children(self);
        let theirs = other.children();
        if mine.len() != theirs.len() {
            return false;
        }
        for index in 0..mine.len() {
            match (mine.get(index), theirs.get(index)) {
                (Some(mine), Some(theirs)) => {
                    if mine != theirs {
                        return false;
                    }
                }
                _ => return false,
            }
        }
        PersonView::address(self) == other.address()
    }
}

impl fmt::Debug for PersonView<'_> {
    fn fmt(&self, formatter: &mut fmt::Formatter<'_>) -> fmt::Result {
        formatter
            .debug_struct("PersonView")
            .field("name", &PersonView::name(self))
            .field("children", &collect(&PersonView::children(self)))
            .field("address", &PersonView::address(self))
            .finish()
    }
}

impl Zerializable for dyn Person {
    type Source<'src> = dyn PersonSource + 'src;
    type View<'buf> = PersonView<'buf>;

    fn encode_source<'src>(source: &'src Self::Source<'src>, writer: &mut Writer) {
        source.encode_person(writer)
    }

    fn decode_view<'buf>(message: Message<'buf>) -> Result<PersonView<'buf>, Error> {
        message.expect_message()?;
        if message.validates() {
            message.read_str(0)?;
            message.read_list::<dyn Person>(1)?;
            <dyn Address as Zerializable>::decode_view(message.read_message(2)?)?;
        }
        Ok(PersonView { bytes: message.bytes() })
    }
}

impl Element for dyn Person {
    type Item<'buf> = PersonView<'buf>;

    fn packing() -> Option<Packing> {
        None
    }

    fn decode_element<'buf>(list: Message<'buf>, index: u32) -> Result<PersonView<'buf>, Error> {
        <dyn Person as Zerializable>::decode_view(list.read_message(index)?)
    }

    fn decode_packed<'buf>(_element: &'buf [u8]) -> Result<PersonView<'buf>, Error> {
        Err(Error::InvalidFrame)
    }
}

#[derive(Debug)]
struct OwnedPerson {
    name: String,
    children: OwnedList<OwnedPerson>,
    address: OwnedAddress,
}

impl OwnedPerson {
    fn new(name: &str, children: Vec<OwnedPerson>) -> Self {
        Self {
            name: name.to_string(),
            children: children.into(),
            address: OwnedAddress { city: "Berkeley".to_string(), zip: 94704 },
        }
    }
}

impl Person for OwnedPerson {
    fn name(&self) -> &str {
        &self.name
    }

    fn children(&self) -> impl List<Item = impl Person + '_> + '_ {
        &self.children
    }

    fn address(&self) -> impl Address + '_ {
        &self.address
    }
}

fn family() -> OwnedPerson {
    OwnedPerson::new(
        "John",
        vec![
            OwnedPerson::new("Jimmy", vec![OwnedPerson::new("Jenny", vec![])]),
            OwnedPerson::new("Jane", vec![]),
        ],
    )
}

#[test]
fn round_trip() {
    let person = family();
    let encoded = encode::<dyn Person>(&person);
    let view = decode::<dyn Person>(&encoded).unwrap();

    assert_eq!(view.name(), "John");
    assert_eq!(view.address().city(), "Berkeley");
    assert_eq!(view.address().zip(), 94704);

    let children = view.children();
    assert_eq!(children.len(), 2);
    assert_eq!(children.get(0).unwrap().name(), "Jimmy");
    let grandchildren = children.get(0).unwrap().children();
    assert_eq!(grandchildren.get(0).unwrap().name(), "Jenny");
    assert_eq!(children.get(1).unwrap().name(), "Jane");
    assert!(children.get(1).unwrap().children().is_empty());
    assert!(children.get(2).is_none());
}

#[test]
fn view_borrows_from_the_buffer() {
    let encoded = encode::<dyn Person>(&family());
    let view = decode::<dyn Person>(&encoded).unwrap();
    let buffer = encoded.as_ptr() as usize..encoded.as_ptr() as usize + encoded.len();

    // Names are pointers into `encoded` rather than copies of it, at every
    // level of the tree: decoding a list does not materialize its elements.
    assert!(buffer.contains(&(view.name().as_ptr() as usize)));
    let child = view.children().get(0).unwrap();
    let grandchild = child.children().get(0).unwrap();
    assert!(buffer.contains(&(grandchild.name().as_ptr() as usize)));
}

#[test]
fn list_elements_are_decoded_on_access() {
    let encoded = encode::<dyn Person>(&family());
    let view = decode::<dyn Person>(&encoded).unwrap();

    let children = view.children();
    assert_eq!(collect(&children).len(), 2);
    assert_eq!(
        collect(&children).iter().map(|child| child.name()).collect::<Vec<_>>(),
        ["Jimmy", "Jane"]
    );
}

#[test]
fn view_compares_equal_to_the_source() {
    let person = family();
    let encoded = encode::<dyn Person>(&person);
    let view = decode::<dyn Person>(&encoded).unwrap();

    assert_eq!(view, person);
    let children = person.children();
    assert!(view.children().get(0).unwrap() == children.get(0).unwrap());
    assert_ne!(view, OwnedPerson::new("Jack", vec![]));
    // Views are Debug, which is what makes the assertions above printable.
    assert!(format!("{view:?}").contains("Jenny"));
}

#[test]
fn view_re_encodes_identically() {
    let encoded = encode::<dyn Person>(&family());
    let view = decode::<dyn Person>(&encoded).unwrap();

    // A view implements the schema trait, so it is itself an encodable source.
    assert_eq!(encode::<dyn Person>(&view), encoded);
}

// ============================================================
// Primitives: a bool, a byte, an i64, an f64 and bytes
// ============================================================

trait Primitives {
    fn flag(&self) -> bool;
    fn small(&self) -> u8;
    fn signed(&self) -> i64;
    fn ratio(&self) -> f64;
    fn blob(&self) -> &[u8];
}

trait PrimitivesSource {
    fn encode_primitives(&self, writer: &mut Writer);
}

impl<S: Primitives> PrimitivesSource for S {
    fn encode_primitives(&self, writer: &mut Writer) {
        let frame = writer.begin_frame(5);
        writer.begin_entry(&frame, 0);
        writer.write_bool(self.flag());
        writer.begin_entry(&frame, 1);
        writer.write_u8(self.small());
        writer.begin_entry(&frame, 2);
        writer.write_i64(self.signed());
        writer.begin_entry(&frame, 3);
        writer.write_u64(self.ratio().to_bits());
        writer.begin_entry(&frame, 4);
        writer.write_bytes(self.blob());
        writer.end_frame(frame);
    }
}

#[derive(Clone, Copy)]
struct PrimitivesView<'buf> {
    bytes: &'buf [u8],
}

impl<'buf> PrimitivesView<'buf> {
    fn message(&self) -> Message<'buf> {
        Message::trusted(self.bytes)
    }

    fn blob(&self) -> &'buf [u8] {
        self.message().read_bytes(4).expect(VALIDATED)
    }
}

impl Primitives for PrimitivesView<'_> {
    fn flag(&self) -> bool {
        self.message().read_bool(0).expect(VALIDATED)
    }

    fn small(&self) -> u8 {
        self.message().read_u8(1).expect(VALIDATED)
    }

    fn signed(&self) -> i64 {
        self.message().read_i64(2).expect(VALIDATED)
    }

    fn ratio(&self) -> f64 {
        f64::from_bits(self.message().read_u64(3).expect(VALIDATED))
    }

    fn blob(&self) -> &[u8] {
        PrimitivesView::blob(self)
    }
}

impl<S: Primitives> PartialEq<S> for PrimitivesView<'_> {
    fn eq(&self, other: &S) -> bool {
        self.flag() == other.flag()
            && self.small() == other.small()
            && self.signed() == other.signed()
            && self.ratio() == other.ratio()
            && PrimitivesView::blob(self) == other.blob()
    }
}

impl fmt::Debug for PrimitivesView<'_> {
    fn fmt(&self, formatter: &mut fmt::Formatter<'_>) -> fmt::Result {
        formatter
            .debug_struct("PrimitivesView")
            .field("flag", &self.flag())
            .field("small", &self.small())
            .field("signed", &self.signed())
            .field("ratio", &self.ratio())
            .field("blob", &PrimitivesView::blob(self))
            .finish()
    }
}

impl Zerializable for dyn Primitives {
    type Source<'src> = dyn PrimitivesSource + 'src;
    type View<'buf> = PrimitivesView<'buf>;

    fn encode_source<'src>(source: &'src Self::Source<'src>, writer: &mut Writer) {
        source.encode_primitives(writer)
    }

    fn decode_view<'buf>(message: Message<'buf>) -> Result<PrimitivesView<'buf>, Error> {
        message.expect_message()?;
        if message.validates() {
            message.read_bool(0)?;
            message.read_u8(1)?;
            message.read_i64(2)?;
            message.read_u64(3)?;
            message.read_bytes(4)?;
        }
        Ok(PrimitivesView { bytes: message.bytes() })
    }
}

#[derive(Debug)]
struct OwnedPrimitives;

impl Primitives for OwnedPrimitives {
    fn flag(&self) -> bool {
        true
    }

    fn small(&self) -> u8 {
        u8::MAX
    }

    fn signed(&self) -> i64 {
        i64::MIN
    }

    fn ratio(&self) -> f64 {
        -0.5
    }

    fn blob(&self) -> &[u8] {
        &[0, 1, 2, 255]
    }
}

#[test]
fn primitives_round_trip() {
    let encoded = encode::<dyn Primitives>(&OwnedPrimitives);
    let view = decode::<dyn Primitives>(&encoded).unwrap();

    assert!(view.flag());
    assert_eq!(view.small(), u8::MAX);
    assert_eq!(view.signed(), i64::MIN);
    assert_eq!(view.ratio(), -0.5);
    assert_eq!(view.blob(), &[0, 1, 2, 255]);
    assert_eq!(view, OwnedPrimitives);
}

// ============================================================
// Records: the second version adds a string in slot 7
// ============================================================

trait RecordV1 {
    fn id(&self) -> u32;
}

trait RecordV1Source {
    fn encode_record(&self, writer: &mut Writer);
}

impl<S: RecordV1> RecordV1Source for S {
    fn encode_record(&self, writer: &mut Writer) {
        let frame = writer.begin_frame(1);
        writer.begin_entry(&frame, 0);
        writer.write_u32(self.id());
        writer.end_frame(frame);
    }
}

#[derive(Clone, Copy, Debug)]
struct RecordV1View<'buf> {
    bytes: &'buf [u8],
}

impl RecordV1 for RecordV1View<'_> {
    fn id(&self) -> u32 {
        Message::trusted(self.bytes).read_u32(0).expect(VALIDATED)
    }
}

impl Zerializable for dyn RecordV1 {
    type Source<'src> = dyn RecordV1Source + 'src;
    type View<'buf> = RecordV1View<'buf>;

    fn encode_source<'src>(source: &'src Self::Source<'src>, writer: &mut Writer) {
        source.encode_record(writer)
    }

    fn decode_view<'buf>(message: Message<'buf>) -> Result<RecordV1View<'buf>, Error> {
        message.expect_message()?;
        if message.validates() {
            message.read_u32(0)?;
        }
        Ok(RecordV1View { bytes: message.bytes() })
    }
}

trait RecordV2 {
    fn id(&self) -> u32;
    fn label(&self) -> &str;
}

trait RecordV2Source {
    fn encode_record(&self, writer: &mut Writer);
}

impl<S: RecordV2> RecordV2Source for S {
    fn encode_record(&self, writer: &mut Writer) {
        let frame = writer.begin_frame(8);
        writer.begin_entry(&frame, 0);
        writer.write_u32(self.id());
        writer.begin_entry(&frame, 7);
        writer.write_str(self.label());
        writer.end_frame(frame);
    }
}

#[derive(Clone, Copy, Debug)]
struct RecordV2View<'buf> {
    bytes: &'buf [u8],
}

impl Zerializable for dyn RecordV2 {
    type Source<'src> = dyn RecordV2Source + 'src;
    type View<'buf> = RecordV2View<'buf>;

    fn encode_source<'src>(source: &'src Self::Source<'src>, writer: &mut Writer) {
        source.encode_record(writer)
    }

    fn decode_view<'buf>(message: Message<'buf>) -> Result<RecordV2View<'buf>, Error> {
        message.expect_message()?;
        if message.validates() {
            message.read_u32(0)?;
            message.read_str(7)?;
        }
        Ok(RecordV2View { bytes: message.bytes() })
    }
}

struct OwnedRecord;

impl RecordV2 for OwnedRecord {
    fn id(&self) -> u32 {
        7
    }

    fn label(&self) -> &str {
        "added later"
    }
}

#[test]
fn unknown_slots_are_skipped() {
    let encoded = encode::<dyn RecordV2>(&OwnedRecord);
    let view = decode::<dyn RecordV1>(&encoded).unwrap();

    assert_eq!(view.id(), 7);
}

#[test]
fn missing_slots_are_rejected() {
    struct OldRecord;
    impl RecordV1 for OldRecord {
        fn id(&self) -> u32 {
            7
        }
    }

    let encoded = encode::<dyn RecordV1>(&OldRecord);
    assert_eq!(decode::<dyn RecordV2>(&encoded).unwrap_err(), Error::MissingField);
}

#[test]
fn truncated_input_is_rejected() {
    let encoded = encode::<dyn Person>(&family());
    for length in 0..encoded.len() {
        assert!(decode::<dyn Person>(&encoded[..length]).is_err());
    }
}

#[test]
fn trailing_bytes_are_rejected() {
    let mut encoded = encode::<dyn Person>(&family());
    encoded.push(0);
    assert_eq!(decode::<dyn Person>(&encoded).unwrap_err(), Error::TrailingBytes);
}

#[test]
fn invalid_utf8_is_rejected() {
    let mut encoded = encode::<dyn Person>(&OwnedPerson::new("John", vec![]));
    let start = encoded
        .windows(4)
        .position(|window| window == b"John")
        .expect("the name is stored verbatim");
    encoded[start] = 0xff;

    assert_eq!(decode::<dyn Person>(&encoded).unwrap_err(), Error::InvalidUtf8);
}

#[test]
fn deep_nesting_is_rejected() {
    fn chain(depth: usize) -> OwnedPerson {
        let mut person = OwnedPerson::new("leaf", vec![]);
        for _ in 0..depth {
            person = OwnedPerson::new("node", vec![person]);
        }
        person
    }

    let shallow = encode::<dyn Person>(&chain(32));
    assert!(decode::<dyn Person>(&shallow).is_ok());

    let deep = encode::<dyn Person>(&chain(200));
    assert_eq!(decode::<dyn Person>(&deep).unwrap_err(), Error::RecursionLimit);
}

#[test]
fn corrupt_input_never_panics() {
    fn walk(person: &PersonView<'_>) {
        let _ = person.name();
        let _ = person.address().city();
        for child in collect(&person.children()) {
            walk(&child);
        }
    }

    // Decoding validates the whole message, which is what lets every accessor
    // on a view, including lazily decoded list elements, be infallible.
    let encoded = encode::<dyn Person>(&family());
    for index in 0..encoded.len() {
        for bit in [0x01, 0x40, 0x80] {
            let mut corrupted = encoded.clone();
            corrupted[index] ^= bit;
            if let Ok(view) = decode::<dyn Person>(&corrupted) {
                walk(&view);
            }
        }
    }
}

// ============================================================
// Values: `Copy` types a schema holds by value
// ============================================================

#[derive(Copy, Clone, Debug, PartialEq)]
enum Suit {
    Clubs,
    Diamonds,
    Hearts,
    Spades,
}

impl lib::Value for Suit {
    fn encode_value(&self, writer: &mut Writer) {
        writer.write_u32(match self {
            Suit::Clubs => 0,
            Suit::Diamonds => 1,
            Suit::Hearts => 2,
            Suit::Spades => 9,
        });
    }

    fn decode_value(message: Message<'_>, slot: u32) -> Result<Self, Error> {
        match message.read_u32(slot)? {
            0 => Ok(Suit::Clubs),
            1 => Ok(Suit::Diamonds),
            2 => Ok(Suit::Hearts),
            9 => Ok(Suit::Spades),
            _ => Err(Error::UnknownVariant),
        }
    }
}

#[derive(Copy, Clone, Debug, PartialEq)]
struct Card {
    rank: u8,
    suit: Suit,
}

impl lib::Value for Card {
    fn encode_value(&self, writer: &mut Writer) {
        let frame = writer.begin_frame(2);
        writer.begin_entry(&frame, 0);
        writer.write_u8(self.rank);
        writer.begin_entry(&frame, 1);
        self.suit.encode_value(writer);
        writer.end_frame(frame);
    }

    fn decode_value(message: Message<'_>, slot: u32) -> Result<Self, Error> {
        let fields = message.read_message(slot)?;
        Ok(Card { rank: fields.read_u8(0)?, suit: Suit::decode_value(fields, 1)? })
    }
}

/// A slot is the identity of a field, so a value may declare them out of order
/// and leave gaps in them, exactly as a schema's methods may.
#[derive(Copy, Clone, Debug, PartialEq)]
struct Play {
    revealed: bool,
    card: Card,
    odds: f32,
}

impl lib::Value for Play {
    fn encode_value(&self, writer: &mut Writer) {
        let frame = writer.begin_frame(4);
        writer.begin_entry(&frame, 3);
        writer.write_bool(self.revealed);
        writer.begin_entry(&frame, 0);
        self.card.encode_value(writer);
        writer.begin_entry(&frame, 1);
        writer.write_u32(self.odds.to_bits());
        writer.end_frame(frame);
    }

    fn decode_value(message: Message<'_>, slot: u32) -> Result<Self, Error> {
        let fields = message.read_message(slot)?;
        Ok(Play {
            revealed: fields.read_bool(3)?,
            card: Card::decode_value(fields, 0)?,
            odds: f32::from_bits(fields.read_u32(1)?),
        })
    }
}

use lib::Value;

trait Hand {
    fn player(&self) -> &str;
    fn play(&self) -> Play;
    fn trump(&self) -> Suit;
}

trait HandSource {
    fn encode_hand(&self, writer: &mut Writer);
}

impl<S: Hand> HandSource for S {
    fn encode_hand(&self, writer: &mut Writer) {
        let frame = writer.begin_frame(3);
        writer.begin_entry(&frame, 0);
        writer.write_str(self.player());
        writer.begin_entry(&frame, 1);
        self.play().encode_value(writer);
        writer.begin_entry(&frame, 2);
        self.trump().encode_value(writer);
        writer.end_frame(frame);
    }
}

#[derive(Clone, Copy)]
struct HandView<'buf> {
    bytes: &'buf [u8],
}

impl Hand for HandView<'_> {
    fn player(&self) -> &str {
        Message::trusted(self.bytes).read_str(0).expect(VALIDATED)
    }

    fn play(&self) -> Play {
        Play::decode_value(Message::trusted(self.bytes), 1).expect(VALIDATED)
    }

    fn trump(&self) -> Suit {
        Suit::decode_value(Message::trusted(self.bytes), 2).expect(VALIDATED)
    }
}

impl<S: Hand> PartialEq<S> for HandView<'_> {
    fn eq(&self, other: &S) -> bool {
        self.player() == other.player() && self.play() == other.play() && self.trump() == other.trump()
    }
}

impl fmt::Debug for HandView<'_> {
    fn fmt(&self, formatter: &mut fmt::Formatter<'_>) -> fmt::Result {
        formatter
            .debug_struct("HandView")
            .field("player", &self.player())
            .field("play", &self.play())
            .field("trump", &self.trump())
            .finish()
    }
}

impl Zerializable for dyn Hand {
    type Source<'src> = dyn HandSource + 'src;
    type View<'buf> = HandView<'buf>;

    fn encode_source<'src>(source: &'src Self::Source<'src>, writer: &mut Writer) {
        source.encode_hand(writer)
    }

    fn decode_view<'buf>(message: Message<'buf>) -> Result<HandView<'buf>, Error> {
        message.expect_message()?;
        if message.validates() {
            message.read_str(0)?;
            Play::decode_value(message, 1)?;
            Suit::decode_value(message, 2)?;
        }
        Ok(HandView { bytes: message.bytes() })
    }
}

#[derive(Debug)]
struct OwnedHand {
    player: String,
    play: Play,
}

impl Hand for OwnedHand {
    fn player(&self) -> &str {
        &self.player
    }

    fn play(&self) -> Play {
        self.play
    }

    fn trump(&self) -> Suit {
        self.play.card.suit
    }
}

fn hand() -> OwnedHand {
    OwnedHand {
        player: "Ada".to_string(),
        play: Play { revealed: true, card: Card { rank: 12, suit: Suit::Spades }, odds: 0.25 },
    }
}

#[test]
fn values_round_trip() {
    let hand = hand();
    let encoded = encode::<dyn Hand>(&hand);
    let view = decode::<dyn Hand>(&encoded).unwrap();

    // A value decodes back into itself, so it is the same type on both sides of
    // the wire rather than a view of the buffer.
    assert_eq!(view.play(), hand.play);
    assert_eq!(view.play().card.suit, Suit::Spades);
    assert_eq!(view.trump(), Suit::Spades);
    assert_eq!(view, hand);
    assert!(format!("{view:?}").contains("Spades"));
    assert_eq!(encode::<dyn Hand>(&view), encoded);
}

#[test]
fn a_value_outlives_the_buffer_it_was_read_from() {
    // Nothing a value holds borrows, which is what lets it escape the buffer
    // the view that produced it is a handle over.
    let play = {
        let encoded = encode::<dyn Hand>(&hand());
        decode::<dyn Hand>(&encoded).unwrap().play()
    };

    assert_eq!(play, hand().play);
}

#[test]
fn a_value_does_not_widen_the_view_that_holds_it() {
    let encoded = encode::<dyn Hand>(&hand());
    let view = decode::<dyn Hand>(&encoded).unwrap();

    // Values are read out of the buffer on access like every other field, so a
    // view of them is still one slice wide.
    assert_eq!(size_of_val(&view), size_of::<&[u8]>());
}

trait Trumps {
    fn value(&self) -> Suit;
}

trait TrumpsSource {
    fn encode_trumps(&self, writer: &mut Writer);
}

impl<S: Trumps> TrumpsSource for S {
    fn encode_trumps(&self, writer: &mut Writer) {
        let frame = writer.begin_frame(1);
        writer.begin_entry(&frame, 0);
        self.value().encode_value(writer);
        writer.end_frame(frame);
    }
}

impl Zerializable for dyn Trumps {
    type Source<'src> = dyn TrumpsSource + 'src;
    type View<'buf> = Message<'buf>;

    fn encode_source<'src>(source: &'src Self::Source<'src>, writer: &mut Writer) {
        source.encode_trumps(writer)
    }

    fn decode_view<'buf>(message: Message<'buf>) -> Result<Message<'buf>, Error> {
        Ok(message)
    }
}

trait Numbered {
    fn value(&self) -> u32;
}

trait NumberedSource {
    fn encode_numbered(&self, writer: &mut Writer);
}

impl<S: Numbered> NumberedSource for S {
    fn encode_numbered(&self, writer: &mut Writer) {
        let frame = writer.begin_frame(1);
        writer.begin_entry(&frame, 0);
        writer.write_u32(self.value());
        writer.end_frame(frame);
    }
}

impl Zerializable for dyn Numbered {
    type Source<'src> = dyn NumberedSource + 'src;
    type View<'buf> = Message<'buf>;

    fn encode_source<'src>(source: &'src Self::Source<'src>, writer: &mut Writer) {
        source.encode_numbered(writer)
    }

    fn decode_view<'buf>(message: Message<'buf>) -> Result<Message<'buf>, Error> {
        Ok(message)
    }
}

#[test]
fn a_value_enum_costs_what_its_number_costs() {
    struct Trumped;
    impl Trumps for Trumped {
        fn value(&self) -> Suit {
            Suit::Hearts
        }
    }

    struct Counted;
    impl Numbered for Counted {
        fn value(&self) -> u32 {
            2
        }
    }

    // A variant number is all a unit variant carries, so an enum is written as
    // that number rather than as a message of its own.
    assert_eq!(encode::<dyn Trumps>(&Trumped), encode::<dyn Numbered>(&Counted));
}

#[test]
fn corrupt_values_never_panic() {
    let encoded = encode::<dyn Hand>(&hand());
    for index in 0..encoded.len() {
        for bit in [0x01, 0x40, 0x80] {
            let mut corrupted = encoded.clone();
            corrupted[index] ^= bit;
            if let Ok(view) = decode::<dyn Hand>(&corrupted) {
                let _ = view.play();
                let _ = view.trump();
            }
        }
    }
}

// ============================================================
// Value evolution: the later pixel adds a field to a value struct, which an
// older reader skips, and a variant to a value enum, which it cannot.
// ============================================================

#[derive(Copy, Clone, Debug, PartialEq)]
enum ColorBefore {
    Red,
}

impl Value for ColorBefore {
    fn encode_value(&self, writer: &mut Writer) {
        writer.write_u32(match self {
            ColorBefore::Red => 0,
        });
    }

    fn decode_value(message: Message<'_>, slot: u32) -> Result<Self, Error> {
        match message.read_u32(slot)? {
            0 => Ok(ColorBefore::Red),
            _ => Err(Error::UnknownVariant),
        }
    }
}

#[derive(Copy, Clone, Debug, PartialEq)]
struct PixelBefore {
    color: ColorBefore,
}

impl Value for PixelBefore {
    fn encode_value(&self, writer: &mut Writer) {
        let frame = writer.begin_frame(1);
        writer.begin_entry(&frame, 0);
        self.color.encode_value(writer);
        writer.end_frame(frame);
    }

    fn decode_value(message: Message<'_>, slot: u32) -> Result<Self, Error> {
        let fields = message.read_message(slot)?;
        Ok(PixelBefore { color: ColorBefore::decode_value(fields, 0)? })
    }
}

#[derive(Copy, Clone, Debug, PartialEq)]
enum ColorAfter {
    Red,
    Blue,
}

impl Value for ColorAfter {
    fn encode_value(&self, writer: &mut Writer) {
        writer.write_u32(match self {
            ColorAfter::Red => 0,
            ColorAfter::Blue => 1,
        });
    }

    fn decode_value(message: Message<'_>, slot: u32) -> Result<Self, Error> {
        match message.read_u32(slot)? {
            0 => Ok(ColorAfter::Red),
            1 => Ok(ColorAfter::Blue),
            _ => Err(Error::UnknownVariant),
        }
    }
}

#[derive(Copy, Clone, Debug, PartialEq)]
struct PixelAfter {
    color: ColorAfter,
    alpha: u8,
}

impl Value for PixelAfter {
    fn encode_value(&self, writer: &mut Writer) {
        let frame = writer.begin_frame(2);
        writer.begin_entry(&frame, 0);
        self.color.encode_value(writer);
        writer.begin_entry(&frame, 1);
        writer.write_u8(self.alpha);
        writer.end_frame(frame);
    }

    fn decode_value(message: Message<'_>, slot: u32) -> Result<Self, Error> {
        let fields = message.read_message(slot)?;
        Ok(PixelAfter { color: ColorAfter::decode_value(fields, 0)?, alpha: fields.read_u8(1)? })
    }
}

/// An image of one pixel of the value type `P`, in slot 0.
struct Image<P>(P);

impl<P: Value + 'static> Zerializable for Image<P> {
    type Source<'src> = P;
    type View<'buf> = P;

    fn encode_source<'src>(source: &'src P, writer: &mut Writer) {
        let frame = writer.begin_frame(1);
        writer.begin_entry(&frame, 0);
        source.encode_value(writer);
        writer.end_frame(frame);
    }

    fn decode_view<'buf>(message: Message<'buf>) -> Result<P, Error> {
        message.expect_message()?;
        P::decode_value(message, 0)
    }
}

#[test]
fn unknown_value_slots_are_skipped() {
    let pixel = PixelAfter { color: ColorAfter::Red, alpha: 128 };
    let encoded = encode::<Image<PixelAfter>>(&pixel);

    // `alpha` is a slot the older value does not know, so it is never read.
    let view = decode::<Image<PixelBefore>>(&encoded).unwrap();
    assert_eq!(view, PixelBefore { color: ColorBefore::Red });
}

#[test]
fn missing_value_slots_are_rejected() {
    let pixel = PixelBefore { color: ColorBefore::Red };
    let encoded = encode::<Image<PixelBefore>>(&pixel);

    assert_eq!(decode::<Image<PixelAfter>>(&encoded).unwrap_err(), Error::MissingField);
}

#[test]
fn unknown_variants_are_rejected() {
    // Unlike a slot, which a reader skips by never asking for it, a variant it
    // does not know is data it cannot represent.
    let pixel = PixelAfter { color: ColorAfter::Blue, alpha: 0 };
    let encoded = encode::<Image<PixelAfter>>(&pixel);
    assert_eq!(decode::<Image<PixelBefore>>(&encoded).unwrap_err(), Error::UnknownVariant);

    // The variant it does know still decodes, out of the same slot.
    let pixel = PixelAfter { color: ColorAfter::Red, alpha: 0 };
    let encoded = encode::<Image<PixelAfter>>(&pixel);
    assert!(decode::<Image<PixelBefore>>(&encoded).is_ok());
}

// ============================================================
// A choice carrying two schemas of its own
// ============================================================

#[derive(Debug)]
enum Role<P, A> {
    Resident(P),
    Office(A, u32),
    Vacant,
}

impl<P, A> Role<P, A> {
    fn as_ref(&self) -> Role<&P, &A> {
        match self {
            Role::Resident(person) => Role::Resident(person),
            Role::Office(address, floor) => Role::Office(address, *floor),
            Role::Vacant => Role::Vacant,
        }
    }
}

impl<P: Person, A: Address, Q: Person, B: Address> PartialEq<Role<Q, B>> for Role<P, A>
where
    for<'x> PersonView<'x>: PartialEq<Q>,
{
    fn eq(&self, other: &Role<Q, B>) -> bool {
        match (self, other) {
            (Role::Resident(mine), Role::Resident(theirs)) => {
                let encoded = encode::<dyn Person>(mine);
                decode::<dyn Person>(&encoded).map(|view| view == *theirs).unwrap_or(false)
            }
            (Role::Office(mine, my_floor), Role::Office(theirs, their_floor)) => {
                mine.city() == theirs.city() && mine.zip() == theirs.zip() && my_floor == their_floor
            }
            (Role::Vacant, Role::Vacant) => true,
            _ => false,
        }
    }
}

trait RoleSource {
    fn encode_role(&self, writer: &mut Writer);
}

impl<P: Person, A: Address> RoleSource for Role<P, A> {
    fn encode_role(&self, writer: &mut Writer) {
        match self {
            Role::Resident(person) => {
                let frame = writer.begin_variant(0, 1);
                writer.begin_entry(&frame, 0);
                <dyn Person as Zerializable>::encode_source(person, writer);
                writer.end_frame(frame);
            }
            Role::Office(address, floor) => {
                let frame = writer.begin_variant(1, 2);
                writer.begin_entry(&frame, 0);
                <dyn Address as Zerializable>::encode_source(address, writer);
                writer.begin_entry(&frame, 1);
                writer.write_u32(*floor);
                writer.end_frame(frame);
            }
            Role::Vacant => {
                let frame = writer.begin_variant(2, 0);
                writer.end_frame(frame);
            }
        }
    }
}

fn decode_role<'buf>(
    message: Message<'buf>,
) -> Result<Role<PersonView<'buf>, AddressView<'buf>>, Error> {
    match message.read_tag()? {
        0 => Ok(Role::Resident(<dyn Person as Zerializable>::decode_view(message.read_message(0)?)?)),
        1 => Ok(Role::Office(
            <dyn Address as Zerializable>::decode_view(message.read_message(0)?)?,
            message.read_u32(1)?,
        )),
        2 => Ok(Role::Vacant),
        _ => Err(Error::UnknownVariant),
    }
}

/// The schema a `Role` carrying people and addresses is encoded as, and a list
/// of them is read as.
struct RoleSchema;

impl Zerializable for RoleSchema {
    type Source<'src> = dyn RoleSource + 'src;
    type View<'buf> = Role<PersonView<'buf>, AddressView<'buf>>;

    fn encode_source<'src>(source: &'src Self::Source<'src>, writer: &mut Writer) {
        source.encode_role(writer)
    }

    fn decode_view<'buf>(
        message: Message<'buf>,
    ) -> Result<Role<PersonView<'buf>, AddressView<'buf>>, Error> {
        decode_role(message)
    }
}

impl Element for RoleSchema {
    type Item<'buf> = Role<PersonView<'buf>, AddressView<'buf>>;

    fn packing() -> Option<Packing> {
        None
    }

    fn decode_element<'buf>(
        list: Message<'buf>,
        index: u32,
    ) -> Result<Role<PersonView<'buf>, AddressView<'buf>>, Error> {
        decode_role(list.read_variant(index)?)
    }

    fn decode_packed<'buf>(
        _element: &'buf [u8],
    ) -> Result<Role<PersonView<'buf>, AddressView<'buf>>, Error> {
        Err(Error::InvalidFrame)
    }
}

fn office() -> Role<OwnedPerson, OwnedAddress> {
    Role::Office(OwnedAddress { city: "Oakland".to_string(), zip: 94607 }, 12)
}

#[test]
fn enum_round_trips() {
    let resident: Role<OwnedPerson, OwnedAddress> = Role::Resident(family());
    let encoded = encode::<RoleSchema>(&resident);

    match decode::<RoleSchema>(&encoded).unwrap() {
        Role::Resident(person) => {
            assert_eq!(person.name(), "John");
            assert_eq!(person.children().len(), 2);
        }
        _ => panic!("decoded the wrong variant"),
    }
}

#[test]
fn every_variant_carries_its_own_fields() {
    let encoded = encode::<RoleSchema>(&office());
    match decode::<RoleSchema>(&encoded).unwrap() {
        Role::Office(address, floor) => {
            assert_eq!(address.city(), "Oakland");
            assert_eq!(address.zip(), 94607);
            assert_eq!(floor, 12);
        }
        _ => panic!("decoded the wrong variant"),
    }

    let vacant: Role<OwnedPerson, OwnedAddress> = Role::Vacant;
    let encoded = encode::<RoleSchema>(&vacant);
    assert!(matches!(decode::<RoleSchema>(&encoded).unwrap(), Role::Vacant));
}

#[test]
fn a_stored_enum_is_handed_out_borrowed() {
    let stored = office();

    // What an implementation stores is handed out by borrowing the messages
    // its variant carries and copying the scalars, so the two encode alike.
    let borrowed: Role<&OwnedPerson, &OwnedAddress> = stored.as_ref();
    assert_eq!(encode::<RoleSchema>(&borrowed), encode::<RoleSchema>(&stored));

    let vacant: Role<OwnedPerson, OwnedAddress> = Role::Vacant;
    assert!(matches!(vacant.as_ref(), Role::Vacant));
}

#[test]
fn enum_payloads_borrow_from_the_buffer() {
    let resident: Role<OwnedPerson, OwnedAddress> = Role::Resident(family());
    let encoded = encode::<RoleSchema>(&resident);
    let buffer = encoded.as_ptr() as usize..encoded.as_ptr() as usize + encoded.len();

    // Decoding an enum decides its variant, and nothing else: what the variant
    // carries is still a view of the buffer it was decoded from.
    match decode::<RoleSchema>(&encoded).unwrap() {
        Role::Resident(person) => {
            assert!(buffer.contains(&(person.name().as_ptr() as usize)));
        }
        _ => panic!("decoded the wrong variant"),
    }
}

#[test]
fn decoded_enum_re_encodes_identically() {
    let resident: Role<OwnedPerson, OwnedAddress> = Role::Resident(family());
    let encoded = encode::<RoleSchema>(&resident);
    let decoded = decode::<RoleSchema>(&encoded).unwrap();

    // The decoded enum is the enum over views, and a view implements the schema
    // it was decoded as, so the whole of it is encodable again.
    assert_eq!(encode::<RoleSchema>(&decoded), encoded);
}

#[test]
fn corrupt_enum_input_never_panics() {
    let resident: Role<OwnedPerson, OwnedAddress> = Role::Resident(family());
    for encoded in [encode::<RoleSchema>(&resident), encode::<RoleSchema>(&office())] {
        for index in 0..encoded.len() {
            for bit in [0x01, 0x40, 0x80] {
                let mut corrupted = encoded.clone();
                corrupted[index] ^= bit;
                // Corrupting the tag decodes one variant's fields as another's,
                // which is as validated as any other input: it may be nonsense,
                // but reading it cannot fail.
                match decode::<RoleSchema>(&corrupted) {
                    Ok(Role::Resident(person)) => {
                        let _ = person.name();
                        for child in collect(&person.children()) {
                            let _ = child.name();
                        }
                    }
                    Ok(Role::Office(address, floor)) => {
                        let _ = address.city();
                        let _ = floor;
                    }
                    Ok(Role::Vacant) | Err(_) => (),
                }
            }
        }
    }
}

/// A message carrying choices: one on its own, and one per element of a list.
trait Building {
    fn owner(&self) -> Role<impl Person + '_, impl Address + '_>
    where
        Self: Sized;

    fn tenants(&self) -> impl List<Item = Role<impl Person + '_, impl Address + '_>> + '_
    where
        Self: Sized;
}

trait BuildingSource {
    fn encode_building(&self, writer: &mut Writer);
}

impl<S: Building> BuildingSource for S {
    fn encode_building(&self, writer: &mut Writer) {
        let frame = writer.begin_frame(2);
        writer.begin_entry(&frame, 0);
        self.owner().encode_role(writer);
        writer.begin_entry(&frame, 1);
        let tenants = self.tenants();
        let list = writer.begin_list::<RoleSchema>(tenants.len());
        for index in 0..tenants.len() {
            writer.begin_entry(&list, index);
            tenants.get(index).expect("List::get returned None below List::len").encode_role(writer);
        }
        writer.end_frame(list);
        writer.end_frame(frame);
    }
}

#[derive(Clone, Copy)]
struct BuildingView<'buf> {
    bytes: &'buf [u8],
}

impl<'buf> BuildingView<'buf> {
    fn owner(&self) -> Role<PersonView<'buf>, AddressView<'buf>> {
        let nested = Message::trusted(self.bytes).read_variant(0).expect(VALIDATED);
        decode_role(nested).expect(VALIDATED)
    }

    fn tenants(&self) -> ListView<'buf, RoleSchema> {
        Message::trusted(self.bytes).read_list::<RoleSchema>(1).expect(VALIDATED)
    }
}

impl Building for BuildingView<'_> {
    fn owner(&self) -> Role<impl Person + '_, impl Address + '_> {
        BuildingView::owner(self)
    }

    fn tenants(&self) -> impl List<Item = Role<impl Person + '_, impl Address + '_>> + '_ {
        BuildingView::tenants(self)
    }
}

impl PartialEq<OwnedBuilding> for BuildingView<'_> {
    fn eq(&self, other: &OwnedBuilding) -> bool {
        if BuildingView::owner(self) != other.owner() {
            return false;
        }
        let mine = BuildingView::tenants(self);
        let theirs = other.tenants();
        if mine.len() != theirs.len() {
            return false;
        }
        for index in 0..mine.len() {
            match (mine.get(index), theirs.get(index)) {
                (Some(mine), Some(theirs)) => {
                    if mine != theirs {
                        return false;
                    }
                }
                _ => return false,
            }
        }
        true
    }
}

impl fmt::Debug for BuildingView<'_> {
    fn fmt(&self, formatter: &mut fmt::Formatter<'_>) -> fmt::Result {
        formatter
            .debug_struct("BuildingView")
            .field("owner", &BuildingView::owner(self))
            .field("tenants", &collect(&BuildingView::tenants(self)))
            .finish()
    }
}

impl Zerializable for dyn Building {
    type Source<'src> = dyn BuildingSource + 'src;
    type View<'buf> = BuildingView<'buf>;

    fn encode_source<'src>(source: &'src Self::Source<'src>, writer: &mut Writer) {
        source.encode_building(writer)
    }

    fn decode_view<'buf>(message: Message<'buf>) -> Result<BuildingView<'buf>, Error> {
        message.expect_message()?;
        if message.validates() {
            decode_role(message.read_variant(0)?)?;
            message.read_list::<RoleSchema>(1)?;
        }
        Ok(BuildingView { bytes: message.bytes() })
    }
}

#[derive(Debug)]
struct OwnedBuilding {
    owner: OwnedPerson,
    tenants: OwnedList<OwnedAddress>,
}

impl Building for OwnedBuilding {
    fn owner(&self) -> Role<impl Person + '_, impl Address + '_> {
        // Borrowed out of self, exactly as a nested message is.
        Role::<&OwnedPerson, &OwnedAddress>::Resident(&self.owner)
    }

    fn tenants(&self) -> impl List<Item = Role<impl Person + '_, impl Address + '_>> + '_ {
        Offices(&self.tenants)
    }
}

/// A list whose elements are built as they are asked for, which is what lets an
/// implementation hand out enums it does not store.
struct Offices<'a>(&'a OwnedList<OwnedAddress>);

impl<'a> List for Offices<'a> {
    type Item = Role<&'a OwnedPerson, &'a OwnedAddress>;

    fn len(&self) -> usize {
        self.0.len()
    }

    fn get(&self, index: usize) -> Option<Self::Item> {
        Some(Role::Office(self.0.as_slice().get(index)?, index as u32))
    }
}

fn building() -> OwnedBuilding {
    OwnedBuilding {
        owner: family(),
        tenants: vec![
            OwnedAddress { city: "Oakland".to_string(), zip: 94607 },
            OwnedAddress { city: "Alameda".to_string(), zip: 94501 },
        ]
        .into(),
    }
}

#[test]
fn a_message_carries_an_enum() {
    let encoded = encode::<dyn Building>(&building());
    let view = decode::<dyn Building>(&encoded).unwrap();

    match view.owner() {
        Role::Resident(person) => assert_eq!(person.name(), "John"),
        _ => panic!("decoded the wrong variant"),
    }

    let tenants = view.tenants();
    assert_eq!(tenants.len(), 2);
    match tenants.get(1).unwrap() {
        Role::Office(address, floor) => {
            assert_eq!(address.city(), "Alameda");
            assert_eq!(floor, 1);
        }
        _ => panic!("decoded the wrong variant"),
    }
}

#[test]
fn corrupt_input_carrying_an_enum_never_panics() {
    // Reading a carried enum through a view is infallible, which holds only
    // because decoding the message decided every enum it holds, including the
    // ones its lists hold.
    let encoded = encode::<dyn Building>(&building());
    for index in 0..encoded.len() {
        for bit in [0x01, 0x40, 0x80] {
            let mut corrupted = encoded.clone();
            corrupted[index] ^= bit;
            let Ok(view) = decode::<dyn Building>(&corrupted) else {
                continue;
            };
            let _ = view.owner();
            for tenant in collect(&view.tenants()) {
                let _ = tenant;
            }
        }
    }
}

#[test]
fn a_carried_enum_is_part_of_its_message() {
    let building = building();
    let encoded = encode::<dyn Building>(&building);
    let view = decode::<dyn Building>(&encoded).unwrap();

    // A view compares against the source and prints, both of which reach
    // through the enum it carries.
    assert_eq!(view, building);
    assert!(format!("{view:?}").contains("Resident"));

    // And it re-encodes as itself, so a carried enum round trips both ways.
    assert_eq!(encode::<dyn Building>(&view), encoded);

    // The enum is decided when it is read, but what it carries is still a view
    // of the buffer.
    let buffer = encoded.as_ptr() as usize..encoded.as_ptr() as usize + encoded.len();
    match view.owner() {
        Role::Resident(person) => {
            assert!(buffer.contains(&(person.name().as_ptr() as usize)));
        }
        _ => panic!("decoded the wrong variant"),
    }
}

/// A choice carrying no schemas, as first written.
#[derive(Debug, PartialEq)]
enum CommandV1 {
    Wait(u32),
}

impl Zerializable for CommandV1 {
    type Source<'src> = CommandV1;
    type View<'buf> = CommandV1;

    fn encode_source<'src>(source: &'src CommandV1, writer: &mut Writer) {
        match source {
            CommandV1::Wait(ticks) => {
                let frame = writer.begin_variant(0, 1);
                writer.begin_entry(&frame, 0);
                writer.write_u32(*ticks);
                writer.end_frame(frame);
            }
        }
    }

    fn decode_view<'buf>(message: Message<'buf>) -> Result<CommandV1, Error> {
        match message.read_tag()? {
            0 => Ok(CommandV1::Wait(message.read_u32(0)?)),
            _ => Err(Error::UnknownVariant),
        }
    }
}

/// The same choice once a variant gained a field and a variant was added.
#[derive(Debug, PartialEq)]
enum CommandV2 {
    Wait(u32, bool),
    Stop,
}

impl Zerializable for CommandV2 {
    type Source<'src> = CommandV2;
    type View<'buf> = CommandV2;

    fn encode_source<'src>(source: &'src CommandV2, writer: &mut Writer) {
        match source {
            CommandV2::Wait(ticks, urgent) => {
                let frame = writer.begin_variant(0, 2);
                writer.begin_entry(&frame, 0);
                writer.write_u32(*ticks);
                writer.begin_entry(&frame, 1);
                writer.write_bool(*urgent);
                writer.end_frame(frame);
            }
            CommandV2::Stop => {
                let frame = writer.begin_variant(1, 0);
                writer.end_frame(frame);
            }
        }
    }

    fn decode_view<'buf>(message: Message<'buf>) -> Result<CommandV2, Error> {
        match message.read_tag()? {
            0 => Ok(CommandV2::Wait(message.read_u32(0)?, message.read_bool(1)?)),
            1 => Ok(CommandV2::Stop),
            _ => Err(Error::UnknownVariant),
        }
    }
}

#[test]
fn unknown_fields_of_a_variant_are_skipped() {
    let encoded = encode::<CommandV2>(&CommandV2::Wait(3, true));
    assert_eq!(decode::<CommandV1>(&encoded).unwrap(), CommandV1::Wait(3));
}

#[test]
fn missing_fields_of_a_variant_are_rejected() {
    let encoded = encode::<CommandV1>(&CommandV1::Wait(3));
    assert_eq!(decode::<CommandV2>(&encoded).unwrap_err(), Error::MissingField);
}

#[test]
fn an_unknown_variant_of_a_choice_is_rejected() {
    // A reader has nothing to decode a variant it does not know as, which is
    // what separates adding a variant from adding a field.
    let encoded = encode::<CommandV2>(&CommandV2::Stop);
    assert_eq!(decode::<CommandV1>(&encoded).unwrap_err(), Error::UnknownVariant);
}

#[test]
fn view_size_does_not_depend_on_the_data() {
    fn wide(children: usize) -> OwnedPerson {
        OwnedPerson::new("root", (0..children).map(|_| OwnedPerson::new("child", vec![])).collect())
    }

    let small = encode::<dyn Person>(&wide(1));
    let large = encode::<dyn Person>(&wide(10_000));
    assert!(large.len() > 100 * small.len());

    // Decoding is a handle over the buffer, so a view of a megabyte of people
    // is the same size as a view of one, and so is any child reached from it.
    let small_view = decode::<dyn Person>(&small).unwrap();
    let large_view = decode::<dyn Person>(&large).unwrap();
    assert_eq!(size_of_val(&small_view), size_of_val(&large_view));
    assert_eq!(size_of_val(&large_view.children().get(9_999).unwrap()), size_of_val(&large_view));
}

#[test]
fn view_is_a_thin_handle() {
    fn assert_copy<T: Copy>(_: &T) {}

    let encoded = encode::<dyn Person>(&family());
    let view = decode::<dyn Person>(&encoded).unwrap();

    // Copy is the structural half of the claim: a view that owned any of its
    // contents, a String or a Vec of decoded children, could not be Copy.
    assert_copy(&view);

    // A view is the bytes of its message and nothing else. Fields are read out
    // of them on access, so a view is one slice wide whatever its schema holds:
    // a nested message and a list cost exactly what the message itself does.
    let handle = size_of::<&[u8]>();
    assert_eq!(size_of_val(&view), handle);
    assert_eq!(size_of_val(&view.address()), handle);
    assert_eq!(size_of_val(&view.children()), handle);

    // Nor does the count of fields change it: five slots cost what three do,
    // and one scalar costs the same again.
    let encoded = encode::<dyn Primitives>(&OwnedPrimitives);
    assert_eq!(size_of_val(&decode::<dyn Primitives>(&encoded).unwrap()), handle);
    let encoded = encode::<dyn RecordV2>(&OwnedRecord);
    assert_eq!(size_of_val(&decode::<dyn RecordV1>(&encoded).unwrap()), handle);
}
