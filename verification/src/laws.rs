//! What holds of the format across its reader and its writer.

use crate::Error;
use crate::bytes::{le_bytes, pow256, signed, twos};
use crate::format::{
    FrameModel, PACKED, TABLE, TAGGED, fits, frame_bytes, header_size, is_width, frame_entry, frame_parts_model, parse_frame,
    prefix_size, uint_at, COUNT_FOLLOWS,
};
use crate::list::{Element, List, ListIter, ListView, element_accepted, element_read, packed_element, stepped};
use crate::message::{Message, bytes_of, checked_by_shape, is_scalar_value, list_read, required};
use crate::varint::{varint_at, varint_bytes};
use crate::writer::{FrameMark, begun, ended, entry_begun, settled};
use vstd::prelude::*;

verus! {

/// Every truncation of a frame is refused as running out of bytes: the length
/// its header claims is past what is left, or the header itself is cut short.
pub proof fn lemma_truncated_frame_is_refused(s: Seq<u8>, k: nat)
    requires
        parse_frame(s) is Ok,
        parse_frame(s)->Ok_0.length == s.len(),
        k < s.len(),
    ensures
        parse_frame(s.subrange(0, k as int)) == Err::<FrameModel, Error>(Error::UnexpectedEof),
{
    let t = s.subrange(0, k as int);
    let m = parse_frame(s)->Ok_0;
    crate::frame::lemma_parse_frame_facts(s);
    if k > 0 {
        assert(t[0] == s[0]);
        let width = m.width;
        if 1 + width <= k {
            assert(t.subrange(1, 1 + width as int) =~= s.subrange(1, 1 + width as int));
            assert(uint_at(t, 1, width) == uint_at(s, 1, width));
        }
    }
}

/// What follows a frame is not read as part of it: a frame reads the same
/// whatever bytes come after it, which is what lets a frame be moved, and what
/// lets a reader tell a buffer with bytes past its message from one without.
pub proof fn lemma_frame_ignores_what_follows(s: Seq<u8>, extra: Seq<u8>)
    requires
        parse_frame(s) is Ok,
        parse_frame(s)->Ok_0.length == s.len(),
    ensures
        parse_frame(s + extra) == parse_frame(s),
{
    let t = s + extra;
    let m = parse_frame(s)->Ok_0;
    crate::frame::lemma_parse_frame_facts(s);
    assert(t[0] == s[0]);
    assert(t.subrange(1, 1 + m.width as int) =~= s.subrange(1, 1 + m.width as int));
    assert(t.subrange(0, m.length as int) =~= s.subrange(0, m.length as int));
    assert(s.subrange(0, m.length as int) =~= s);
}

/// A slot past those a frame holds reads as absent rather than as missing, so
/// a reader that knows of a slot a writer did not have finds nothing there,
/// and a schema can gain fields without breaking what was written before.
pub proof fn lemma_unknown_slot_is_absent(message: Message, slot: nat)
    requires
        message.model().kind != PACKED,
        slot >= message.model().count,
    ensures
        message.slot_entry(slot) == Ok::<Option<Seq<u8>>, Error>(None),
{
}

/// An entry that begins with the bytes a number of `n` bytes is written as
/// reads back as that number, whatever follows it.
pub proof fn lemma_scalar_reads_back(
    message: Message,
    slot: nat,
    value: nat,
    n: nat,
    rest: Seq<u8>,
)
    requires
        message.slot_entry(slot) == Ok::<Option<Seq<u8>>, Error>(Some(le_bytes(value, n) + rest)),
        value < pow256(n),
    ensures
        message.scalar_at(slot, n) == Ok::<nat, Error>(value),
{
    let bytes = le_bytes(value, n) + rest;
    crate::bytes::lemma_le_round_trip_fits(value, n);
    assert(bytes.subrange(0, n as int) =~= le_bytes(value, n));
}

/// An entry that begins with the bytes a signed number of `n` bytes is written
/// as, in two's complement, reads back as that number, whatever follows it.
pub proof fn lemma_signed_reads_back(
    message: Message,
    slot: nat,
    value: int,
    n: nat,
    rest: Seq<u8>,
)
    requires
        n >= 1,
        -(pow256(n) / 2) <= value < pow256(n) / 2,
        message.slot_entry(slot) == Ok::<Option<Seq<u8>>, Error>(
            Some(le_bytes(twos(value, n), n) + rest),
        ),
    ensures
        message.scalar_at(slot, n) matches Ok(stored) && signed(stored, n) == value,
{
    crate::bytes::lemma_twos_round_trip(value, n);
    lemma_scalar_reads_back(message, slot, twos(value, n), n, rest);
}

/// An entry that begins with a length and that many bytes reads back as those
/// bytes, whatever follows them: what `write_bytes` writes, `read_bytes`
/// reads.
pub proof fn lemma_bytes_read_back(message: Message, slot: nat, payload: Seq<u8>, rest: Seq<u8>)
    requires
        message.slot_entry(slot) == Ok::<Option<Seq<u8>>, Error>(
            Some(varint_bytes(payload.len()) + payload + rest),
        ),
        payload.len() <= u64::MAX,
    ensures
        bytes_of(required(message.slot_entry(slot))) == Ok::<Seq<u8>, Error>(payload),
{
    let bytes = varint_bytes(payload.len()) + payload + rest;
    crate::varint::lemma_varint_at_round_trip(Seq::empty(), payload.len() as u64, payload + rest);
    assert(Seq::<u8>::empty() + varint_bytes(payload.len()) + (payload + rest) =~= bytes);
    let size = varint_bytes(payload.len()).len();
    assert(bytes.subrange(size as int, (size + payload.len()) as int) =~= payload);
}

/// An entry that begins with the bytes a number is written in as a variable
/// width integer reads back as that number, whatever follows it: what
/// `write_number` writes, `read_number` reads.
pub proof fn lemma_number_reads_back(message: Message, slot: nat, value: u32, rest: Seq<u8>)
    requires
        message.slot_entry(slot) == Ok::<Option<Seq<u8>>, Error>(
            Some(varint_bytes(value as nat) + rest),
        ),
    ensures
        required(message.slot_entry(slot)) matches Ok(bytes) && varint_at(bytes, 0) == Some(
            (value as nat, varint_bytes(value as nat).len()),
        ),
{
    crate::varint::lemma_varint_at_round_trip(Seq::empty(), value as u64, rest);
    assert(Seq::<u8>::empty() + varint_bytes(value as nat) + rest =~= varint_bytes(value as nat)
        + rest);
}

/// A frame the writer ends reads back as the frame it began: its shape, count
/// and tag, the data written into it, and each entry as the data from where
/// it was begun, or as absent where it never was. Widening the frame on the
/// way changed none of that.
#[verifier::spinoff_prover]
pub proof fn lemma_ended_frame_reads_back(before: Seq<u8>, after: Seq<u8>, mark: FrameMark)
    requires
        mark.is_open_in(before),
        ended(before, after, mark),
        mark.kind() != PACKED || (mark.stride() > 0 && mark.count() * mark.stride()
            <= mark.data_in(before).len()),
    ensures
        ({
            let frame = after.subrange(mark.start() as int, after.len() as int);
            let data = mark.data_in(before);
            let positions = mark.positions_in(before);
            let model = parse_frame(frame)->Ok_0;
            &&& parse_frame(frame) is Ok
            &&& model.length == frame.len()
            &&& model.kind == mark.kind()
            &&& model.count == mark.count()
            &&& frame.subrange(model.data as int, frame.len() as int) == data.subrange(
                model.data - (frame.len() - data.len()),
                data.len() as int,
            )
            &&& frame.subrange(frame.len() - data.len(), frame.len() as int) == data
            &&& mark.kind() != PACKED ==> forall|i: nat|
                i < mark.count() ==> #[trigger] frame_entry(frame, model, i) == Ok::<
                    Option<Seq<u8>>,
                    Error,
                >(
                    match positions[i as int] {
                        Some(position) => Some(data.subrange(position as int, data.len() as int)),
                        None => None,
                    },
                )
            &&& mark.kind() == PACKED ==> model.step == mark.stride() && forall|i: nat|
                i < mark.count() ==> #[trigger] packed_element(frame, model, i) == data.subrange(
                    (i * mark.stride()) as int,
                    ((i + 1) * mark.stride()) as int,
                )
            &&& mark.kind() == TAGGED ==> (varint_at(
                frame,
                (model.table + model.count * model.step) as int,
            ) matches Some((tag, _)) && tag == mark.tag())
        }),
{
    let (width, length) = settled(
        (before.len() - mark.start()) as nat,
        mark.width_in(before),
        mark.count(),
        mark.kind(),
        mark.tag(),
    );
    let count = mark.count();
    let kind = mark.kind();
    let tag = mark.tag();
    let stride = mark.stride();
    let data = mark.data_in(before);
    let positions = mark.positions_in(before);
    let built = frame_bytes(width, count, kind, tag, stride, positions, data);
    let frame = after.subrange(mark.start() as int, after.len() as int);
    crate::writer::lemma_open_frame_bounds(before, mark);
    assert(frame =~= built);
    crate::format::lemma_frame_bytes_parse(width, count, kind, tag, stride, positions, data);
    crate::format::lemma_frame_bytes_layout(width, count, kind, tag, stride, positions, data);
    let model = frame_parts_model(width, count, kind, tag, stride, data);
    let header = crate::format::header_size(width, count, kind, tag);
    assert(frame.len() - data.len() == header);
    if kind != PACKED {
        assert forall|i: nat| i < count implies #[trigger] frame_entry(frame, model, i) == Ok::<
            Option<Seq<u8>>,
            Error,
        >(
            match positions[i as int] {
                Some(position) => Some(data.subrange(position as int, data.len() as int)),
                None => None,
            },
        ) by {
            crate::format::lemma_frame_bytes_entry(width, count, kind, tag, stride, positions, data, i);
        }
    } else {
        assert forall|i: nat| i < count implies #[trigger] packed_element(frame, model, i)
            == data.subrange((i * stride) as int, ((i + 1) * stride) as int) by {
            assert((i + 1) * stride <= count * stride) by (nonlinear_arith)
                requires
                    i < count,
            ;
            assert((i + 1) * stride == i * stride + stride) by (nonlinear_arith);
            assert(frame.subrange(header as int, frame.len() as int) == data);
            assert(packed_element(frame, model, i) =~= data.subrange(
                (i * stride) as int,
                ((i + 1) * stride) as int,
            ));
        }
    }
    if kind == TAGGED {
        let prefix = prefix_size(width, count >= COUNT_FOLLOWS, kind);
        let at = prefix + count * width;
        assert(frame =~= frame.subrange(0, at as int) + varint_bytes(tag) + data);
        crate::varint::lemma_varint_at_round_trip(frame.subrange(0, at as int), tag as u64, data);
    }
}

/// What a read gives back of a write, from end to end: a message of one slot
/// whose entry was begun and then given the bytes of a number of `n` bytes,
/// once ended, reads back as a frame whose entry is exactly those bytes, and so
/// as that number.
pub proof fn lemma_one_field_message_reads_back(
    s0: Seq<u8>,
    s1: Seq<u8>,
    s2: Seq<u8>,
    s3: Seq<u8>,
    s4: Seq<u8>,
    mark: FrameMark,
    value: nat,
    n: nat,
)
    requires
        begun(s0, s1, mark, 1, TABLE as nat, 0, 0),
        entry_begun(s1, s2, mark, 0),
        s3 == s2 + le_bytes(value, n),
        ended(s3, s4, mark),
        value < pow256(n),
    ensures
        ({
            let frame = s4.subrange(mark.start() as int, s4.len() as int);
            let model = parse_frame(frame)->Ok_0;
            &&& parse_frame(frame) is Ok
            &&& model.length == frame.len()
            &&& frame_entry(frame, model, 0) == Ok::<Option<Seq<u8>>, Error>(
                Some(le_bytes(value, n)),
            )
            &&& crate::message::scalar_of(required(frame_entry(frame, model, 0)), n) == Ok::<
                nat,
                Error,
            >(value)
        }),
{
    crate::writer::lemma_append_to_open_frame(s2, le_bytes(value, n), mark);
    assert(mark.positions_in(s2) =~= seq![Some(0nat)]);
    lemma_ended_frame_reads_back(s3, s4, mark);
    let data = mark.data_in(s3);
    assert(data =~= le_bytes(value, n));
    assert(data.subrange(0, data.len() as int) =~= data);
    crate::bytes::lemma_le_round_trip_fits(value, n);
    assert(le_bytes(value, n).subrange(0, n as int) =~= le_bytes(value, n));
}

/// A frame settles at the narrowest width its length fits in: begun at one
/// width, it is widened only past widths it had outgrown, and the header grows
/// by exactly what the wider numbers take.
pub proof fn lemma_settled_is_narrowest(length: nat, width: nat, count: nat, kind: nat, tag: nat)
    requires
        is_width(width),
    ensures
        ({
            let (settled_width, settled_length) = settled(length, width, count, kind, tag);
            &&& is_width(settled_width)
            &&& width <= settled_width
            &&& fits(settled_length, settled_width)
            &&& settled_length + header_size(width, count, kind, tag) == length + header_size(
                settled_width,
                count,
                kind,
                tag,
            )
            &&& width < settled_width ==> !fits(
                (settled_length + header_size(settled_width / 2, count, kind, tag) - header_size(
                    settled_width,
                    count,
                    kind,
                    tag,
                )) as nat,
                settled_width / 2,
            )
        }),
    decreases 16 - width,
{
    if width >= 8 || fits(length, width) {
    } else {
        crate::writer::lemma_header_growth(width, count, kind, tag);
        let wider_length = (length + header_size(2 * width, count, kind, tag) - header_size(
            width,
            count,
            kind,
            tag,
        )) as nat;
        lemma_settled_is_narrowest(wider_length, 2 * width, count, kind, tag);
    }
}


/// Whether what `E` makes of an element, accepted or refused, rests on the
/// element's bytes alone: reading one element twice, at any depths and validated or not, is
/// either accepted both times or refused both times.
pub open spec fn read_by_bytes<'buf, E: Element + ?Sized + 'buf>() -> bool {
    forall|
        bytes: Seq<u8>,
        model: FrameModel,
        index: nat,
        depth: nat,
        validate: bool,
        out: Result<E::Item<'buf>, Error>,
        other_depth: nat,
        other_validate: bool,
        other: Result<E::Item<'buf>, Error>,
    |
        #![trigger element_read::<E>(bytes, model, index, depth, validate, out), element_read::<E>(bytes, model, index, other_depth, other_validate, other)]
        element_read::<E>(bytes, model, index, depth, validate, out) && element_read::<E>(
            bytes,
            model,
            index,
            other_depth,
            other_validate,
            other,
        ) ==> (out is Ok <==> other is Ok)
}

/// Whether `E`, where its packing says every element of its width is one,
/// accepts every element of that width.
pub open spec fn packed_total<'buf, E: Element + ?Sized + 'buf>() -> bool {
    checked_by_shape(E::packed_as()) ==> forall|element: &'buf [u8], out: Result<E::Item<'buf>, Error>|
        element@.len() == E::packed_as()->Some_0.width && #[trigger] call_ensures(
            E::decode_packed,
            (element,),
            out,
        ) ==> out is Ok
}

/// A list that a validating message hands out had every element its shape
/// does not vouch for decoded as it was read, so reading any element of it
/// afterwards gives that element back: the check a decode makes up front is
/// what lets the reads that follow it not fail. This holds of every element
/// whose acceptance rests on its bytes alone, which
/// [`lemma_elements_read_by_bytes`] shows of each element this library has.
pub proof fn lemma_validated_list_reads_back<'buf, E: Element + ?Sized>(
    message: Message<'buf>,
    slot: nat,
    list: ListView<'buf, E>,
    index: nat,
    out: Result<E::Item<'buf>, Error>,
)
    requires
        message.validating(),
        list_read::<E>(message, slot, Ok::<ListView<'buf, E>, Error>(list)),
        index < list.entries(),
        element_read::<E>(list.bytes_view(), list.model(), index, 0, false, out),
        read_by_bytes::<E>(),
        packed_total::<E>(),
    ensures
        out is Ok,
{
    let frame = list.bytes_view();
    let model = list.model();
    if checked_by_shape(E::packed_as()) {
        let bytes = required(message.slot_entry(slot))->Ok_0;
        crate::frame::lemma_parse_frame_truncate(bytes);
        crate::frame::lemma_parse_frame_facts(frame);
        let step = model.step;
        assert(index < model.count);
        assert((index + 1) * step <= model.count * step) by (nonlinear_arith)
            requires
                index < model.count,
        ;
        assert((index + 1) * step == index * step + step) by (nonlinear_arith);
        let element = choose|element: &'buf [u8]|
            element@ == packed_element(frame, model, index) && call_ensures(
                E::decode_packed,
                (element,),
                out,
            );
        assert(element@.len() == step);
    } else {
        assert(element_accepted::<E>(frame, model, index, message.depth()));
        let accepted = choose|o: Result<E::Item<'buf>, Error>|
            element_read::<E>(frame, model, index, message.depth(), true, o) && o is Ok;
        assert(element_read::<E>(frame, model, index, message.depth(), true, accepted));
    }
}

/// Whether `E` accepts a packed element, or an entry of a list, by its bytes
/// alone: two reads of the same bytes are accepted alike.
pub open spec fn decodes_by_bytes<'buf, E: Element + ?Sized + 'buf>() -> bool {
    &&& forall|
        element: &'buf [u8],
        out: Result<E::Item<'buf>, Error>,
        same: &'buf [u8],
        other: Result<E::Item<'buf>, Error>,
    |
        #![trigger call_ensures(E::decode_packed, (element,), out), call_ensures(E::decode_packed, (same,), other)]
        element@ == same@ && call_ensures(E::decode_packed, (element,), out) && call_ensures(
            E::decode_packed,
            (same,),
            other,
        ) ==> (out is Ok <==> other is Ok)
    &&& forall|
        list: Message<'buf>,
        index: u32,
        out: Result<E::Item<'buf>, Error>,
        same: Message<'buf>,
        other: Result<E::Item<'buf>, Error>,
    |
        #![trigger call_ensures(E::decode_element, (list, index), out), call_ensures(E::decode_element, (same, index), other)]
        list.bytes_view() == same.bytes_view() && list.model() == same.model() && call_ensures(
            E::decode_element,
            (list, index),
            out,
        ) && call_ensures(E::decode_element, (same, index), other) ==> (out is Ok <==> other is Ok)
}

proof fn lemma_read_by_bytes<'buf, E: Element + ?Sized + 'buf>()
    requires
        decodes_by_bytes::<E>(),
    ensures
        read_by_bytes::<E>(),
{
    assert forall|
        bytes: Seq<u8>,
        model: FrameModel,
        index: nat,
        depth: nat,
        validate: bool,
        out: Result<E::Item<'buf>, Error>,
        other_depth: nat,
        other_validate: bool,
        other: Result<E::Item<'buf>, Error>,
    |
        element_read::<E>(bytes, model, index, depth, validate, out) && element_read::<E>(
            bytes,
            model,
            index,
            other_depth,
            other_validate,
            other,
        ) implies (out is Ok <==> other is Ok) by {
        if model.kind == PACKED {
            let element = choose|element: &'buf [u8]|
                element@ == packed_element(bytes, model, index) && call_ensures(
                    E::decode_packed,
                    (element,),
                    out,
                );
            let same = choose|element: &'buf [u8]|
                element@ == packed_element(bytes, model, index) && call_ensures(
                    E::decode_packed,
                    (element,),
                    other,
                );
        } else {
            let list = choose|list: Message<'buf>|
                list.bytes_view() == bytes && list.model() == model && list.depth() == depth
                    && list.validating() == validate && call_ensures(
                    E::decode_element,
                    (list, index as u32),
                    out,
                );
            let same = choose|list: Message<'buf>|
                list.bytes_view() == bytes && list.model() == model && list.depth() == other_depth
                    && list.validating() == other_validate && call_ensures(
                    E::decode_element,
                    (list, index as u32),
                    other,
                );
        }
    }
}

/// Every element this library has is accepted or refused by its bytes alone,
/// and each number, whose every pattern of its width is one, is accepted
/// whatever its bytes.
pub proof fn lemma_elements_read_by_bytes<'buf>()
    ensures
        read_by_bytes::<'buf, bool>() && packed_total::<'buf, bool>(),
        read_by_bytes::<'buf, char>() && packed_total::<'buf, char>(),
        read_by_bytes::<'buf, u8>() && packed_total::<'buf, u8>(),
        read_by_bytes::<'buf, u16>() && packed_total::<'buf, u16>(),
        read_by_bytes::<'buf, u32>() && packed_total::<'buf, u32>(),
        read_by_bytes::<'buf, u64>() && packed_total::<'buf, u64>(),
        read_by_bytes::<'buf, u128>() && packed_total::<'buf, u128>(),
        read_by_bytes::<'buf, i8>() && packed_total::<'buf, i8>(),
        read_by_bytes::<'buf, i16>() && packed_total::<'buf, i16>(),
        read_by_bytes::<'buf, i32>() && packed_total::<'buf, i32>(),
        read_by_bytes::<'buf, i64>() && packed_total::<'buf, i64>(),
        read_by_bytes::<'buf, i128>() && packed_total::<'buf, i128>(),
        read_by_bytes::<'buf, str>() && packed_total::<'buf, str>(),
        read_by_bytes::<'buf, [u8]>() && packed_total::<'buf, [u8]>(),
{
    lemma_read_by_bytes::<'buf, bool>();
    lemma_read_by_bytes::<'buf, char>();
    lemma_read_by_bytes::<'buf, u8>();
    lemma_read_by_bytes::<'buf, u16>();
    lemma_read_by_bytes::<'buf, u32>();
    lemma_read_by_bytes::<'buf, u64>();
    lemma_read_by_bytes::<'buf, u128>();
    lemma_read_by_bytes::<'buf, i8>();
    lemma_read_by_bytes::<'buf, i16>();
    lemma_read_by_bytes::<'buf, i32>();
    lemma_read_by_bytes::<'buf, i64>();
    lemma_read_by_bytes::<'buf, i128>();
    lemma_read_by_bytes::<'buf, str>();
    lemma_read_by_bytes::<'buf, [u8]>();
}

/// A frame's bytes do not depend on where in the buffer it was begun: every
/// offset it holds counts from its own start, so two frames in step (of the
/// same shape, at the same width, with the same entries recorded and the same
/// data written) end as the same bytes, with whatever stood before each left
/// as it was.
pub proof fn lemma_ended_frame_is_position_independent(
    before: Seq<u8>,
    after: Seq<u8>,
    mark: FrameMark,
    other_before: Seq<u8>,
    other_after: Seq<u8>,
    other: FrameMark,
)
    requires
        mark.is_open_in(before),
        other.is_open_in(other_before),
        other.count() == mark.count(),
        other.kind() == mark.kind(),
        other.tag() == mark.tag(),
        other.stride() == mark.stride(),
        other.width_in(other_before) == mark.width_in(before),
        other.positions_in(other_before) == mark.positions_in(before),
        other.data_in(other_before) == mark.data_in(before),
        ended(before, after, mark),
        ended(other_before, other_after, other),
    ensures
        other_after.subrange(other.start() as int, other_after.len() as int) == after.subrange(
            mark.start() as int,
            after.len() as int,
        ),
        other_after.subrange(0, other.start() as int) == other_before.subrange(
            0,
            other.start() as int,
        ),
{
    crate::writer::lemma_open_frame_bounds(before, mark);
    crate::writer::lemma_open_frame_bounds(other_before, other);
    let start = mark.start() as int;
    let other_start = other.start() as int;
    let (width, length) = settled(
        (before.len() - mark.start()) as nat,
        mark.width_in(before),
        mark.count(),
        mark.kind(),
        mark.tag(),
    );
    let frame = frame_bytes(
        width,
        mark.count(),
        mark.kind(),
        mark.tag(),
        mark.stride(),
        mark.positions_in(before),
        mark.data_in(before),
    );
    assert(after.subrange(start, after.len() as int) =~= frame);
    assert(other_after.subrange(other_start, other_after.len() as int) =~= frame);
    assert(other_after.subrange(0, other_start) =~= other_before.subrange(0, other_start));
}

/// Recording an entry keeps two frames in step wherever each was begun: two
/// frames of the same shape, at the same width, with the same entries recorded
/// and the same data written, have the same again once the same entry of each
/// is recorded, and each has grown by as much.
pub proof fn lemma_entry_keeps_frames_in_step(
    before: Seq<u8>,
    after: Seq<u8>,
    mark: FrameMark,
    other_before: Seq<u8>,
    other_after: Seq<u8>,
    other: FrameMark,
    index: nat,
)
    requires
        mark.is_open_in(before),
        other.is_open_in(other_before),
        other.count() == mark.count(),
        other.kind() == mark.kind(),
        other.tag() == mark.tag(),
        other.stride() == mark.stride(),
        other.width_in(other_before) == mark.width_in(before),
        other.positions_in(other_before) == mark.positions_in(before),
        other.data_in(other_before) == mark.data_in(before),
        entry_begun(before, after, mark, index),
        entry_begun(other_before, other_after, other, index),
    ensures
        other.width_in(other_after) == mark.width_in(after),
        other.positions_in(other_after) == mark.positions_in(after),
        other.data_in(other_after) == mark.data_in(after),
        other_after.len() - other.start() == after.len() - mark.start(),
{
    crate::writer::lemma_open_frame_bounds(before, mark);
    crate::writer::lemma_open_frame_bounds(other_before, other);
}

/// A writer only appends, and rewrites only the frames it began: recording an
/// entry of a frame, or ending one, leaves every byte before that frame's
/// start as it was, and so whatever the buffer held when the writer was made,
/// which comes before every frame the writer begins.
pub proof fn lemma_writer_keeps_what_precedes_its_frames(
    before: Seq<u8>,
    after: Seq<u8>,
    mark: FrameMark,
    index: nat,
    kept: nat,
)
    requires
        mark.is_open_in(before),
        kept <= mark.start(),
        entry_begun(before, after, mark, index) || ended(before, after, mark),
    ensures
        kept <= after.len(),
        after.subrange(0, kept as int) == before.subrange(0, kept as int),
{
    crate::writer::lemma_open_frame_bounds(before, mark);
    let start = mark.start() as int;
    if entry_begun(before, after, mark, index) {
        crate::writer::lemma_open_frame_bounds(after, mark);
    }
    assert(after.subrange(0, start).len() == start);
    assert(after.subrange(0, kept as int) =~= after.subrange(0, start).subrange(0, kept as int));
    assert(before.subrange(0, kept as int) =~= before.subrange(0, start).subrange(0, kept as int));
}

/// Walking a list hands out its elements in order: from a fresh walk, the
/// call of `next` that follows `k` calls that each handed out an element asks
/// the list for its element at position `k`, and hands out what it gave.
pub proof fn lemma_walk_hands_out_in_order<'a, L: List>(
    walk: Seq<ListIter<'a, L>>,
    items: Seq<Option<L::Item>>,
)
    requires
        walk.len() == items.len() + 1,
        walk[0].position() == 0,
        forall|k: int| 0 <= k < items.len() ==> #[trigger] stepped(walk[k], walk[k + 1], items[k]),
    ensures
        forall|k: int|
            0 <= k < items.len() && (forall|j: int| 0 <= j < k ==> items[j] is Some) ==> {
                &&& #[trigger] walk[k].list() == walk[0].list()
                &&& walk[k].position() == k
                &&& k < usize::MAX ==> call_ensures(L::get, (walk[0].list(), k as usize), items[k])
            },
    decreases items.len(),
{
    if items.len() > 0 {
        let n: int = items.len() - 1;
        let shorter = walk.drop_last();
        let fewer = items.drop_last();
        assert(fewer.len() == n && shorter.len() == n + 1);
        assert forall|k: int| 0 <= k < fewer.len() implies #[trigger] stepped(
            shorter[k],
            shorter[k + 1],
            fewer[k],
        ) by {
            assert(shorter[k] == walk[k] && shorter[k + 1] == walk[k + 1] && fewer[k] == items[k]);
            assert(stepped(walk[k], walk[k + 1], items[k]));
        }
        lemma_walk_hands_out_in_order(shorter, fewer);
        assert forall|k: int|
            0 <= k < items.len() && (forall|j: int| 0 <= j < k ==> items[j] is Some) implies {
                &&& #[trigger] walk[k].list() == walk[0].list()
                &&& walk[k].position() == k
                &&& k < usize::MAX ==> call_ensures(L::get, (walk[0].list(), k as usize), items[k])
            } by {
            assert(shorter[0] == walk[0]);
            if k < n {
                assert(fewer[k] == items[k]);
                assert(shorter[k] == walk[k]);
                assert(forall|j: int| 0 <= j < k ==> fewer[j] == items[j]);
            } else if n > 0 {
                let p: int = n - 1;
                assert(fewer[p] == items[p]);
                assert(shorter[p] == walk[p]);
                assert(forall|j: int| 0 <= j < p ==> fewer[j] == items[j]);
                assert(items[p] is Some);
                assert(stepped(walk[p], walk[p + 1], items[p]));
                assert(p + 1 == k);
            }
            assert(stepped(walk[k], walk[k + 1], items[k]));
        }
    }
}

/// A packed number is as wide as what the writer writes it in, and reads back
/// as the number written: for each number type, the bytes a `Writer` writes a
/// value in are exactly as many as the type's packing gives one element, the
/// element those bytes make decodes as that value, and an element shorter than
/// that width is refused. A list begun by `begin_list` for the type, given its
/// values by the writer, thus holds them one after another at that stride.
pub proof fn lemma_packed_numbers_read_as_written<'buf>()
    ensures
        forall|v: u8| #[trigger] le_bytes(v as nat, 1).len() == <u8 as Element>::packed_as()->Some_0.width,
        forall|v: u8, element: &'buf [u8], out: Result<u8, Error>|
            #![trigger le_bytes(v as nat, 1), call_ensures(<u8 as Element>::decode_packed, (element,), out)]
            element@ == le_bytes(v as nat, 1) && call_ensures(<u8 as Element>::decode_packed, (element,), out)
                ==> out == Ok::<u8, Error>(v),
        forall|element: &'buf [u8], out: Result<u8, Error>|
            element@.len() < <u8 as Element>::packed_as()->Some_0.width && #[trigger] call_ensures(
                <u8 as Element>::decode_packed,
                (element,),
                out,
            ) ==> out is Err,
        forall|v: u16| #[trigger] le_bytes(v as nat, 2).len() == <u16 as Element>::packed_as()->Some_0.width,
        forall|v: u16, element: &'buf [u8], out: Result<u16, Error>|
            #![trigger le_bytes(v as nat, 2), call_ensures(<u16 as Element>::decode_packed, (element,), out)]
            element@ == le_bytes(v as nat, 2) && call_ensures(<u16 as Element>::decode_packed, (element,), out)
                ==> out == Ok::<u16, Error>(v),
        forall|element: &'buf [u8], out: Result<u16, Error>|
            element@.len() < <u16 as Element>::packed_as()->Some_0.width && #[trigger] call_ensures(
                <u16 as Element>::decode_packed,
                (element,),
                out,
            ) ==> out is Err,
        forall|v: u32| #[trigger] le_bytes(v as nat, 4).len() == <u32 as Element>::packed_as()->Some_0.width,
        forall|v: u32, element: &'buf [u8], out: Result<u32, Error>|
            #![trigger le_bytes(v as nat, 4), call_ensures(<u32 as Element>::decode_packed, (element,), out)]
            element@ == le_bytes(v as nat, 4) && call_ensures(<u32 as Element>::decode_packed, (element,), out)
                ==> out == Ok::<u32, Error>(v),
        forall|element: &'buf [u8], out: Result<u32, Error>|
            element@.len() < <u32 as Element>::packed_as()->Some_0.width && #[trigger] call_ensures(
                <u32 as Element>::decode_packed,
                (element,),
                out,
            ) ==> out is Err,
        forall|v: u64| #[trigger] le_bytes(v as nat, 8).len() == <u64 as Element>::packed_as()->Some_0.width,
        forall|v: u64, element: &'buf [u8], out: Result<u64, Error>|
            #![trigger le_bytes(v as nat, 8), call_ensures(<u64 as Element>::decode_packed, (element,), out)]
            element@ == le_bytes(v as nat, 8) && call_ensures(<u64 as Element>::decode_packed, (element,), out)
                ==> out == Ok::<u64, Error>(v),
        forall|element: &'buf [u8], out: Result<u64, Error>|
            element@.len() < <u64 as Element>::packed_as()->Some_0.width && #[trigger] call_ensures(
                <u64 as Element>::decode_packed,
                (element,),
                out,
            ) ==> out is Err,
        forall|v: u128| #[trigger] le_bytes(v as nat, 16).len() == <u128 as Element>::packed_as()->Some_0.width,
        forall|v: u128, element: &'buf [u8], out: Result<u128, Error>|
            #![trigger le_bytes(v as nat, 16), call_ensures(<u128 as Element>::decode_packed, (element,), out)]
            element@ == le_bytes(v as nat, 16) && call_ensures(<u128 as Element>::decode_packed, (element,), out)
                ==> out == Ok::<u128, Error>(v),
        forall|element: &'buf [u8], out: Result<u128, Error>|
            element@.len() < <u128 as Element>::packed_as()->Some_0.width && #[trigger] call_ensures(
                <u128 as Element>::decode_packed,
                (element,),
                out,
            ) ==> out is Err,
        forall|v: i8| #[trigger] le_bytes(twos(v as int, 1), 1).len() == <i8 as Element>::packed_as()->Some_0.width,
        forall|v: i8, element: &'buf [u8], out: Result<i8, Error>|
            #![trigger le_bytes(twos(v as int, 1), 1), call_ensures(<i8 as Element>::decode_packed, (element,), out)]
            element@ == le_bytes(twos(v as int, 1), 1) && call_ensures(<i8 as Element>::decode_packed, (element,), out)
                ==> out == Ok::<i8, Error>(v),
        forall|element: &'buf [u8], out: Result<i8, Error>|
            element@.len() < <i8 as Element>::packed_as()->Some_0.width && #[trigger] call_ensures(
                <i8 as Element>::decode_packed,
                (element,),
                out,
            ) ==> out is Err,
        forall|v: i16| #[trigger] le_bytes(twos(v as int, 2), 2).len() == <i16 as Element>::packed_as()->Some_0.width,
        forall|v: i16, element: &'buf [u8], out: Result<i16, Error>|
            #![trigger le_bytes(twos(v as int, 2), 2), call_ensures(<i16 as Element>::decode_packed, (element,), out)]
            element@ == le_bytes(twos(v as int, 2), 2) && call_ensures(<i16 as Element>::decode_packed, (element,), out)
                ==> out == Ok::<i16, Error>(v),
        forall|element: &'buf [u8], out: Result<i16, Error>|
            element@.len() < <i16 as Element>::packed_as()->Some_0.width && #[trigger] call_ensures(
                <i16 as Element>::decode_packed,
                (element,),
                out,
            ) ==> out is Err,
        forall|v: i32| #[trigger] le_bytes(twos(v as int, 4), 4).len() == <i32 as Element>::packed_as()->Some_0.width,
        forall|v: i32, element: &'buf [u8], out: Result<i32, Error>|
            #![trigger le_bytes(twos(v as int, 4), 4), call_ensures(<i32 as Element>::decode_packed, (element,), out)]
            element@ == le_bytes(twos(v as int, 4), 4) && call_ensures(<i32 as Element>::decode_packed, (element,), out)
                ==> out == Ok::<i32, Error>(v),
        forall|element: &'buf [u8], out: Result<i32, Error>|
            element@.len() < <i32 as Element>::packed_as()->Some_0.width && #[trigger] call_ensures(
                <i32 as Element>::decode_packed,
                (element,),
                out,
            ) ==> out is Err,
        forall|v: i64| #[trigger] le_bytes(twos(v as int, 8), 8).len() == <i64 as Element>::packed_as()->Some_0.width,
        forall|v: i64, element: &'buf [u8], out: Result<i64, Error>|
            #![trigger le_bytes(twos(v as int, 8), 8), call_ensures(<i64 as Element>::decode_packed, (element,), out)]
            element@ == le_bytes(twos(v as int, 8), 8) && call_ensures(<i64 as Element>::decode_packed, (element,), out)
                ==> out == Ok::<i64, Error>(v),
        forall|element: &'buf [u8], out: Result<i64, Error>|
            element@.len() < <i64 as Element>::packed_as()->Some_0.width && #[trigger] call_ensures(
                <i64 as Element>::decode_packed,
                (element,),
                out,
            ) ==> out is Err,
        forall|v: i128| #[trigger] le_bytes(twos(v as int, 16), 16).len() == <i128 as Element>::packed_as()->Some_0.width,
        forall|v: i128, element: &'buf [u8], out: Result<i128, Error>|
            #![trigger le_bytes(twos(v as int, 16), 16), call_ensures(<i128 as Element>::decode_packed, (element,), out)]
            element@ == le_bytes(twos(v as int, 16), 16) && call_ensures(<i128 as Element>::decode_packed, (element,), out)
                ==> out == Ok::<i128, Error>(v),
        forall|element: &'buf [u8], out: Result<i128, Error>|
            element@.len() < <i128 as Element>::packed_as()->Some_0.width && #[trigger] call_ensures(
                <i128 as Element>::decode_packed,
                (element,),
                out,
            ) ==> out is Err,
{
    crate::bytes::lemma_pow256_values();
    assert forall|v: u8, element: &'buf [u8], out: Result<u8, Error>|
        element@ == le_bytes(v as nat, 1) && call_ensures(<u8 as Element>::decode_packed, (element,), out)
            implies out == Ok::<u8, Error>(v) by {
        crate::bytes::lemma_le_round_trip_fits(v as nat, 1);
        assert(element@.subrange(0, 1) =~= element@);
    }
    assert forall|v: u16, element: &'buf [u8], out: Result<u16, Error>|
        element@ == le_bytes(v as nat, 2) && call_ensures(<u16 as Element>::decode_packed, (element,), out)
            implies out == Ok::<u16, Error>(v) by {
        crate::bytes::lemma_le_round_trip_fits(v as nat, 2);
        assert(element@.subrange(0, 2) =~= element@);
    }
    assert forall|v: u32, element: &'buf [u8], out: Result<u32, Error>|
        element@ == le_bytes(v as nat, 4) && call_ensures(<u32 as Element>::decode_packed, (element,), out)
            implies out == Ok::<u32, Error>(v) by {
        crate::bytes::lemma_le_round_trip_fits(v as nat, 4);
        assert(element@.subrange(0, 4) =~= element@);
    }
    assert forall|v: u64, element: &'buf [u8], out: Result<u64, Error>|
        element@ == le_bytes(v as nat, 8) && call_ensures(<u64 as Element>::decode_packed, (element,), out)
            implies out == Ok::<u64, Error>(v) by {
        crate::bytes::lemma_le_round_trip_fits(v as nat, 8);
        assert(element@.subrange(0, 8) =~= element@);
    }
    assert forall|v: u128, element: &'buf [u8], out: Result<u128, Error>|
        element@ == le_bytes(v as nat, 16) && call_ensures(<u128 as Element>::decode_packed, (element,), out)
            implies out == Ok::<u128, Error>(v) by {
        crate::bytes::lemma_le_round_trip_fits(v as nat, 16);
        assert(element@.subrange(0, 16) =~= element@);
    }
    assert forall|v: i8, element: &'buf [u8], out: Result<i8, Error>|
        element@ == le_bytes(twos(v as int, 1), 1) && call_ensures(<i8 as Element>::decode_packed, (element,), out)
            implies out == Ok::<i8, Error>(v) by {
        crate::bytes::lemma_twos_round_trip(v as int, 1);
            crate::bytes::lemma_le_round_trip_fits(twos(v as int, 1), 1);
        assert(element@.subrange(0, 1) =~= element@);
    }
    assert forall|v: i16, element: &'buf [u8], out: Result<i16, Error>|
        element@ == le_bytes(twos(v as int, 2), 2) && call_ensures(<i16 as Element>::decode_packed, (element,), out)
            implies out == Ok::<i16, Error>(v) by {
        crate::bytes::lemma_twos_round_trip(v as int, 2);
            crate::bytes::lemma_le_round_trip_fits(twos(v as int, 2), 2);
        assert(element@.subrange(0, 2) =~= element@);
    }
    assert forall|v: i32, element: &'buf [u8], out: Result<i32, Error>|
        element@ == le_bytes(twos(v as int, 4), 4) && call_ensures(<i32 as Element>::decode_packed, (element,), out)
            implies out == Ok::<i32, Error>(v) by {
        crate::bytes::lemma_twos_round_trip(v as int, 4);
            crate::bytes::lemma_le_round_trip_fits(twos(v as int, 4), 4);
        assert(element@.subrange(0, 4) =~= element@);
    }
    assert forall|v: i64, element: &'buf [u8], out: Result<i64, Error>|
        element@ == le_bytes(twos(v as int, 8), 8) && call_ensures(<i64 as Element>::decode_packed, (element,), out)
            implies out == Ok::<i64, Error>(v) by {
        crate::bytes::lemma_twos_round_trip(v as int, 8);
            crate::bytes::lemma_le_round_trip_fits(twos(v as int, 8), 8);
        assert(element@.subrange(0, 8) =~= element@);
    }
    assert forall|v: i128, element: &'buf [u8], out: Result<i128, Error>|
        element@ == le_bytes(twos(v as int, 16), 16) && call_ensures(<i128 as Element>::decode_packed, (element,), out)
            implies out == Ok::<i128, Error>(v) by {
        crate::bytes::lemma_twos_round_trip(v as int, 16);
            crate::bytes::lemma_le_round_trip_fits(twos(v as int, 16), 16);
        assert(element@.subrange(0, 16) =~= element@);
    }
}

/// A bool packed in a list is the one byte the writer writes it as, and reads
/// back as itself; a char is the four bytes of its scalar value, and reads
/// back as itself too.
pub proof fn lemma_packed_bools_and_chars_read_as_written<'buf>()
    ensures
        seq![0u8].len() == <bool as Element>::packed_as()->Some_0.width,
        seq![1u8].len() == <bool as Element>::packed_as()->Some_0.width,
        forall|element: &'buf [u8], out: Result<bool, Error>|
            element@ == seq![0u8] && #[trigger] call_ensures(
                <bool as Element>::decode_packed,
                (element,),
                out,
            ) ==> out == Ok::<bool, Error>(false),
        forall|element: &'buf [u8], out: Result<bool, Error>|
            element@ == seq![1u8] && #[trigger] call_ensures(
                <bool as Element>::decode_packed,
                (element,),
                out,
            ) ==> out == Ok::<bool, Error>(true),
        forall|c: char| #[trigger] le_bytes(c as nat, 4).len()
            == <char as Element>::packed_as()->Some_0.width,
        forall|c: char, element: &'buf [u8], out: Result<char, Error>|
            #![trigger le_bytes(c as nat, 4), call_ensures(<char as Element>::decode_packed, (element,), out)]
            element@ == le_bytes(c as nat, 4) && call_ensures(
                <char as Element>::decode_packed,
                (element,),
                out,
            ) ==> out == Ok::<char, Error>(c),
{
    crate::bytes::lemma_pow256_values();
    assert forall|element: &'buf [u8], out: Result<bool, Error>|
        (element@ == seq![0u8] || element@ == seq![1u8]) && call_ensures(
            <bool as Element>::decode_packed,
            (element,),
            out,
        ) implies out == Ok::<bool, Error>(element@ == seq![1u8]) by {
        assert(element@.subrange(0, 1) =~= element@);
        reveal_with_fuel(crate::bytes::le_value, 2);
    }
    assert forall|c: char, element: &'buf [u8], out: Result<char, Error>|
        element@ == le_bytes(c as nat, 4) && call_ensures(
            <char as Element>::decode_packed,
            (element,),
            out,
        ) implies out == Ok::<char, Error>(c) by {
        lemma_chars_are_scalar_values(c, c as nat);
        crate::bytes::lemma_le_round_trip_fits(c as nat, 4);
        assert(element@.subrange(0, 4) =~= element@);
        assert(out is Ok);
        lemma_same_scalar_same_char(out->Ok_0, c);
    }
}

/// Every `char` is a Unicode scalar value, and every Unicode scalar value is a
/// `char`: what the writer writes a char as, its scalar value, is a value a
/// reader accepts, and a reader refuses only numbers that no char is.
pub proof fn lemma_chars_are_scalar_values(c: char, value: nat)
    ensures
        is_scalar_value(c as nat),
        is_scalar_value(value) <==> exists|d: char| #[trigger] (d as nat) == value,
{
    if is_scalar_value(value) {
        let d = value as char;
        assert(d as nat == value);
    }
}

/// A char written into a slot reads back as that char: an entry beginning
/// with the four bytes of its scalar value, whatever follows them, is read by
/// `read_char` as exactly that char.
pub proof fn lemma_char_reads_back<'buf>(
    message: Message<'buf>,
    slot: u32,
    c: char,
    rest: Seq<u8>,
    out: Result<char, Error>,
)
    requires
        message.slot_entry(slot as nat) == Ok::<Option<Seq<u8>>, Error>(
            Some(le_bytes(c as nat, 4) + rest),
        ),
        call_ensures(Message::read_char, (&message, slot), out),
    ensures
        out == Ok::<char, Error>(c),
{
    crate::bytes::lemma_pow256_values();
    lemma_chars_are_scalar_values(c, c as nat);
    lemma_scalar_reads_back(message, slot as nat, c as nat, 4, rest);
    assert(message.scalar_at(slot as nat, 4) == Ok::<nat, Error>(c as nat));
    assert(out is Ok);
    lemma_same_scalar_same_char(out->Ok_0, c);
}

/// Two chars of one scalar value are one char.
proof fn lemma_same_scalar_same_char(c: char, d: char)
    requires
        c as nat == d as nat,
    ensures
        c == d,
{
}
} // verus!