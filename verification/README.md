# Zero-copy serialization, verified

A wire format for schema-driven, zero-copy serialization, written in Verus.
A message, an enum and a list are all one primitive, a frame: a control byte
naming the frame's width, shape and (small) entry count, the frame's length, an
offset table indexed by slot, and the entries themselves. A list whose
elements are all one width is packed, with no table.

## Layout

- `src/bytes.rs`: little-endian numbers and two's complement, as functions on
  byte sequences, with the executable reads and writes proved against them.
- `src/varint.rs`: LEB128 integers.
- `src/format.rs`: the format itself: what a frame's bytes are
  (`frame_bytes`) and what reading a header says (`parse_frame`), with the
  proof that the one reads back as the other.
- `src/frame.rs`: reading a frame's header and reaching its entries.
- `src/writer.rs`: `Writer`, which builds frames at the end of a buffer and
  widens a frame's offsets only when it outgrows them, and `FrameMark`.
- `src/message.rs`: `Message`, which reads a frame slot by slot.
- `src/list.rs`: `List`, `ListView`, `OwnedList`, `Copied` (with `CopyOut`,
  what it copies an item out of) and `Element`.
- `src/laws.rs`: what holds across the reader and the writer: truncations are
  refused, trailing bytes are noticed, unknown slots read as absent, what a
  writer ends reads back as what was written into it and is the same bytes
  wherever in a buffer it was begun, a writer keeps what precedes its frames,
  a list a decode checked reads back without failing, and a walk hands out a
  list's elements in order.
- `src/lib.rs`: `Error`, the `Zerializable` and `Value` traits, `encode` and
  `decode`.
- `tests/`: round trips through schemas written out by hand, and the format
  byte for byte.
- `app/`: a `std::error::Error` for the library's errors, and floating point
  fields, which the verified library leaves out.
