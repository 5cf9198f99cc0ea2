//! The wire datagram: a 40-byte header of four magic-delimited fields followed
//! by the payload, all numbers big-endian.

use byteorder::{BigEndian, ByteOrder, WriteBytesExt};
use vstd::prelude::*;

verus! {

/// Bytes of the leading payload-length field.
pub const LENGTH_FIELD_SIZE: usize = 4;

/// Bytes of the sequence-number field, markers included.
pub const SEQUENCE_FIELD_SIZE: usize = 8;

/// Bytes of the timestamp field, markers included.
pub const TIMESTAMP_FIELD_SIZE: usize = 20;

/// Bytes of the frame-length field, markers included.
pub const FRAME_FIELD_SIZE: usize = 8;

/// Bytes in front of the payload.
pub const HEADER_SIZE: usize = 40;

/// The number that a byte string denotes when read most significant byte first.
pub open spec fn be_value(bytes: Seq<u8>) -> nat
    decreases bytes.len(),
{
    if bytes.len() == 0 {
        0
    } else {
        be_value(bytes.drop_last()) * 256 + bytes.last() as nat
    }
}

/// The `width` low-order base-256 digits of `value`, most significant first.
pub open spec fn be_bytes(value: nat, width: nat) -> Seq<u8>
    decreases width,
{
    if width == 0 {
        Seq::empty()
    } else {
        be_bytes(value / 256, (width - 1) as nat).push((value % 256) as u8)
    }
}

/// 256 to the power `width`: the number of values that `width` bytes can hold.
pub open spec fn byte_range(width: nat) -> nat
    decreases width,
{
    if width == 0 {
        1
    } else {
        256 * byte_range((width - 1) as nat)
    }
}

/// `be_bytes` yields exactly `width` bytes.
pub proof fn lemma_be_bytes_len(value: nat, width: nat)
    ensures
        be_bytes(value, width).len() == width,
    decreases width,
{
    if width > 0 {
        lemma_be_bytes_len(value / 256, (width - 1) as nat);
    }
}

/// Reading back the bytes written for a value that fits gives the value.
pub proof fn lemma_be_value_of_bytes(value: nat, width: nat)
    requires
        value < byte_range(width),
    ensures
        be_value(be_bytes(value, width)) == value,
    decreases width,
{
    if width > 0 {
        let rest = be_bytes(value / 256, (width - 1) as nat);
        lemma_be_value_of_bytes(value / 256, (width - 1) as nat);
        assert(be_bytes(value, width).drop_last() =~= rest);
    }
}

/// A byte string denotes a number below 256 to the power of its length.
pub proof fn lemma_be_value_bound(bytes: Seq<u8>)
    ensures
        be_value(bytes) < byte_range(bytes.len()),
    decreases bytes.len(),
{
    if bytes.len() > 0 {
        lemma_be_value_bound(bytes.drop_last());
    }
}

/// Writing out the number that `bytes` denotes, at the same width, gives `bytes` back.
pub proof fn lemma_be_bytes_of_value(bytes: Seq<u8>)
    ensures
        be_bytes(be_value(bytes), bytes.len()) == bytes,
    decreases bytes.len(),
{
    if bytes.len() > 0 {
        lemma_be_bytes_of_value(bytes.drop_last());
        assert(be_bytes(be_value(bytes), bytes.len()) =~= bytes);
    } else {
        assert(be_bytes(be_value(bytes), bytes.len()) =~= bytes);
    }
}

/// Four bytes hold exactly the 32-bit numbers, sixteen bytes the 128-bit ones.
pub proof fn lemma_byte_ranges()
    ensures
        byte_range(4) == 0x1_0000_0000,
        byte_range(16) == 0x1_0000_0000_0000_0000_0000_0000_0000_0000,
{
    reveal_with_fuel(byte_range, 5);
    assert(byte_range(4) == 0x1_0000_0000);
    assert(byte_range(8) == 0x1_0000_0000 * byte_range(4));
    assert(byte_range(12) == 0x1_0000_0000 * byte_range(8));
    assert(byte_range(16) == 0x1_0000_0000 * byte_range(12));
}

/// Why a received datagram was discarded.
#[derive(Clone, Copy, Debug, PartialEq, Eq, Structural)]
pub enum ParseError {
    /// The declared payload length is smaller than the bytes that follow the header.
    MalformedDatagram,
    /// The datagram ends inside a header field, or before the declared payload does.
    TruncatedDatagram,
    /// One of the six two-byte markers does not hold its fixed value.
    BadMagic,
}

/// The contents of one datagram.
#[derive(Debug)]
pub struct Datagram {
    pub sequence_number: u32,
    pub timestamp_ms: u128,
    pub frame_size: u32,
    pub payload: Vec<u8>,
}

/// The mathematical contents of a [`Datagram`].
pub struct DatagramView {
    pub sequence_number: u32,
    pub timestamp_ms: u128,
    pub frame_size: u32,
    pub payload: Seq<u8>,
}

impl View for Datagram {
    type V = DatagramView;

    open spec fn view(&self) -> DatagramView {
        DatagramView {
            sequence_number: self.sequence_number,
            timestamp_ms: self.timestamp_ms,
            frame_size: self.frame_size,
            payload: self.payload@,
        }
    }
}

/// A number of `width` bytes between an opening pair of marker bytes and the
/// same pair reversed.
pub open spec fn tagged_field(first: u8, second: u8, value: nat, width: nat) -> Seq<u8> {
    seq![first, second] + be_bytes(value, width) + seq![second, first]
}

/// The sequence-number field: `CC DD`, four bytes, `DD CC`.
pub open spec fn sequence_field(sequence_number: u32) -> Seq<u8> {
    tagged_field(0xCC, 0xDD, sequence_number as nat, 4)
}

/// The timestamp field: `AA BB`, sixteen bytes, `BB AA`.
pub open spec fn timestamp_field(timestamp_ms: u128) -> Seq<u8> {
    tagged_field(0xAA, 0xBB, timestamp_ms as nat, 16)
}

/// The frame-length field: `EE FF`, four bytes, `FF EE`.
pub open spec fn frame_field(frame_size: u32) -> Seq<u8> {
    tagged_field(0xEE, 0xFF, frame_size as nat, 4)
}

/// The header of a datagram that carries `payload_len` payload bytes.
pub open spec fn header_bytes(
    payload_len: nat,
    sequence_number: u32,
    timestamp_ms: u128,
    frame_size: u32,
) -> Seq<u8> {
    be_bytes(payload_len, 4) + sequence_field(sequence_number) + timestamp_field(timestamp_ms)
        + frame_field(frame_size)
}

/// The bytes of a whole datagram.
pub open spec fn datagram_bytes(d: DatagramView) -> Seq<u8> {
    header_bytes(d.payload.len(), d.sequence_number, d.timestamp_ms, d.frame_size) + d.payload
}

/// Whether `bytes` holds, from `at` on, the marker pair `first second` and,
/// `width` bytes further, the pair reversed.
pub open spec fn markers_at(bytes: Seq<u8>, at: int, first: u8, second: u8, width: int) -> bool {
    &&& bytes[at] == first
    &&& bytes[at + 1] == second
    &&& bytes[at + 2 + width] == second
    &&& bytes[at + 3 + width] == first
}

/// What the parser makes of a received datagram.  The fields are read in wire
/// order and the first fault found decides: a field that the datagram is too
/// short to hold whole gives `TruncatedDatagram`, a field with a wrong marker
/// gives `BadMagic`.  After the header, more payload declared than received
/// gives `TruncatedDatagram`, less gives `MalformedDatagram`.
pub open spec fn parse_spec(bytes: Seq<u8>) -> Result<DatagramView, ParseError> {
    if bytes.len() < 12 {
        Err(ParseError::TruncatedDatagram)
    } else if !markers_at(bytes, 4, 0xCC, 0xDD, 4) {
        Err(ParseError::BadMagic)
    } else if bytes.len() < 32 {
        Err(ParseError::TruncatedDatagram)
    } else if !markers_at(bytes, 12, 0xAA, 0xBB, 16) {
        Err(ParseError::BadMagic)
    } else if bytes.len() < 40 {
        Err(ParseError::TruncatedDatagram)
    } else if !markers_at(bytes, 32, 0xEE, 0xFF, 4) {
        Err(ParseError::BadMagic)
    } else if be_value(bytes.subrange(0, 4)) > bytes.len() - 40 {
        Err(ParseError::TruncatedDatagram)
    } else if be_value(bytes.subrange(0, 4)) < bytes.len() - 40 {
        Err(ParseError::MalformedDatagram)
    } else {
        Ok(
            DatagramView {
                sequence_number: be_value(bytes.subrange(6, 10)) as u32,
                timestamp_ms: be_value(bytes.subrange(14, 30)) as u128,
                frame_size: be_value(bytes.subrange(34, 38)) as u32,
                payload: bytes.skip(40),
            },
        )
    }
}

/// Wraps byteorder's `BigEndian::read_u32`, which reads the first four bytes
/// of `buf` as a big-endian number and panics on a shorter slice.
#[verifier::external_body]
fn read_u32_be(buf: &[u8]) -> (value: u32)
    requires
        buf@.len() >= 4,
    ensures
        value as nat == be_value(buf@.subrange(0, 4)),
{
    BigEndian::read_u32(buf)
}

/// Wraps byteorder's `BigEndian::read_u128`, which reads the first sixteen
/// bytes of `buf` as a big-endian number and panics on a shorter slice.
#[verifier::external_body]
fn read_u128_be(buf: &[u8]) -> (value: u128)
    requires
        buf@.len() >= 16,
    ensures
        value as nat == be_value(buf@.subrange(0, 16)),
{
    BigEndian::read_u128(buf)
}

/// Wraps byteorder's `WriteBytesExt::write_u32` at `BigEndian` on a `Vec<u8>`,
/// which appends the four big-endian bytes of `value`; writing to a vector
/// does not fail.
#[verifier::external_body]
fn write_u32_be(out: &mut Vec<u8>, value: u32)
    ensures
        final(out)@ == old(out)@ + be_bytes(value as nat, 4),
{
    out.write_u32::<BigEndian>(value).unwrap()
}

/// Wraps byteorder's `WriteBytesExt::write_u128` at `BigEndian` on a
/// `Vec<u8>`, which appends the sixteen big-endian bytes of `value`; writing
/// to a vector does not fail.
#[verifier::external_body]
fn write_u128_be(out: &mut Vec<u8>, value: u128)
    ensures
        final(out)@ == old(out)@ + be_bytes(value as nat, 16),
{
    out.write_u128::<BigEndian>(value).unwrap()
}

/// The sequence-number field of a datagram.
pub fn sequencer(sequence_number: u32) -> (field: Vec<u8>)
    ensures
        field@ == sequence_field(sequence_number),
{
    let mut field: Vec<u8> = Vec::new();
    field.push(0xCC);
    field.push(0xDD);
    write_u32_be(&mut field, sequence_number);
    field.push(0xDD);
    field.push(0xCC);
    assert(field@ =~= sequence_field(sequence_number));
    field
}

/// The timestamp field of a datagram sent `timestamp_ms` milliseconds after the epoch.
pub fn timestamp_tag(timestamp_ms: u128) -> (field: Vec<u8>)
    ensures
        field@ == timestamp_field(timestamp_ms),
{
    let mut field: Vec<u8> = Vec::new();
    field.push(0xAA);
    field.push(0xBB);
    write_u128_be(&mut field, timestamp_ms);
    field.push(0xBB);
    field.push(0xAA);
    assert(field@ =~= timestamp_field(timestamp_ms));
    field
}

/// The frame-length field of a datagram whose frames hold `number` bytes each.
pub fn tagger(number: u32) -> (field: Vec<u8>)
    ensures
        field@ == frame_field(number),
{
    let mut field: Vec<u8> = Vec::new();
    field.push(0xEE);
    field.push(0xFF);
    write_u32_be(&mut field, number);
    field.push(0xFF);
    field.push(0xEE);
    assert(field@ =~= frame_field(number));
    field
}

/// Builds the datagram that carries `batch_buffer` as its payload.
pub fn create_packet(
    batch_buffer: &[u8],
    sequence_number: u32,
    timestamp_ms: u128,
    frame_length: u32,
) -> (packet: Vec<u8>)
    requires
        batch_buffer@.len() <= u32::MAX,
    ensures
        packet@ == datagram_bytes(
            DatagramView {
                sequence_number,
                timestamp_ms,
                frame_size: frame_length,
                payload: batch_buffer@,
            },
        ),
        packet@.len() == HEADER_SIZE + batch_buffer@.len(),
{
    let data_len: u32 = batch_buffer.len() as u32;
    let time_in_ms = timestamp_tag(timestamp_ms);
    let sequence_num = sequencer(sequence_number);
    let frame_size = tagger(frame_length);
    let mut packet: Vec<u8> = Vec::new();
    write_u32_be(&mut packet, data_len);
    packet.extend_from_slice(sequence_num.as_slice());
    packet.extend_from_slice(time_in_ms.as_slice());
    packet.extend_from_slice(frame_size.as_slice());
    packet.extend_from_slice(batch_buffer);
    proof {
        lemma_header_len(batch_buffer@.len() as nat, sequence_number, timestamp_ms, frame_length);
        assert(packet@ =~= datagram_bytes(
            DatagramView {
                sequence_number,
                timestamp_ms,
                frame_size: frame_length,
                payload: batch_buffer@,
            },
        ));
    }
    packet
}

/// A header is forty bytes long.
pub proof fn lemma_header_len(
    payload_len: nat,
    sequence_number: u32,
    timestamp_ms: u128,
    frame_size: u32,
)
    ensures
        header_bytes(payload_len, sequence_number, timestamp_ms, frame_size).len() == 40,
        sequence_field(sequence_number).len() == 8,
        timestamp_field(timestamp_ms).len() == 20,
        frame_field(frame_size).len() == 8,
{
    lemma_be_bytes_len(payload_len, 4);
    lemma_be_bytes_len(sequence_number as nat, 4);
    lemma_be_bytes_len(timestamp_ms as nat, 16);
    lemma_be_bytes_len(frame_size as nat, 4);
}

/// Whether `bytes` holds the two marker pairs of the field of `width` value
/// bytes that starts at `at`.
fn check_markers(bytes: &[u8], at: usize, first: u8, second: u8, width: usize) -> (ok: bool)
    requires
        at + width + 4 <= bytes@.len(),
    ensures
        ok == markers_at(bytes@, at as int, first, second, width as int),
{
    bytes[at] == first && bytes[at + 1] == second && bytes[at + 2 + width] == second && bytes[at
        + 3 + width] == first
}

/// Parses a received datagram.  Nothing but `bytes` decides the result: a
/// datagram is accepted exactly when it is long enough for its header, every
/// marker is right and the declared payload length is the number of bytes
/// after the header.
pub fn parse_datagram(bytes: &[u8]) -> (result: Result<Datagram, ParseError>)
    ensures
        match result {
            Ok(d) => parse_spec(bytes@) == Ok::<DatagramView, ParseError>(d@),
            Err(e) => parse_spec(bytes@) == Err::<DatagramView, ParseError>(e),
        },
{
    let amount: usize = bytes.len();
    if amount < LENGTH_FIELD_SIZE + SEQUENCE_FIELD_SIZE {
        return Err(ParseError::TruncatedDatagram);
    }
    let packet_len: u32 = read_u32_be(bytes);
    if !check_markers(bytes, 4, 0xCC, 0xDD, 4) {
        return Err(ParseError::BadMagic);
    }
    let sequence_number: u32 = read_u32_be(&bytes[6..10]);
    if amount < 32 {
        return Err(ParseError::TruncatedDatagram);
    }
    if !check_markers(bytes, 12, 0xAA, 0xBB, 16) {
        return Err(ParseError::BadMagic);
    }
    let timestamp_ms: u128 = read_u128_be(&bytes[14..30]);
    if amount < HEADER_SIZE {
        return Err(ParseError::TruncatedDatagram);
    }
    if !check_markers(bytes, 32, 0xEE, 0xFF, 4) {
        return Err(ParseError::BadMagic);
    }
    let frame_size: u32 = read_u32_be(&bytes[34..38]);
    let received: usize = amount - HEADER_SIZE;
    if packet_len as usize > received {
        return Err(ParseError::TruncatedDatagram);
    }
    if (packet_len as usize) < received {
        return Err(ParseError::MalformedDatagram);
    }
    let payload = vstd::slice::slice_to_vec(&bytes[HEADER_SIZE..amount]);
    proof {
        assert(bytes@.subrange(6, 10).subrange(0, 4) =~= bytes@.subrange(6, 10));
        assert(bytes@.subrange(14, 30).subrange(0, 16) =~= bytes@.subrange(14, 30));
        assert(bytes@.subrange(34, 38).subrange(0, 4) =~= bytes@.subrange(34, 38));
        assert(bytes@.subrange(40, amount as int) =~= bytes@.skip(40));
    }
    Ok(Datagram { sequence_number, timestamp_ms, frame_size, payload })
}

/// Parsing what was built gives back what it was built from: for every
/// sequence number, timestamp and frame length, and every payload whose
/// length fits the 32-bit length field.
pub proof fn lemma_parse_inverts_build(d: DatagramView)
    requires
        d.payload.len() <= u32::MAX,
    ensures
        parse_spec(datagram_bytes(d)) == Ok::<DatagramView, ParseError>(d),
{
    let bytes = datagram_bytes(d);
    let len_bytes = be_bytes(d.payload.len(), 4);
    let seq_bytes = be_bytes(d.sequence_number as nat, 4);
    let ts_bytes = be_bytes(d.timestamp_ms as nat, 16);
    let frame_bytes = be_bytes(d.frame_size as nat, 4);
    lemma_header_len(d.payload.len(), d.sequence_number, d.timestamp_ms, d.frame_size);
    lemma_be_bytes_len(d.payload.len(), 4);
    lemma_be_bytes_len(d.sequence_number as nat, 4);
    lemma_be_bytes_len(d.timestamp_ms as nat, 16);
    lemma_be_bytes_len(d.frame_size as nat, 4);
    lemma_byte_ranges();
    lemma_be_value_of_bytes(d.payload.len(), 4);
    lemma_be_value_of_bytes(d.sequence_number as nat, 4);
    lemma_be_value_of_bytes(d.timestamp_ms as nat, 16);
    lemma_be_value_of_bytes(d.frame_size as nat, 4);
    assert(bytes.subrange(0, 4) =~= len_bytes);
    assert(bytes.subrange(6, 10) =~= seq_bytes);
    assert(bytes.subrange(14, 30) =~= ts_bytes);
    assert(bytes.subrange(34, 38) =~= frame_bytes);
    assert(bytes.skip(40) =~= d.payload);
}

/// Building from what was parsed gives back the bytes that were parsed: the
/// parser accepts no datagram that the builder could not have made.
pub proof fn lemma_build_inverts_parse(bytes: Seq<u8>)
    requires
        parse_spec(bytes) is Ok,
    ensures
        datagram_bytes(parse_spec(bytes)->Ok_0) == bytes,
{
    let d = parse_spec(bytes)->Ok_0;
    lemma_byte_ranges();
    lemma_be_value_bound(bytes.subrange(0, 4));
    lemma_be_value_bound(bytes.subrange(6, 10));
    lemma_be_value_bound(bytes.subrange(14, 30));
    lemma_be_value_bound(bytes.subrange(34, 38));
    lemma_be_bytes_of_value(bytes.subrange(0, 4));
    lemma_be_bytes_of_value(bytes.subrange(6, 10));
    lemma_be_bytes_of_value(bytes.subrange(14, 30));
    lemma_be_bytes_of_value(bytes.subrange(34, 38));
    lemma_header_len(d.payload.len(), d.sequence_number, d.timestamp_ms, d.frame_size);
    assert(datagram_bytes(d) =~= bytes);
}

/// Pads `data` with zero bytes up to `expected_len` when fewer bytes were received.
pub fn pad_data(data: Vec<u8>, expected_len: u32, received_len: usize) -> (padded: Vec<u8>)
    ensures
        padded@ == if received_len < expected_len {
            data@ + Seq::new((expected_len - received_len) as nat, |i: int| 0u8)
        } else {
            data@
        },
{
    let mut data = data;
    if received_len < expected_len as usize {
        let missing: usize = expected_len as usize - received_len;
        let ghost before = data@;
        let mut added: usize = 0;
        while added < missing
            invariant
                added <= missing,
                data@ == before + Seq::new(added as nat, |i: int| 0u8),
            decreases missing - added,
        {
            data.push(0);
            added += 1;
            assert(data@ =~= before + Seq::new(added as nat, |i: int| 0u8));
        }
        data
    } else {
        data
    }
}

} // verus!
