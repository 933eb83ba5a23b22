//! Protocol Buffers encoding of a Perfetto trace. Fields are written in the
//! order of their field numbers (a `oneof` at the place of its lowest number),
//! absent optional fields are left out, and every varint is written by
//! `prost::encoding::encode_varint`.

use vstd::prelude::*;
use vstd::utf8::encode_utf8;
use crate::perfetto::{
    Data, DataModel, DynamicNameModel, NameField, NameFieldModel, OptionalTrustedPacketSequenceId,
    StaticOrDynamicName, Trace, TracePacket, TracePacketModel, TrackDescriptor,
    TrackDescriptorModel, TrackEvent, TrackEventModel,
};

verus! {

/// The LEB128 encoding of `v`: seven bits per byte, least significant first,
/// the high bit set on every byte but the last.
pub open spec fn varint(v: u64) -> Seq<u8>
    decreases v,
{
    if v < 128 {
        seq![v as u8]
    } else {
        seq![(v % 128 + 128) as u8] + varint(v / 128)
    }
}

/// `prost::encoding::encode_varint`: appends the LEB128 encoding of `value`
/// to `buf` (its source writes `value & 0x7F | 0x80` and shifts by seven
/// until fewer than eight bits are left, then writes the rest).
#[verifier::external_body]
fn encode_varint(value: u64, buf: &mut Vec<u8>)
    ensures
        final(buf)@ == old(buf)@ + varint(value),
{
    prost::encoding::encode_varint(value, buf)
}

/// The key of field `tag` with the given wire type.
pub open spec fn field_key(tag: u32, wire_type: u32) -> Seq<u8> {
    varint((tag * 8 + wire_type) as u64)
}

/// A `uint64` or `uint32` field.
pub open spec fn uint_field(tag: u32, v: u64) -> Seq<u8> {
    field_key(tag, 0) + varint(v)
}

/// An `int32` (or enum) field: negative values are sign-extended to 64 bits.
pub open spec fn int32_field(tag: u32, v: i32) -> Seq<u8> {
    field_key(tag, 0) + varint(
        if v >= 0 {
            v as u64
        } else {
            (v + 0x1_0000_0000_0000_0000) as u64
        },
    )
}

/// A length-delimited field.
pub open spec fn len_field(tag: u32, payload: Seq<u8>) -> Seq<u8> {
    field_key(tag, 2) + varint(payload.len() as u64) + payload
}

/// A `string` field: its UTF-8 bytes, length-delimited.
pub open spec fn string_field(tag: u32, s: Seq<char>) -> Seq<u8> {
    len_field(tag, encode_utf8(s))
}

pub open spec fn opt_uint_field(tag: u32, v: Option<u64>) -> Seq<u8> {
    match v {
        Some(x) => uint_field(tag, x),
        None => Seq::empty(),
    }
}

/// A `TrackEvent`: `type` (9), then the name (`name_iid` 10 or `name` 23),
/// then `track_uuid` (11).
pub open spec fn track_event_bytes(e: TrackEventModel) -> Seq<u8> {
    (match e.event_type {
        Some(t) => int32_field(9, t),
        None => Seq::empty(),
    }) + (match e.name_field {
        Some(NameFieldModel::NameIid(i)) => uint_field(10, i),
        Some(NameFieldModel::Name(s)) => string_field(23, s),
        None => Seq::empty(),
    }) + opt_uint_field(11, e.track_uuid)
}

/// A `TrackDescriptor`: `uuid` (1), then the name (`name` 2 or `static_name` 10).
pub open spec fn track_descriptor_bytes(d: TrackDescriptorModel) -> Seq<u8> {
    opt_uint_field(1, d.uuid) + match d.static_or_dynamic_name {
        Some(DynamicNameModel::Name(s)) => string_field(2, s),
        Some(DynamicNameModel::StaticName(s)) => string_field(10, s),
        None => Seq::empty(),
    }
}

/// A `TracePacket`: the payload (`track_event` 11 or `track_descriptor` 60),
/// then `timestamp` (8), then `trusted_packet_sequence_id` (10).
pub open spec fn packet_bytes(p: TracePacketModel) -> Seq<u8> {
    (match p.data {
        Some(DataModel::TrackEvent(e)) => len_field(11, track_event_bytes(e)),
        Some(DataModel::TrackDescriptor(d)) => len_field(60, track_descriptor_bytes(d)),
        None => Seq::empty(),
    }) + opt_uint_field(8, p.timestamp) + match p.trusted_packet_sequence_id {
        Some(i) => uint_field(10, i as u64),
        None => Seq::empty(),
    }
}

/// A `Trace`: every packet as field `packet` (1), in order.
pub open spec fn trace_bytes(packets: Seq<TracePacketModel>) -> Seq<u8>
    decreases packets.len(),
{
    if packets.len() == 0 {
        Seq::empty()
    } else {
        trace_bytes(packets.drop_last()) + len_field(1, packet_bytes(packets.last()))
    }
}

fn put_key(buf: &mut Vec<u8>, tag: u32, wire_type: u32)
    requires
        tag < 0x2000_0000,
        wire_type < 8,
    ensures
        final(buf)@ == old(buf)@ + field_key(tag, wire_type),
{
    encode_varint((tag as u64) * 8 + (wire_type as u64), buf);
}

fn put_uint(buf: &mut Vec<u8>, tag: u32, v: u64)
    requires
        tag < 0x2000_0000,
    ensures
        final(buf)@ == old(buf)@ + uint_field(tag, v),
{
    put_key(buf, tag, 0);
    encode_varint(v, buf);
    assert(buf@ =~= old(buf)@ + uint_field(tag, v));
}

fn put_opt_uint(buf: &mut Vec<u8>, tag: u32, v: Option<u64>)
    requires
        tag < 0x2000_0000,
    ensures
        final(buf)@ == old(buf)@ + opt_uint_field(tag, v),
{
    match v {
        Some(x) => put_uint(buf, tag, x),
        None => {
            assert(buf@ =~= old(buf)@ + opt_uint_field(tag, v));
        },
    }
}

fn put_int32(buf: &mut Vec<u8>, tag: u32, v: i32)
    requires
        tag < 0x2000_0000,
    ensures
        final(buf)@ == old(buf)@ + int32_field(tag, v),
{
    put_key(buf, tag, 0);
    let bits: u64 = if v >= 0 {
        v as u64
    } else {
        u64::MAX - ((-(v as i64) - 1) as u64)
    };
    encode_varint(bits, buf);
    assert(buf@ =~= old(buf)@ + int32_field(tag, v));
}

fn put_bytes(buf: &mut Vec<u8>, tag: u32, payload: &[u8])
    requires
        tag < 0x2000_0000,
    ensures
        final(buf)@ == old(buf)@ + len_field(tag, payload@),
{
    put_key(buf, tag, 2);
    encode_varint(payload.len() as u64, buf);
    let ghost start = buf@;
    let n = payload.len();
    let mut i: usize = 0;
    while i < n
        invariant
            i <= n,
            n == payload@.len(),
            buf@ == start + payload@.take(i as int),
        decreases n - i,
    {
        buf.push(payload[i]);
        assert(payload@.take(i + 1) =~= payload@.take(i as int).push(payload@[i as int]));
        i += 1;
    }
    assert(payload@.take(n as int) =~= payload@);
    assert(buf@ =~= old(buf)@ + len_field(tag, payload@));
}

fn put_string(buf: &mut Vec<u8>, tag: u32, s: &String)
    requires
        tag < 0x2000_0000,
    ensures
        final(buf)@ == old(buf)@ + string_field(tag, s@),
{
    put_bytes(buf, tag, s.as_str().as_bytes());
}

fn encode_track_event(e: &TrackEvent) -> (bytes: Vec<u8>)
    ensures
        bytes@ == track_event_bytes(e@),
{
    let mut buf: Vec<u8> = Vec::new();
    match e.event_type {
        Some(t) => put_int32(&mut buf, 9, t),
        None => {},
    }
    match &e.name_field {
        Some(NameField::NameIid(i)) => put_uint(&mut buf, 10, *i),
        Some(NameField::Name(s)) => put_string(&mut buf, 23, s),
        None => {},
    }
    put_opt_uint(&mut buf, 11, e.track_uuid);
    assert(buf@ =~= track_event_bytes(e@));
    buf
}

fn encode_track_descriptor(d: &TrackDescriptor) -> (bytes: Vec<u8>)
    ensures
        bytes@ == track_descriptor_bytes(d@),
{
    let mut buf: Vec<u8> = Vec::new();
    put_opt_uint(&mut buf, 1, d.uuid);
    match &d.static_or_dynamic_name {
        Some(StaticOrDynamicName::Name(s)) => put_string(&mut buf, 2, s),
        Some(StaticOrDynamicName::StaticName(s)) => put_string(&mut buf, 10, s),
        None => {},
    }
    assert(buf@ =~= track_descriptor_bytes(d@));
    buf
}

fn encode_packet(p: &TracePacket) -> (bytes: Vec<u8>)
    ensures
        bytes@ == packet_bytes(p@),
{
    let mut buf: Vec<u8> = Vec::new();
    match &p.data {
        Some(Data::TrackEvent(e)) => {
            let inner = encode_track_event(e);
            put_bytes(&mut buf, 11, inner.as_slice());
        },
        Some(Data::TrackDescriptor(d)) => {
            let inner = encode_track_descriptor(d);
            put_bytes(&mut buf, 60, inner.as_slice());
        },
        None => {},
    }
    put_opt_uint(&mut buf, 8, p.timestamp);
    match &p.optional_trusted_packet_sequence_id {
        Some(OptionalTrustedPacketSequenceId::TrustedPacketSequenceId(i)) => {
            put_uint(&mut buf, 10, *i as u64);
        },
        None => {},
    }
    assert(buf@ =~= packet_bytes(p@));
    buf
}

/// Encodes the trace in the Protocol Buffers wire format of Perfetto's `Trace`.
pub fn serialize_trace(trace: Trace) -> (bytes: Vec<u8>)
    ensures
        bytes@ == trace_bytes(trace@),
{
    let mut buf: Vec<u8> = Vec::new();
    let n = trace.packet.len();
    let mut i: usize = 0;
    while i < n
        invariant
            i <= n,
            n == trace.packet@.len(),
            buf@ == trace_bytes(trace@.take(i as int)),
        decreases n - i,
    {
        let inner = encode_packet(&trace.packet[i]);
        put_bytes(&mut buf, 1, inner.as_slice());
        assert(trace@.take(i + 1).drop_last() =~= trace@.take(i as int));
        assert(trace@.take(i + 1).last() == trace.packet@[i as int]@);
        i += 1;
    }
    assert(trace@.take(n as int) =~= trace@);
    buf
}

} // verus!
