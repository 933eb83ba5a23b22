//! Reading the Protocol Buffers bytes of a trace back: a field reader for the
//! wire format, and the decoding of the fields of each message.

use vstd::prelude::*;
use vstd::utf8::{decode_utf8, encode_utf8, encode_utf8_decode_utf8};
use crate::perfetto::{
    DataModel, DynamicNameModel, NameFieldModel, TracePacketModel, TrackDescriptorModel,
    TrackEventModel,
};
use crate::protobuf::{
    field_key, len_field, packet_bytes, trace_bytes, track_descriptor_bytes, track_event_bytes,
    varint,
};

verus! {

/// The value of a field on the wire.
pub enum WireValue {
    Varint(u64),
    Bytes(Seq<u8>),
}

/// A field on the wire: its number and its value.
pub struct WireField {
    pub tag: u32,
    pub value: WireValue,
}

/// The bytes of one field.
pub open spec fn field_encoding(f: WireField) -> Seq<u8> {
    match f.value {
        WireValue::Varint(v) => field_key(f.tag, 0) + varint(v),
        WireValue::Bytes(b) => len_field(f.tag, b),
    }
}

/// The bytes of the fields, one after another.
pub open spec fn fields_encoding(fs: Seq<WireField>) -> Seq<u8>
    decreases fs.len(),
{
    if fs.len() == 0 {
        Seq::empty()
    } else {
        field_encoding(fs[0]) + fields_encoding(fs.drop_first())
    }
}

/// The length of every length-delimited value fits in 64 bits.
pub open spec fn fields_fit(fs: Seq<WireField>) -> bool {
    forall|i: int|
        0 <= i < fs.len() ==> match (#[trigger] fs[i]).value {
            WireValue::Bytes(b) => b.len() <= u64::MAX,
            _ => true,
        }
}

/// Reads a varint from the front: its value and the number of bytes it took.
pub open spec fn parse_varint(b: Seq<u8>) -> Option<(int, int)>
    decreases b.len(),
{
    if b.len() == 0 {
        None
    } else if b[0] < 128 {
        Some((b[0] as int, 1))
    } else {
        match parse_varint(b.drop_first()) {
            Some((v, n)) => Some((b[0] - 128 + 128 * v, n + 1)),
            None => None,
        }
    }
}

/// Reads one field from the front: the field and the number of bytes it took.
pub open spec fn parse_field(b: Seq<u8>) -> Option<(WireField, int)> {
    match parse_varint(b) {
        Some((k, n)) => {
            let tag = k / 8;
            let rest = b.skip(n);
            if tag > u32::MAX {
                None
            } else if k % 8 == 0 {
                match parse_varint(rest) {
                    Some((v, m)) => if v <= u64::MAX {
                        Some((WireField { tag: tag as u32, value: WireValue::Varint(v as u64) }, n + m))
                    } else {
                        None
                    },
                    None => None,
                }
            } else if k % 8 == 2 {
                match parse_varint(rest) {
                    Some((len, m)) => if n + m + len <= b.len() {
                        Some(
                            (
                                WireField {
                                    tag: tag as u32,
                                    value: WireValue::Bytes(b.subrange(n + m, n + m + len)),
                                },
                                n + m + len,
                            ),
                        )
                    } else {
                        None
                    },
                    None => None,
                }
            } else {
                None
            }
        },
        None => None,
    }
}

/// Reads fields until the bytes end.
pub open spec fn parse_fields(b: Seq<u8>) -> Option<Seq<WireField>>
    decreases b.len(),
{
    if b.len() == 0 {
        Some(Seq::empty())
    } else {
        match parse_field(b) {
            Some((f, c)) => if 0 < c <= b.len() {
                match parse_fields(b.skip(c)) {
                    Some(fs) => Some(seq![f] + fs),
                    None => None,
                }
            } else {
                None
            },
            None => None,
        }
    }
}

pub proof fn lemma_varint_roundtrip(v: u64, rest: Seq<u8>)
    ensures
        parse_varint(varint(v) + rest) == Some((v as int, varint(v).len() as int)),
        varint(v).len() >= 1,
    decreases v,
{
    let b = varint(v) + rest;
    if v < 128 {
        assert(b[0] == v as u8);
    } else {
        lemma_varint_roundtrip(v / 128, rest);
        assert(b.drop_first() =~= varint(v / 128) + rest);
        assert(b[0] == (v % 128 + 128) as u8);
        assert(v == v % 128 + 128 * (v / 128)) by (nonlinear_arith);
    }
}

pub proof fn lemma_field_roundtrip(f: WireField, rest: Seq<u8>)
    requires
        match f.value {
            WireValue::Bytes(b) => b.len() <= u64::MAX,
            _ => true,
        },
    ensures
        parse_field(field_encoding(f) + rest) == Some((f, field_encoding(f).len() as int)),
{
    let b = field_encoding(f) + rest;
    match f.value {
        WireValue::Varint(v) => {
            let key = ((f.tag * 8 + 0) as u64);
            lemma_varint_roundtrip(key, varint(v) + rest);
            assert(b =~= varint(key) + (varint(v) + rest));
            let n = varint(key).len() as int;
            assert(b.skip(n) =~= varint(v) + rest);
            lemma_varint_roundtrip(v, rest);
        },
        WireValue::Bytes(p) => {
            let key = ((f.tag * 8 + 2) as u64);
            let lv = varint(p.len() as u64);
            lemma_varint_roundtrip(key, lv + p + rest);
            assert(b =~= varint(key) + (lv + p + rest));
            let n = varint(key).len() as int;
            assert(b.skip(n) =~= lv + (p + rest));
            lemma_varint_roundtrip(p.len() as u64, p + rest);
            let m = lv.len() as int;
            assert(b.subrange(n + m, n + m + p.len()) =~= p);
        },
    }
}

pub proof fn lemma_fields_roundtrip(fs: Seq<WireField>)
    requires
        fields_fit(fs),
    ensures
        parse_fields(fields_encoding(fs)) == Some(fs),
    decreases fs.len(),
{
    if fs.len() > 0 {
        let f = fs[0];
        let tail = fs.drop_first();
        assert(fields_fit(tail)) by {
            assert forall|i: int| 0 <= i < tail.len() implies match (#[trigger] tail[i]).value {
                WireValue::Bytes(b) => b.len() <= u64::MAX,
                _ => true,
            } by {
                assert(tail[i] == fs[i + 1]);
            }
        }
        assert(match f.value {
            WireValue::Bytes(b) => b.len() <= u64::MAX,
            _ => true,
        });
        lemma_fields_roundtrip(tail);
        lemma_field_roundtrip(f, fields_encoding(tail));
        let b = fields_encoding(fs);
        let c = field_encoding(f).len() as int;
        assert(field_encoding(f).len() > 0) by {
            match f.value {
                WireValue::Varint(v) => {
                    lemma_varint_roundtrip((f.tag * 8 + 0) as u64, Seq::empty());
                },
                WireValue::Bytes(p) => {
                    lemma_varint_roundtrip((f.tag * 8 + 2) as u64, Seq::empty());
                },
            }
        }
        assert(b.skip(c) =~= fields_encoding(tail));
        assert(seq![f] + tail =~= fs);
    }
}

pub proof fn lemma_fields_encoding_concat(a: Seq<WireField>, b: Seq<WireField>)
    ensures
        fields_encoding(a + b) == fields_encoding(a) + fields_encoding(b),
    decreases a.len(),
{
    if a.len() == 0 {
        assert(a + b =~= b);
        assert(fields_encoding(a) + fields_encoding(b) =~= fields_encoding(b));
    } else {
        lemma_fields_encoding_concat(a.drop_first(), b);
        assert((a + b).drop_first() =~= a.drop_first() + b);
        assert((a + b)[0] == a[0]);
        assert(fields_encoding(a + b) =~= fields_encoding(a) + fields_encoding(b));
    }
}

proof fn lemma_fields_encoding_one(f: WireField)
    ensures
        fields_encoding(seq![f]) == field_encoding(f),
{
    assert(seq![f].drop_first() =~= Seq::<WireField>::empty());
    assert(seq![f][0] == f);
    assert(fields_encoding(Seq::<WireField>::empty()) == Seq::<u8>::empty());
    assert(fields_encoding(seq![f]) =~= field_encoding(f) + Seq::<u8>::empty());
    assert(field_encoding(f) + Seq::<u8>::empty() =~= field_encoding(f));
}

/// A length-delimited value is no longer than the field list it is in.
proof fn lemma_fields_fit(fs: Seq<WireField>)
    ensures
        forall|i: int|
            0 <= i < fs.len() ==> match (#[trigger] fs[i]).value {
                WireValue::Bytes(b) => b.len() <= fields_encoding(fs).len(),
                _ => true,
            },
    decreases fs.len(),
{
    if fs.len() > 0 {
        lemma_fields_fit(fs.drop_first());
        assert forall|i: int| 0 <= i < fs.len() implies match (#[trigger] fs[i]).value {
            WireValue::Bytes(b) => b.len() <= fields_encoding(fs).len(),
            _ => true,
        } by {
            if i > 0 {
                assert(fs[i] == fs.drop_first()[i - 1]);
            }
        }
    }
}

/// A field list whose bytes fit in 64 bits of length has only values that fit.
pub proof fn lemma_fields_fit_bound(fs: Seq<WireField>)
    requires
        fields_encoding(fs).len() <= u64::MAX,
    ensures
        fields_fit(fs),
{
    lemma_fields_fit(fs);
}

// The fields of each message, in the order they are written.

pub open spec fn opt_field(f: Option<WireField>) -> Seq<WireField> {
    match f {
        Some(x) => seq![x],
        None => Seq::empty(),
    }
}

pub open spec fn varint_field(tag: u32, v: u64) -> WireField {
    WireField { tag, value: WireValue::Varint(v) }
}

pub open spec fn bytes_field(tag: u32, b: Seq<u8>) -> WireField {
    WireField { tag, value: WireValue::Bytes(b) }
}

/// An `int32` as written on the wire: sign-extended to 64 bits.
pub open spec fn int32_bits(v: i32) -> u64 {
    if v >= 0 {
        v as u64
    } else {
        (v + 0x1_0000_0000_0000_0000) as u64
    }
}

/// An `int32` read back from its 64 bits.
pub open spec fn int32_of_bits(v: u64) -> i32 {
    if v < 0x8000_0000_0000_0000 {
        v as i32
    } else {
        (v - 0x1_0000_0000_0000_0000) as i32
    }
}

pub open spec fn track_event_fields(e: TrackEventModel) -> Seq<WireField> {
    opt_field(
        match e.event_type {
            Some(t) => Some(varint_field(9, int32_bits(t))),
            None => None,
        },
    ) + opt_field(
        match e.name_field {
            Some(NameFieldModel::NameIid(i)) => Some(varint_field(10, i)),
            Some(NameFieldModel::Name(s)) => Some(bytes_field(23, encode_utf8(s))),
            None => None,
        },
    ) + opt_field(
        match e.track_uuid {
            Some(u) => Some(varint_field(11, u)),
            None => None,
        },
    )
}

pub open spec fn track_descriptor_fields(d: TrackDescriptorModel) -> Seq<WireField> {
    opt_field(
        match d.uuid {
            Some(u) => Some(varint_field(1, u)),
            None => None,
        },
    ) + opt_field(
        match d.static_or_dynamic_name {
            Some(DynamicNameModel::Name(s)) => Some(bytes_field(2, encode_utf8(s))),
            Some(DynamicNameModel::StaticName(s)) => Some(bytes_field(10, encode_utf8(s))),
            None => None,
        },
    )
}

pub open spec fn packet_fields(p: TracePacketModel) -> Seq<WireField> {
    opt_field(
        match p.data {
            Some(DataModel::TrackEvent(e)) => Some(bytes_field(11, track_event_bytes(e))),
            Some(DataModel::TrackDescriptor(d)) => Some(
                bytes_field(60, track_descriptor_bytes(d)),
            ),
            None => None,
        },
    ) + opt_field(
        match p.timestamp {
            Some(t) => Some(varint_field(8, t)),
            None => None,
        },
    ) + opt_field(
        match p.trusted_packet_sequence_id {
            Some(i) => Some(varint_field(10, i as u64)),
            None => None,
        },
    )
}

// Decoding the fields of each message; a later field overrides an earlier one.

pub open spec fn empty_track_event() -> TrackEventModel {
    TrackEventModel { event_type: None, name_field: None, track_uuid: None }
}

pub open spec fn decode_track_event(fs: Seq<WireField>) -> TrackEventModel
    decreases fs.len(),
{
    if fs.len() == 0 {
        empty_track_event()
    } else {
        let e = decode_track_event(fs.drop_last());
        let f = fs.last();
        match f.value {
            WireValue::Varint(v) => if f.tag == 9 {
                TrackEventModel { event_type: Some(int32_of_bits(v)), ..e }
            } else if f.tag == 10 {
                TrackEventModel { name_field: Some(NameFieldModel::NameIid(v)), ..e }
            } else if f.tag == 11 {
                TrackEventModel { track_uuid: Some(v), ..e }
            } else {
                e
            },
            WireValue::Bytes(b) => if f.tag == 23 {
                TrackEventModel { name_field: Some(NameFieldModel::Name(decode_utf8(b))), ..e }
            } else {
                e
            },
        }
    }
}

pub open spec fn decode_track_descriptor(fs: Seq<WireField>) -> TrackDescriptorModel
    decreases fs.len(),
{
    if fs.len() == 0 {
        TrackDescriptorModel { uuid: None, static_or_dynamic_name: None }
    } else {
        let d = decode_track_descriptor(fs.drop_last());
        let f = fs.last();
        match f.value {
            WireValue::Varint(v) => if f.tag == 1 {
                TrackDescriptorModel { uuid: Some(v), ..d }
            } else {
                d
            },
            WireValue::Bytes(b) => if f.tag == 2 {
                TrackDescriptorModel {
                    static_or_dynamic_name: Some(DynamicNameModel::Name(decode_utf8(b))),
                    ..d
                }
            } else if f.tag == 10 {
                TrackDescriptorModel {
                    static_or_dynamic_name: Some(DynamicNameModel::StaticName(decode_utf8(b))),
                    ..d
                }
            } else {
                d
            },
        }
    }
}

pub open spec fn decode_packet(fs: Seq<WireField>) -> TracePacketModel
    decreases fs.len(),
{
    if fs.len() == 0 {
        TracePacketModel { timestamp: None, trusted_packet_sequence_id: None, data: None }
    } else {
        let p = decode_packet(fs.drop_last());
        let f = fs.last();
        match f.value {
            WireValue::Varint(v) => if f.tag == 8 {
                TracePacketModel { timestamp: Some(v), ..p }
            } else if f.tag == 10 {
                TracePacketModel { trusted_packet_sequence_id: Some(v as u32), ..p }
            } else {
                p
            },
            WireValue::Bytes(b) => if f.tag == 11 {
                match parse_fields(b) {
                    Some(inner) => TracePacketModel {
                        data: Some(DataModel::TrackEvent(decode_track_event(inner))),
                        ..p
                    },
                    None => p,
                }
            } else if f.tag == 60 {
                match parse_fields(b) {
                    Some(inner) => TracePacketModel {
                        data: Some(DataModel::TrackDescriptor(decode_track_descriptor(inner))),
                        ..p
                    },
                    None => p,
                }
            } else {
                p
            },
        }
    }
}

/// The packets of a trace's fields: every `packet` field (1) in order.
pub open spec fn decode_packets(fs: Seq<WireField>) -> Seq<TracePacketModel>
    decreases fs.len(),
{
    if fs.len() == 0 {
        Seq::empty()
    } else {
        let ps = decode_packets(fs.drop_last());
        let f = fs.last();
        match f.value {
            WireValue::Bytes(b) => if f.tag == 1 {
                match parse_fields(b) {
                    Some(inner) => ps.push(decode_packet(inner)),
                    None => ps,
                }
            } else {
                ps
            },
            _ => ps,
        }
    }
}

/// Decodes the bytes of a trace into its packets; `None` where the bytes are
/// not a list of fields.
pub open spec fn decode_trace(b: Seq<u8>) -> Option<Seq<TracePacketModel>> {
    match parse_fields(b) {
        Some(fs) => Some(decode_packets(fs)),
        None => None,
    }
}


proof fn lemma_opt_encoding(f: Option<WireField>)
    ensures
        fields_encoding(opt_field(f)) == (match f {
            Some(x) => field_encoding(x),
            None => Seq::empty(),
        }),
{
    match f {
        Some(x) => lemma_fields_encoding_one(x),
        None => {},
    }
}

proof fn lemma_three_parts(a: Option<WireField>, b: Option<WireField>, c: Option<WireField>)
    ensures
        fields_encoding(opt_field(a) + opt_field(b) + opt_field(c)) == fields_encoding(opt_field(a))
            + fields_encoding(opt_field(b)) + fields_encoding(opt_field(c)),
{
    lemma_fields_encoding_concat(opt_field(a) + opt_field(b), opt_field(c));
    lemma_fields_encoding_concat(opt_field(a), opt_field(b));
    lemma_opt_encoding(a);
    lemma_opt_encoding(b);
    lemma_opt_encoding(c);
}

pub proof fn lemma_track_event_encoding(e: TrackEventModel)
    ensures
        track_event_bytes(e) == fields_encoding(track_event_fields(e)),
{
    let a = match e.event_type {
        Some(t) => Some(varint_field(9, int32_bits(t))),
        None => None,
    };
    let b = match e.name_field {
        Some(NameFieldModel::NameIid(i)) => Some(varint_field(10, i)),
        Some(NameFieldModel::Name(s)) => Some(bytes_field(23, encode_utf8(s))),
        None => None,
    };
    let c = match e.track_uuid {
        Some(u) => Some(varint_field(11, u)),
        None => None,
    };
    lemma_three_parts(a, b, c);
    lemma_opt_encoding(a);
    lemma_opt_encoding(b);
    lemma_opt_encoding(c);
    assert(track_event_bytes(e) =~= fields_encoding(track_event_fields(e)));
}

pub proof fn lemma_track_descriptor_encoding(d: TrackDescriptorModel)
    ensures
        track_descriptor_bytes(d) == fields_encoding(track_descriptor_fields(d)),
{
    let a = match d.uuid {
        Some(u) => Some(varint_field(1, u)),
        None => None,
    };
    let b = match d.static_or_dynamic_name {
        Some(DynamicNameModel::Name(s)) => Some(bytes_field(2, encode_utf8(s))),
        Some(DynamicNameModel::StaticName(s)) => Some(bytes_field(10, encode_utf8(s))),
        None => None,
    };
    lemma_fields_encoding_concat(opt_field(a), opt_field(b));
    lemma_opt_encoding(a);
    lemma_opt_encoding(b);
    assert(track_descriptor_bytes(d) =~= fields_encoding(track_descriptor_fields(d)));
}

pub proof fn lemma_packet_encoding(p: TracePacketModel)
    ensures
        packet_bytes(p) == fields_encoding(packet_fields(p)),
{
    let a = match p.data {
        Some(DataModel::TrackEvent(e)) => Some(bytes_field(11, track_event_bytes(e))),
        Some(DataModel::TrackDescriptor(d)) => Some(bytes_field(60, track_descriptor_bytes(d))),
        None => None,
    };
    let b = match p.timestamp {
        Some(t) => Some(varint_field(8, t)),
        None => None,
    };
    let c = match p.trusted_packet_sequence_id {
        Some(i) => Some(varint_field(10, i as u64)),
        None => None,
    };
    lemma_three_parts(a, b, c);
    lemma_opt_encoding(a);
    lemma_opt_encoding(b);
    lemma_opt_encoding(c);
    assert(packet_bytes(p) =~= fields_encoding(packet_fields(p)));
}

proof fn lemma_int32_bits(v: i32)
    ensures
        int32_of_bits(int32_bits(v)) == v,
{
}

pub proof fn lemma_decode_track_event(e: TrackEventModel)
    ensures
        decode_track_event(track_event_fields(e)) == e,
{
    reveal_with_fuel(decode_track_event, 4);
    broadcast use encode_utf8_decode_utf8;
    lemma_int32_bits(0);
    match e.event_type {
        Some(t) => lemma_int32_bits(t),
        None => {},
    }
    let fs = track_event_fields(e);
    let a = opt_field(
        match e.event_type {
            Some(t) => Some(varint_field(9, int32_bits(t))),
            None => None,
        },
    );
    let b = opt_field(
        match e.name_field {
            Some(NameFieldModel::NameIid(i)) => Some(varint_field(10, i)),
            Some(NameFieldModel::Name(s)) => Some(bytes_field(23, encode_utf8(s))),
            None => None,
        },
    );
    let c = opt_field(
        match e.track_uuid {
            Some(u) => Some(varint_field(11, u)),
            None => None,
        },
    );
    assert(fs == a + b + c);
    if c.len() > 0 {
        assert(fs.drop_last() =~= a + b);
    } else {
        assert(fs =~= a + b);
    }
    if b.len() > 0 {
        assert((a + b).drop_last() =~= a);
    } else {
        assert(a + b =~= a);
    }
    if a.len() > 0 {
        assert(a.drop_last() =~= Seq::<WireField>::empty());
    }
}

pub proof fn lemma_decode_track_descriptor(d: TrackDescriptorModel)
    ensures
        decode_track_descriptor(track_descriptor_fields(d)) == d,
{
    reveal_with_fuel(decode_track_descriptor, 3);
    broadcast use encode_utf8_decode_utf8;
    let fs = track_descriptor_fields(d);
    let a = opt_field(
        match d.uuid {
            Some(u) => Some(varint_field(1, u)),
            None => None,
        },
    );
    let b = opt_field(
        match d.static_or_dynamic_name {
            Some(DynamicNameModel::Name(s)) => Some(bytes_field(2, encode_utf8(s))),
            Some(DynamicNameModel::StaticName(s)) => Some(bytes_field(10, encode_utf8(s))),
            None => None,
        },
    );
    assert(fs == a + b);
    if b.len() > 0 {
        assert(fs.drop_last() =~= a);
    } else {
        assert(fs =~= a);
    }
    if a.len() > 0 {
        assert(a.drop_last() =~= Seq::<WireField>::empty());
    }
}

/// The payload of a packet reads back to the packet.
pub proof fn lemma_decode_packet(p: TracePacketModel)
    requires
        packet_bytes(p).len() <= u64::MAX,
    ensures
        parse_fields(packet_bytes(p)) == Some(packet_fields(p)),
        decode_packet(packet_fields(p)) == p,
{
    reveal_with_fuel(decode_packet, 4);
    lemma_packet_encoding(p);
    lemma_fields_fit_bound(packet_fields(p));
    lemma_fields_roundtrip(packet_fields(p));
    let fs = packet_fields(p);
    let a = opt_field(
        match p.data {
            Some(DataModel::TrackEvent(e)) => Some(bytes_field(11, track_event_bytes(e))),
            Some(DataModel::TrackDescriptor(d)) => Some(
                bytes_field(60, track_descriptor_bytes(d)),
            ),
            None => None,
        },
    );
    let b = opt_field(
        match p.timestamp {
            Some(t) => Some(varint_field(8, t)),
            None => None,
        },
    );
    let c = opt_field(
        match p.trusted_packet_sequence_id {
            Some(i) => Some(varint_field(10, i as u64)),
            None => None,
        },
    );
    assert(fs == a + b + c);
    match p.data {
        Some(DataModel::TrackEvent(e)) => {
            assert(fs[0] == bytes_field(11, track_event_bytes(e)));
            assert(track_event_bytes(e).len() <= u64::MAX);
            lemma_track_event_encoding(e);
            lemma_fields_fit_bound(track_event_fields(e));
            lemma_fields_roundtrip(track_event_fields(e));
            lemma_decode_track_event(e);
        },
        Some(DataModel::TrackDescriptor(d)) => {
            assert(fs[0] == bytes_field(60, track_descriptor_bytes(d)));
            assert(track_descriptor_bytes(d).len() <= u64::MAX);
            lemma_track_descriptor_encoding(d);
            lemma_fields_fit_bound(track_descriptor_fields(d));
            lemma_fields_roundtrip(track_descriptor_fields(d));
            lemma_decode_track_descriptor(d);
        },
        None => {},
    }
    if c.len() > 0 {
        assert(fs.drop_last() =~= a + b);
    } else {
        assert(fs =~= a + b);
    }
    if b.len() > 0 {
        assert((a + b).drop_last() =~= a);
    } else {
        assert(a + b =~= a);
    }
    if a.len() > 0 {
        assert(a.drop_last() =~= Seq::<WireField>::empty());
    }
}

/// The fields of a trace: every packet's bytes as field `packet` (1).
pub open spec fn trace_fields(packets: Seq<TracePacketModel>) -> Seq<WireField> {
    Seq::new(packets.len(), |i: int| bytes_field(1, packet_bytes(packets[i])))
}

proof fn lemma_trace_encoding(packets: Seq<TracePacketModel>)
    ensures
        trace_bytes(packets) == fields_encoding(trace_fields(packets)),
    decreases packets.len(),
{
    if packets.len() == 0 {
        assert(trace_fields(packets) =~= Seq::<WireField>::empty());
    } else {
        let d = packets.drop_last();
        lemma_trace_encoding(d);
        let f = bytes_field(1, packet_bytes(packets.last()));
        assert(trace_fields(packets) =~= trace_fields(d) + seq![f]);
        lemma_fields_encoding_concat(trace_fields(d), seq![f]);
        lemma_fields_encoding_one(f);
    }
}

proof fn lemma_decode_packets(packets: Seq<TracePacketModel>)
    requires
        fields_fit(trace_fields(packets)),
    ensures
        decode_packets(trace_fields(packets)) == packets,
    decreases packets.len(),
{
    if packets.len() == 0 {
        assert(trace_fields(packets) =~= Seq::<WireField>::empty());
        assert(packets =~= Seq::<TracePacketModel>::empty());
    } else {
        let d = packets.drop_last();
        let fs = trace_fields(packets);
        assert(fs.drop_last() =~= trace_fields(d));
        assert(fields_fit(trace_fields(d))) by {
            assert forall|i: int| 0 <= i < trace_fields(d).len() implies match (#[trigger] trace_fields(
                d,
            )[i]).value {
                WireValue::Bytes(b) => b.len() <= u64::MAX,
                _ => true,
            } by {
                assert(trace_fields(d)[i] == fs[i]);
            }
        }
        lemma_decode_packets(d);
        let last = fs[fs.len() - 1];
        assert(last == bytes_field(1, packet_bytes(packets.last())));
        assert(packet_bytes(packets.last()).len() <= u64::MAX);
        lemma_decode_packet(packets.last());
        assert(packets =~= d.push(packets.last()));
    }
}

/// The bytes of a trace read back to the trace: decoding what `serialize_trace`
/// writes gives the packets that were written, in order.
pub proof fn law_serialized_trace_decodes_back(packets: Seq<TracePacketModel>)
    requires
        trace_bytes(packets).len() <= u64::MAX,
    ensures
        decode_trace(trace_bytes(packets)) == Some(packets),
{
    lemma_trace_encoding(packets);
    lemma_fields_fit_bound(trace_fields(packets));
    lemma_fields_roundtrip(trace_fields(packets));
    lemma_decode_packets(packets);
}

} // verus!
