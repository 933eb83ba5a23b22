use embedded_perfmon_analyzer::perfetto::{is_perfetto_convertible, TYPE_SLICE_BEGIN, TYPE_SLICE_END};
use prost::encoding::{encode_key, encode_varint, int32, string, uint32, uint64, WireType};
use embedded_perfmon_analyzer::{
    serialize_trace, to_perfetto_trace, Data, Event, EventKind, GlobalEvent, NameField,
    OptionalTrustedPacketSequenceId, StaticOrDynamicName, TaskEvent, TaskEventKind, Trace,
    TracePacket, TrackDescriptor, TrackEvent,
};

fn task(timestamp: u64, task_id: u32, kind: TaskEventKind) -> Event {
    Event { timestamp, kind: EventKind::Task(TaskEvent { task_id, kind }) }
}

fn seq_id(p: &TracePacket) -> Option<u32> {
    match &p.optional_trusted_packet_sequence_id {
        Some(OptionalTrustedPacketSequenceId::TrustedPacketSequenceId(i)) => Some(*i),
        None => None,
    }
}

fn track_event(p: &TracePacket) -> &TrackEvent {
    match &p.data {
        Some(Data::TrackEvent(e)) => e,
        _ => panic!("not a track event"),
    }
}

fn name_of(e: &TrackEvent) -> Option<String> {
    match &e.name_field {
        Some(NameField::Name(n)) => Some(n.clone()),
        _ => None,
    }
}

#[test]
fn default_tickrate_scales_to_microseconds() {
    let trace = to_perfetto_trace(&[task(5, 1, TaskEventKind::TaskNew { executor_id: 0 })]);
    assert_eq!(trace.packet.len(), 1);
    let p = &trace.packet[0];
    assert_eq!(p.timestamp, Some(5000));
    assert_eq!(seq_id(p), Some(1));
    let e = track_event(p);
    assert_eq!(e.event_type, Some(TYPE_SLICE_BEGIN));
    assert_eq!(name_of(e), Some("spawned".to_string()));
    assert_eq!(e.track_uuid, Some(1));
}

#[test]
fn first_announced_tickrate_counts() {
    let events = vec![
        Event { timestamp: 0, kind: EventKind::Global(GlobalEvent::TickRate { rate: 1000 }) },
        Event { timestamp: 0, kind: EventKind::Global(GlobalEvent::TickRate { rate: 10 }) },
        task(3, 2, TaskEventKind::TaskEnd),
    ];
    let trace = to_perfetto_trace(&events);
    assert_eq!(trace.packet.len(), 1);
    assert_eq!(trace.packet[0].timestamp, Some(3_000_000));
    assert_eq!(track_event(&trace.packet[0]).event_type, Some(TYPE_SLICE_END));
}

#[test]
fn poll_start_ends_pending_and_begins_exec() {
    let trace = to_perfetto_trace(&[task(1, 9, TaskEventKind::TaskExecBegin)]);
    assert_eq!(trace.packet.len(), 2);
    assert_eq!(track_event(&trace.packet[0]).event_type, Some(TYPE_SLICE_END));
    assert_eq!(name_of(track_event(&trace.packet[0])), None);
    assert_eq!(track_event(&trace.packet[1]).event_type, Some(TYPE_SLICE_BEGIN));
    assert_eq!(name_of(track_event(&trace.packet[1])), Some("exec".to_string()));
}

#[test]
fn every_kind_of_task_event() {
    let events = vec![
        task(1, 3, TaskEventKind::TaskNew { executor_id: 0 }),
        task(2, 3, TaskEventKind::TaskNamed { name: "net".to_string() }),
        task(3, 3, TaskEventKind::TaskReadyBegin),
        task(4, 3, TaskEventKind::TaskExecBegin),
        task(5, 3, TaskEventKind::TaskExecEnd),
        task(6, 3, TaskEventKind::PrioritySet { priority: 1 }),
        task(7, 3, TaskEventKind::DeadlineSet { deadline: 1 }),
        task(8, 3, TaskEventKind::Marker { name: "m".to_string() }),
        task(9, 3, TaskEventKind::SpanStart { name: "s".to_string(), id: 1 }),
        task(10, 3, TaskEventKind::SpanEnd { id: 1 }),
        task(11, 3, TaskEventKind::TaskEnd),
    ];
    let trace = to_perfetto_trace(&events);
    assert_eq!(trace.packet.len(), 7);
    match &trace.packet[1].data {
        Some(Data::TrackDescriptor(d)) => {
            assert_eq!(d.uuid, Some(3));
            match &d.static_or_dynamic_name {
                Some(StaticOrDynamicName::Name(n)) => assert_eq!(n, "net"),
                _ => panic!("no name"),
            }
        }
        _ => panic!("not a descriptor"),
    }
    assert_eq!(name_of(track_event(&trace.packet[2])), Some("pending".to_string()));
    assert_eq!(trace.packet[6].timestamp, Some(11_000));
    for p in trace.packet.iter() {
        assert_eq!(seq_id(p), Some(3));
    }
}

#[test]
fn packets_of_a_concatenation_are_concatenated_packets() {
    let a = vec![task(1, 1, TaskEventKind::TaskNew { executor_id: 0 })];
    let b = vec![task(2, 1, TaskEventKind::TaskExecBegin), task(3, 1, TaskEventKind::TaskEnd)];
    let mut ab = a.clone();
    ab.extend(b.clone());
    let whole = serialize_trace(to_perfetto_trace(&ab));
    let mut parts = serialize_trace(to_perfetto_trace(&a));
    parts.extend(serialize_trace(to_perfetto_trace(&b)));
    assert_eq!(whole, parts);
}

fn slice_begin_trace() -> Trace {
    Trace {
        packet: vec![TracePacket {
            timestamp: Some(5000),
            optional_trusted_packet_sequence_id: Some(
                OptionalTrustedPacketSequenceId::TrustedPacketSequenceId(1),
            ),
            data: Some(Data::TrackEvent(TrackEvent {
                event_type: Some(TYPE_SLICE_BEGIN),
                name_field: Some(NameField::Name("spawned".to_string())),
                track_uuid: Some(1),
            })),
        }],
    }
}

#[test]
fn serialized_packet_bytes() {
    let bytes = serialize_trace(slice_begin_trace());
    let mut expected = vec![0x0A, 0x15, 0x5A, 0x0E, 0x48, 0x01, 0xBA, 0x01, 0x07];
    expected.extend_from_slice(b"spawned");
    expected.extend_from_slice(&[0x58, 0x01, 0x40, 0x88, 0x27, 0x50, 0x01]);
    assert_eq!(bytes, expected);
}

#[test]
fn serialized_fields_match_prost_field_encoders() {
    let mut event = Vec::new();
    int32::encode(9, &TYPE_SLICE_BEGIN, &mut event);
    string::encode(23, &"spawned".to_string(), &mut event);
    uint64::encode(11, &1u64, &mut event);
    let mut packet = Vec::new();
    encode_key(11, WireType::LengthDelimited, &mut packet);
    encode_varint(event.len() as u64, &mut packet);
    packet.extend_from_slice(&event);
    uint64::encode(8, &5000u64, &mut packet);
    uint32::encode(10, &1u32, &mut packet);
    let mut trace = Vec::new();
    encode_key(1, WireType::LengthDelimited, &mut trace);
    encode_varint(packet.len() as u64, &mut trace);
    trace.extend_from_slice(&packet);
    assert_eq!(serialize_trace(slice_begin_trace()), trace);
}

#[test]
fn negative_event_type_is_sign_extended() {
    let t = Trace {
        packet: vec![TracePacket {
            timestamp: None,
            optional_trusted_packet_sequence_id: None,
            data: Some(Data::TrackEvent(TrackEvent {
                event_type: Some(-1),
                name_field: None,
                track_uuid: None,
            })),
        }],
    };
    let mut event = Vec::new();
    int32::encode(9, &-1, &mut event);
    assert_eq!(event.len(), 11);
    let mut expected = vec![0x0A, (event.len() + 2) as u8, 0x5A, event.len() as u8];
    expected.extend_from_slice(&event);
    assert_eq!(serialize_trace(t), expected);
}

#[test]
fn descriptor_and_name_iid_bytes() {
    let t = Trace {
        packet: vec![
            TracePacket {
                timestamp: None,
                optional_trusted_packet_sequence_id: None,
                data: Some(Data::TrackDescriptor(TrackDescriptor {
                    uuid: Some(300),
                    static_or_dynamic_name: Some(StaticOrDynamicName::StaticName("é".to_string())),
                })),
            },
            TracePacket {
                timestamp: None,
                optional_trusted_packet_sequence_id: None,
                data: Some(Data::TrackEvent(TrackEvent {
                    event_type: None,
                    name_field: Some(NameField::NameIid(2)),
                    track_uuid: None,
                })),
            },
        ],
    };
    let bytes = serialize_trace(t);
    let expected = vec![
        0x0A, 0x0A, 0xE2, 0x03, 0x07, 0x08, 0xAC, 0x02, 0x52, 0x02, 0xC3, 0xA9, // descriptor
        0x0A, 0x04, 0x5A, 0x02, 0x50, 0x02, // name_iid
    ];
    assert_eq!(bytes, expected);
}

#[test]
fn empty_trace_is_empty() {
    assert!(serialize_trace(Trace { packet: vec![] }).is_empty());
}

#[test]
fn zero_tickrate_is_not_convertible() {
    let events = vec![
        Event { timestamp: 0, kind: EventKind::Global(GlobalEvent::TickRate { rate: 0 }) },
        task(1, 1, TaskEventKind::TaskEnd),
    ];
    assert!(!is_perfetto_convertible(&events));
}

#[test]
fn overflowing_timestamp_is_not_convertible() {
    assert!(!is_perfetto_convertible(&[task(u64::MAX, 1, TaskEventKind::TaskEnd)]));
    // Events that give no packet are not scaled.
    assert!(is_perfetto_convertible(&[task(u64::MAX, 1, TaskEventKind::PrioritySet { priority: 1 })]));
    assert!(is_perfetto_convertible(&[task(7, 1, TaskEventKind::TaskEnd)]));
}

#[test]
fn silent_events_leave_the_trace_as_it_is() {
    let loud = vec![
        task(1, 1, TaskEventKind::TaskNew { executor_id: 0 }),
        task(4, 1, TaskEventKind::TaskEnd),
    ];
    let noisy = vec![
        Event {
            timestamp: 0,
            kind: EventKind::Executor(embedded_perfmon_analyzer::ExecutorEvent {
                executor_id: 0,
                kind: embedded_perfmon_analyzer::ExecutorEventKind::ExecutorIdle,
            }),
        },
        task(1, 1, TaskEventKind::TaskNew { executor_id: 0 }),
        Event { timestamp: 2, kind: EventKind::Global(GlobalEvent::Marker { name: "m".to_string() }) },
        task(3, 1, TaskEventKind::PrioritySet { priority: 2 }),
        task(4, 1, TaskEventKind::TaskEnd),
    ];
    assert_eq!(
        serialize_trace(to_perfetto_trace(&loud)),
        serialize_trace(to_perfetto_trace(&noisy))
    );
}
