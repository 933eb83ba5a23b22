//! Turning the task events of a stream into a Perfetto trace: every task gets
//! a track, and its life cycle becomes slices on that track.

use vstd::prelude::*;
use crate::events::{Event, EventKind, GlobalEvent, TaskEventKind};

verus! {

/// `TrackEvent.Type.TYPE_SLICE_BEGIN` of the Perfetto trace format.
pub const TYPE_SLICE_BEGIN: i32 = 1;

/// `TrackEvent.Type.TYPE_SLICE_END` of the Perfetto trace format.
pub const TYPE_SLICE_END: i32 = 2;

/// The ticks per second assumed when the stream announces no tick rate.
pub const DEFAULT_TICKRATE: u64 = 1_000_000;

/// A Perfetto trace: a sequence of packets.
#[derive(Debug)]
pub struct Trace {
    pub packet: Vec<TracePacket>,
}

/// The fields of a Perfetto `TracePacket` that an analysis writes.
#[derive(Debug)]
pub struct TracePacket {
    pub timestamp: Option<u64>,
    pub optional_trusted_packet_sequence_id: Option<OptionalTrustedPacketSequenceId>,
    pub data: Option<Data>,
}

#[derive(Debug)]
pub enum OptionalTrustedPacketSequenceId {
    TrustedPacketSequenceId(u32),
}

/// The payload of a packet.
#[derive(Debug)]
pub enum Data {
    TrackEvent(TrackEvent),
    TrackDescriptor(TrackDescriptor),
}

/// The fields of a Perfetto `TrackEvent` that an analysis writes; `event_type`
/// is the proto field `type`.
#[derive(Debug)]
pub struct TrackEvent {
    pub event_type: Option<i32>,
    pub name_field: Option<NameField>,
    pub track_uuid: Option<u64>,
}

#[derive(Debug)]
pub enum NameField {
    NameIid(u64),
    Name(String),
}

/// The fields of a Perfetto `TrackDescriptor` that an analysis writes.
#[derive(Debug)]
pub struct TrackDescriptor {
    pub uuid: Option<u64>,
    pub static_or_dynamic_name: Option<StaticOrDynamicName>,
}

#[derive(Debug)]
pub enum StaticOrDynamicName {
    Name(String),
    StaticName(String),
}

// Views: every string as its characters.

pub enum NameFieldModel {
    NameIid(u64),
    Name(Seq<char>),
}

pub enum DynamicNameModel {
    Name(Seq<char>),
    StaticName(Seq<char>),
}

pub struct TrackEventModel {
    pub event_type: Option<i32>,
    pub name_field: Option<NameFieldModel>,
    pub track_uuid: Option<u64>,
}

pub struct TrackDescriptorModel {
    pub uuid: Option<u64>,
    pub static_or_dynamic_name: Option<DynamicNameModel>,
}

pub enum DataModel {
    TrackEvent(TrackEventModel),
    TrackDescriptor(TrackDescriptorModel),
}

pub struct TracePacketModel {
    pub timestamp: Option<u64>,
    pub trusted_packet_sequence_id: Option<u32>,
    pub data: Option<DataModel>,
}

impl View for NameField {
    type V = NameFieldModel;

    open spec fn view(&self) -> NameFieldModel {
        match self {
            NameField::NameIid(i) => NameFieldModel::NameIid(*i),
            NameField::Name(s) => NameFieldModel::Name(s@),
        }
    }
}

impl View for StaticOrDynamicName {
    type V = DynamicNameModel;

    open spec fn view(&self) -> DynamicNameModel {
        match self {
            StaticOrDynamicName::Name(s) => DynamicNameModel::Name(s@),
            StaticOrDynamicName::StaticName(s) => DynamicNameModel::StaticName(s@),
        }
    }
}

impl View for TrackEvent {
    type V = TrackEventModel;

    open spec fn view(&self) -> TrackEventModel {
        TrackEventModel {
            event_type: self.event_type,
            name_field: match self.name_field {
                Some(n) => Some(n@),
                None => None,
            },
            track_uuid: self.track_uuid,
        }
    }
}

impl View for TrackDescriptor {
    type V = TrackDescriptorModel;

    open spec fn view(&self) -> TrackDescriptorModel {
        TrackDescriptorModel {
            uuid: self.uuid,
            static_or_dynamic_name: match self.static_or_dynamic_name {
                Some(n) => Some(n@),
                None => None,
            },
        }
    }
}

impl View for Data {
    type V = DataModel;

    open spec fn view(&self) -> DataModel {
        match self {
            Data::TrackEvent(e) => DataModel::TrackEvent(e@),
            Data::TrackDescriptor(d) => DataModel::TrackDescriptor(d@),
        }
    }
}

impl View for TracePacket {
    type V = TracePacketModel;

    open spec fn view(&self) -> TracePacketModel {
        TracePacketModel {
            timestamp: self.timestamp,
            trusted_packet_sequence_id: match self.optional_trusted_packet_sequence_id {
                Some(OptionalTrustedPacketSequenceId::TrustedPacketSequenceId(i)) => Some(i),
                None => None,
            },
            data: match self.data {
                Some(d) => Some(d@),
                None => None,
            },
        }
    }
}

/// The packets of a trace, viewed.
pub open spec fn packets_view(s: Seq<TracePacket>) -> Seq<TracePacketModel> {
    Seq::new(s.len(), |i: int| s[i]@)
}

impl View for Trace {
    type V = Seq<TracePacketModel>;

    open spec fn view(&self) -> Seq<TracePacketModel> {
        packets_view(self.packet@)
    }
}

/// The tick rate that the first `TickRate` event announces, or the default.
pub open spec fn trace_tickrate(events: Seq<Event>) -> u64
    decreases events.len(),
{
    if events.len() == 0 {
        DEFAULT_TICKRATE
    } else {
        match events[0].kind {
            EventKind::Global(GlobalEvent::TickRate { rate }) => rate,
            _ => trace_tickrate(events.drop_first()),
        }
    }
}

/// Nanoseconds per tick (meaningful when the tick rate is not 0).
pub open spec fn trace_nanos_per_tick(events: Seq<Event>) -> u64 {
    1_000_000_000u64 / trace_tickrate(events)
}

/// Whether the event becomes packets of the trace.
pub open spec fn emits_packets(e: Event) -> bool {
    match e.kind {
        EventKind::Task(t) => match t.kind {
            TaskEventKind::TaskNew { .. } | TaskEventKind::TaskEnd | TaskEventKind::TaskExecBegin
            | TaskEventKind::TaskExecEnd | TaskEventKind::TaskReadyBegin
            | TaskEventKind::TaskNamed { .. } => true,
            _ => false,
        },
        _ => false,
    }
}

/// The conversion is defined: the tick rate is not 0, and every packet's
/// timestamp in nanoseconds fits in 64 bits.
pub open spec fn perfetto_convertible(events: Seq<Event>) -> bool {
    &&& trace_tickrate(events) != 0
    &&& forall|i: int|
        0 <= i < events.len() && emits_packets(#[trigger] events[i]) ==> events[i].timestamp
            * trace_nanos_per_tick(events) <= u64::MAX
}

/// A packet on the track of task `task_id`.
pub open spec fn task_packet(ts: u64, task_id: u32, data: DataModel) -> TracePacketModel {
    TracePacketModel {
        timestamp: Some(ts),
        trusted_packet_sequence_id: Some(task_id),
        data: Some(data),
    }
}

/// A slice beginning on the track of task `task_id`.
pub open spec fn slice_begin(ts: u64, task_id: u32, name: Seq<char>) -> TracePacketModel {
    task_packet(
        ts,
        task_id,
        DataModel::TrackEvent(
            TrackEventModel {
                event_type: Some(TYPE_SLICE_BEGIN),
                name_field: Some(NameFieldModel::Name(name)),
                track_uuid: Some(task_id as u64),
            },
        ),
    )
}

/// The end of the current slice on the track of task `task_id`.
pub open spec fn slice_end(ts: u64, task_id: u32) -> TracePacketModel {
    task_packet(
        ts,
        task_id,
        DataModel::TrackEvent(
            TrackEventModel {
                event_type: Some(TYPE_SLICE_END),
                name_field: None,
                track_uuid: Some(task_id as u64),
            },
        ),
    )
}

/// The packets that one event becomes: a spawn begins a "spawned" slice, the
/// start of a poll ends the current slice and begins an "exec" slice, a poll's
/// end or the task's end ends the current slice, readiness begins a "pending"
/// slice, and a name describes the task's track.
pub open spec fn event_packets(e: Event, nanos_per_tick: u64) -> Seq<TracePacketModel> {
    let ts = (e.timestamp * nanos_per_tick) as u64;
    match e.kind {
        EventKind::Task(t) => match t.kind {
            TaskEventKind::TaskNew { .. } => seq![slice_begin(ts, t.task_id, "spawned"@)],
            TaskEventKind::TaskEnd => seq![slice_end(ts, t.task_id)],
            TaskEventKind::TaskExecBegin => seq![
                slice_end(ts, t.task_id),
                slice_begin(ts, t.task_id, "exec"@),
            ],
            TaskEventKind::TaskExecEnd => seq![slice_end(ts, t.task_id)],
            TaskEventKind::TaskReadyBegin => seq![slice_begin(ts, t.task_id, "pending"@)],
            TaskEventKind::TaskNamed { name } => seq![
                task_packet(
                    ts,
                    t.task_id,
                    DataModel::TrackDescriptor(
                        TrackDescriptorModel {
                            uuid: Some(t.task_id as u64),
                            static_or_dynamic_name: Some(DynamicNameModel::Name(name@)),
                        },
                    ),
                ),
            ],
            _ => Seq::empty(),
        },
        _ => Seq::empty(),
    }
}

/// The packets of all the events, in order.
pub open spec fn trace_packets(events: Seq<Event>, nanos_per_tick: u64) -> Seq<TracePacketModel>
    decreases events.len(),
{
    if events.len() == 0 {
        Seq::empty()
    } else {
        trace_packets(events.drop_last(), nanos_per_tick) + event_packets(
            events.last(),
            nanos_per_tick,
        )
    }
}

/// The tick rate announced by the first `TickRate` event, or `DEFAULT_TICKRATE`.
pub fn find_tickrate(events: &[Event]) -> (rate: u64)
    ensures
        rate == trace_tickrate(events@),
{
    let n = events.len();
    let mut i: usize = 0;
    assert(events@.skip(0) =~= events@);
    while i < n
        invariant
            i <= n,
            n == events@.len(),
            trace_tickrate(events@) == trace_tickrate(events@.skip(i as int)),
        decreases n - i,
    {
        assert(events@.skip(i as int).drop_first() =~= events@.skip(i + 1));
        assert(events@.skip(i as int)[0] == events@[i as int]);
        if let EventKind::Global(GlobalEvent::TickRate { rate }) = &events[i].kind {
            return *rate;
        }
        i += 1;
    }
    assert(events@.skip(n as int).len() == 0);
    DEFAULT_TICKRATE
}

fn begin_packet(ts: u64, task_id: u32, name: &str) -> (p: TracePacket)
    ensures
        p@ == slice_begin(ts, task_id, name@),
{
    TracePacket {
        timestamp: Some(ts),
        optional_trusted_packet_sequence_id: Some(
            OptionalTrustedPacketSequenceId::TrustedPacketSequenceId(task_id),
        ),
        data: Some(
            Data::TrackEvent(
                TrackEvent {
                    event_type: Some(TYPE_SLICE_BEGIN),
                    name_field: Some(NameField::Name(name.to_owned())),
                    track_uuid: Some(task_id as u64),
                },
            ),
        ),
    }
}

fn end_packet(ts: u64, task_id: u32) -> (p: TracePacket)
    ensures
        p@ == slice_end(ts, task_id),
{
    TracePacket {
        timestamp: Some(ts),
        optional_trusted_packet_sequence_id: Some(
            OptionalTrustedPacketSequenceId::TrustedPacketSequenceId(task_id),
        ),
        data: Some(
            Data::TrackEvent(
                TrackEvent {
                    event_type: Some(TYPE_SLICE_END),
                    name_field: None,
                    track_uuid: Some(task_id as u64),
                },
            ),
        ),
    }
}

/// Converts the task events of the stream into Perfetto packets; timestamps
/// are scaled from ticks to nanoseconds with the stream's tick rate.
pub fn to_perfetto_trace(events: &[Event]) -> (trace: Trace)
    requires
        perfetto_convertible(events@),
    ensures
        trace@ == trace_packets(events@, trace_nanos_per_tick(events@)),
{
    let tickrate = find_tickrate(events);
    let nanos_per_tick = 1_000_000_000 / tickrate;
    let ghost npt = trace_nanos_per_tick(events@);
    assert(nanos_per_tick == npt);
    let mut packets: Vec<TracePacket> = Vec::new();
    let n = events.len();
    let mut i: usize = 0;
    while i < n
        invariant
            i <= n,
            n == events@.len(),
            nanos_per_tick == npt,
            perfetto_convertible(events@),
            npt == trace_nanos_per_tick(events@),
            packets_view(packets@) == trace_packets(events@.take(i as int), npt),
        decreases n - i,
    {
        let event = &events[i];
        let ghost before = packets@;
        assert(events@.take(i + 1).drop_last() =~= events@.take(i as int));
        assert(events@.take(i + 1).last() == events@[i as int]);
        match &event.kind {
            EventKind::Task(task_event) => {
                let task_id = task_event.task_id;
                match &task_event.kind {
                    TaskEventKind::TaskNew { .. } => {
                        assert(emits_packets(events@[i as int]));
                        let ts = event.timestamp * nanos_per_tick;
                        proof {
                            reveal_strlit("spawned");
                        }
                        packets.push(begin_packet(ts, task_id, "spawned"));
                    },
                    TaskEventKind::TaskEnd => {
                        assert(emits_packets(events@[i as int]));
                        let ts = event.timestamp * nanos_per_tick;
                        packets.push(end_packet(ts, task_id));
                    },
                    TaskEventKind::TaskExecBegin => {
                        assert(emits_packets(events@[i as int]));
                        let ts = event.timestamp * nanos_per_tick;
                        // Slice end of pending
                        packets.push(end_packet(ts, task_id));
                        proof {
                            reveal_strlit("exec");
                        }
                        packets.push(begin_packet(ts, task_id, "exec"));
                    },
                    TaskEventKind::TaskExecEnd => {
                        assert(emits_packets(events@[i as int]));
                        let ts = event.timestamp * nanos_per_tick;
                        packets.push(end_packet(ts, task_id));
                    },
                    TaskEventKind::TaskReadyBegin => {
                        assert(emits_packets(events@[i as int]));
                        let ts = event.timestamp * nanos_per_tick;
                        proof {
                            reveal_strlit("pending");
                        }
                        packets.push(begin_packet(ts, task_id, "pending"));
                    },
                    TaskEventKind::TaskNamed { name } => {
                        assert(emits_packets(events@[i as int]));
                        let ts = event.timestamp * nanos_per_tick;
                        packets.push(
                            TracePacket {
                                timestamp: Some(ts),
                                optional_trusted_packet_sequence_id: Some(
                                    OptionalTrustedPacketSequenceId::TrustedPacketSequenceId(
                                        task_id,
                                    ),
                                ),
                                data: Some(
                                    Data::TrackDescriptor(
                                        TrackDescriptor {
                                            static_or_dynamic_name: Some(
                                                StaticOrDynamicName::Name(name.clone()),
                                            ),
                                            uuid: Some(task_id as u64),
                                        },
                                    ),
                                ),
                            },
                        );
                    },
                    TaskEventKind::PrioritySet { .. } => {},
                    TaskEventKind::DeadlineSet { .. } => {},
                    TaskEventKind::Marker { .. } => {},
                    TaskEventKind::SpanStart { .. } => {},
                    TaskEventKind::SpanEnd { .. } => {},
                }
            },
            EventKind::Global(_global_event) => {},
            EventKind::Executor(_executor_event) => {},
        }
        assert(packets_view(packets@) =~= packets_view(before) + event_packets(
            events@[i as int],
            npt,
        ));
        i += 1;
    }
    assert(events@.take(n as int) =~= events@);
    Trace { packet: packets }
}


/// Whether the event becomes packets of the trace.
pub fn event_emits_packets(e: &Event) -> (r: bool)
    ensures
        r == emits_packets(*e),
{
    match &e.kind {
        EventKind::Task(t) => match &t.kind {
            TaskEventKind::TaskNew { .. } | TaskEventKind::TaskEnd | TaskEventKind::TaskExecBegin
            | TaskEventKind::TaskExecEnd | TaskEventKind::TaskReadyBegin
            | TaskEventKind::TaskNamed { .. } => true,
            _ => false,
        },
        _ => false,
    }
}

/// Whether `to_perfetto_trace` is defined on the events: the tick rate is not
/// 0 and no packet timestamp overflows 64 bits of nanoseconds.
pub fn is_perfetto_convertible(events: &[Event]) -> (ok: bool)
    ensures
        ok == perfetto_convertible(events@),
{
    let tickrate = find_tickrate(events);
    if tickrate == 0 {
        return false;
    }
    let nanos_per_tick = 1_000_000_000 / tickrate;
    let n = events.len();
    let mut i: usize = 0;
    while i < n
        invariant
            i <= n,
            n == events@.len(),
            trace_tickrate(events@) != 0,
            nanos_per_tick == trace_nanos_per_tick(events@),
            forall|j: int|
                0 <= j < i && emits_packets(#[trigger] events@[j]) ==> events@[j].timestamp
                    * nanos_per_tick <= u64::MAX,
        decreases n - i,
    {
        if event_emits_packets(&events[i]) && events[i].timestamp.checked_mul(nanos_per_tick).is_none() {
            return false;
        }
        i += 1;
    }
    true
}

} // verus!
