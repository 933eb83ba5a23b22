//! Analysis of performance-monitoring event streams recorded on embedded
//! async executors: the events are folded into a `Capture` (per-IRQ,
//! per-executor and per-task timelines) or turned into a Perfetto trace.

pub mod capture;
pub mod capture_model;
pub mod decode;
pub mod entries;
pub mod events;
pub mod index_map;
pub mod laws;
pub mod laws_events;
pub mod laws_spans;
pub mod laws_steps;
pub mod perfetto;
pub mod protobuf;
pub mod types;
pub mod wire;

pub use capture::Capture;
pub use decode::{decode_start, decode_step, DecodeAction, DecodeOutcome, TRUNCATION_WINDOW};
pub use events::{
    Event, EventKind, ExecutorEvent, ExecutorEventKind, GlobalEvent, TaskEvent, TaskEventKind,
};
pub use perfetto::{
    to_perfetto_trace, Data, NameField, OptionalTrustedPacketSequenceId, StaticOrDynamicName,
    Trace, TracePacket, TrackDescriptor, TrackEvent,
};
pub use protobuf::serialize_trace;
pub use types::{
    CheckedEvent, ExecutorState, Span, Task, TaskAnomaly, TaskState, TaskWarning, TimedValue,
};
