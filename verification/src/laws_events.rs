//! What one more event does to an analysis: to the state history of a task,
//! to the warnings, and to the Perfetto trace.

use vstd::prelude::*;
use crate::capture_model::{
    capture_of, event_warnings, executor_trace_step, finish, task_executor_step, last_timestamp, run, step, task_step, warnings_of,
};
use crate::entries::{has_key, key_index, lemma_same_keys, lemma_upsert, same_keys, value_or};
use crate::events::{Event, EventKind, ExecutorEvent, ExecutorEventKind, TaskEvent, TaskEventKind};
use crate::laws::lemma_run_keys_distinct;
use crate::perfetto::{
    emits_packets, event_packets, perfetto_convertible, trace_nanos_per_tick, trace_packets,
    trace_tickrate, DataModel, DynamicNameModel, NameFieldModel, TracePacketModel,
    TrackDescriptorModel, TrackEventModel, TYPE_SLICE_BEGIN, TYPE_SLICE_END,
};
use crate::types::{
    empty_task, CheckedEvent, ExecutorState, TaskAnomaly, TaskModel, TaskState, TaskWarning, TimedValue,
};

verus! {

/// The event of task `task_id` of the given kind at tick `ts`.
pub open spec fn task_event_at(ts: u64, task_id: u32, kind: TaskEventKind) -> Event {
    Event { timestamp: ts, kind: EventKind::Task(TaskEvent { task_id, kind }) }
}

/// What the analysis of `events` records for task `k` (empty timelines for a
/// task it has not seen).
pub open spec fn task_of(events: Seq<Event>, k: u32) -> TaskModel {
    value_or(capture_of(events).tasks, k, empty_task())
}

/// The state history that the analysis of `events` records for task `k`.
pub open spec fn task_states_of(events: Seq<Event>, k: u32) -> Seq<TimedValue<TaskState>> {
    task_of(events, k).states
}

/// Closing the open spans at the end leaves every timeline of a task but its
/// spans as it is.
proof fn lemma_task_of_run(events: Seq<Event>, k: u32)
    ensures
        ({
            let t = task_of(events, k);
            let r = value_or(run(events).capture.tasks, k, empty_task());
            &&& t.names == r.names
            &&& t.markers == r.markers
            &&& t.states == r.states
            &&& t.priorities == r.priorities
            &&& t.deadlines == r.deadlines
        }),
{
    lemma_run_keys_distinct(events);
    let a = run(events).capture.tasks;
    let b = finish(run(events), last_timestamp(events)).tasks;
    assert(same_keys(a, b));
    lemma_same_keys(a, b);
    if has_key(a, k) {
        let i = key_index(a, k);
        assert(b[i].1.states == a[i].1.states);
    }
}

proof fn lemma_task_states_of_run(events: Seq<Event>, k: u32)
    ensures
        task_states_of(events, k) == value_or(run(events).capture.tasks, k, empty_task()).states,
{
    lemma_task_of_run(events, k);
}

/// The stream with one more event is analysed by one more step.
proof fn lemma_run_push(events: Seq<Event>, e: Event)
    ensures
        run(events.push(e)) == step(run(events), e),
        last_timestamp(events.push(e)) == e.timestamp,
{
    assert(events.push(e).drop_last() =~= events);
}

/// What one event of task `k` does to the task's state history: a spawn, an
/// end, and the start and end of a poll append `Spawned`, `End`, `Running`
/// and `Idle` at the event's tick. Readiness appends `RunningWaiting` when the
/// last state is `Running`, `Waiting` when it is `Idle` or `Spawned`, and
/// nothing otherwise. Every other event of the task leaves the history as it is.
pub proof fn law_task_state_transitions(events: Seq<Event>, ts: u64, k: u32, kind: TaskEventKind)
    ensures
        ({
            let before = task_states_of(events, k);
            let after = task_states_of(events.push(task_event_at(ts, k, kind)), k);
            let last_running = before.len() > 0 && before.last().state == TaskState::Running;
            let last_idle_or_spawned = before.len() > 0 && (before.last().state == TaskState::Idle
                || before.last().state == TaskState::Spawned);
            &&& kind is TaskNew ==> after == before.push(
                TimedValue { timestamp: ts, state: TaskState::Spawned },
            )
            &&& kind is TaskEnd ==> after == before.push(
                TimedValue { timestamp: ts, state: TaskState::End },
            )
            &&& kind is TaskExecBegin ==> after == before.push(
                TimedValue { timestamp: ts, state: TaskState::Running },
            )
            &&& kind is TaskExecEnd ==> after == before.push(
                TimedValue { timestamp: ts, state: TaskState::Idle },
            )
            &&& (kind is TaskReadyBegin && last_running) ==> after == before.push(
                TimedValue { timestamp: ts, state: TaskState::RunningWaiting },
            )
            &&& (kind is TaskReadyBegin && last_idle_or_spawned) ==> after == before.push(
                TimedValue { timestamp: ts, state: TaskState::Waiting },
            )
            &&& (kind is TaskReadyBegin && !last_running && !last_idle_or_spawned) ==> after
                == before
            &&& !(kind is TaskNew || kind is TaskEnd || kind is TaskExecBegin || kind is TaskExecEnd
                || kind is TaskReadyBegin) ==> after == before
        }),
{
    let e = task_event_at(ts, k, kind);
    lemma_run_push(events, e);
    lemma_task_states_of_run(events, k);
    lemma_task_states_of_run(events.push(e), k);
    lemma_run_keys_distinct(events);
    let st = run(events);
    let (task, inflight) = task_step(
        value_or(st.capture.tasks, k, empty_task()),
        value_or(st.inflight_task, k, Seq::empty()),
        kind,
        ts,
    );
    lemma_upsert(st.capture.tasks, k, task);
}

/// An event that is not of task `k` leaves the task's state history as it is.
pub proof fn law_other_events_keep_task_states(events: Seq<Event>, e: Event, k: u32)
    requires
        !(e.kind is Task && e.kind->Task_0.task_id == k),
    ensures
        task_states_of(events.push(e), k) == task_states_of(events, k),
{
    lemma_run_push(events, e);
    lemma_task_states_of_run(events, k);
    lemma_task_states_of_run(events.push(e), k);
    lemma_run_keys_distinct(events);
    let st = run(events);
    if let EventKind::Task(t) = e.kind {
        let (task, inflight) = task_step(
            value_or(st.capture.tasks, t.task_id, empty_task()),
            value_or(st.inflight_task, t.task_id, Seq::empty()),
            t.kind,
            e.timestamp,
        );
        lemma_upsert(st.capture.tasks, t.task_id, task);
    }
}

/// In the history `s`, every `RunningWaiting` directly follows a `Running`,
/// and every `Waiting` directly follows an `Idle` or a `Spawned`.
pub open spec fn readiness_follows_its_state(s: Seq<TimedValue<TaskState>>) -> bool {
    &&& s.len() > 0 ==> s[0].state != TaskState::RunningWaiting && s[0].state != TaskState::Waiting
    &&& forall|i: int, j: int|
        0 <= i && j == i + 1 && j < s.len() && #[trigger] s[j].state == TaskState::RunningWaiting
            ==> #[trigger] s[i].state == TaskState::Running
    &&& forall|i: int, j: int|
        0 <= i && j == i + 1 && j < s.len() && #[trigger] s[j].state == TaskState::Waiting
            ==> (#[trigger] s[i].state == TaskState::Idle || s[i].state == TaskState::Spawned)
}

/// A task is recorded as `RunningWaiting` only right after `Running`, and as
/// `Waiting` only right after `Idle` or `Spawned`.
pub proof fn law_readiness_follows_its_state(events: Seq<Event>, k: u32)
    ensures
        readiness_follows_its_state(task_states_of(events, k)),
    decreases events.len(),
{
    if events.len() == 0 {
        lemma_task_states_of_run(events, k);
    } else {
        let prefix = events.drop_last();
        let e = events.last();
        assert(prefix.push(e) =~= events);
        law_readiness_follows_its_state(prefix, k);
        let before = task_states_of(prefix, k);
        if e.kind is Task && e.kind->Task_0.task_id == k {
            let t = e.kind->Task_0;
            assert(e == task_event_at(e.timestamp, k, t.kind));
            law_task_state_transitions(prefix, e.timestamp, k, t.kind);
            let after = task_states_of(events, k);
            if after != before {
                assert(after =~= before.push(after.last()));
                assert(after.drop_last() =~= before);
            }
        } else {
            law_other_events_keep_task_states(prefix, e, k);
        }
        lemma_readiness_extend(before, task_states_of(events, k));
    }
}

proof fn lemma_readiness_extend(before: Seq<TimedValue<TaskState>>, after: Seq<TimedValue<TaskState>>)
    requires
        readiness_follows_its_state(before),
        after == before || (after.len() == before.len() + 1 && after.drop_last() == before && (
        after.last().state == TaskState::RunningWaiting ==> before.len() > 0
            && before.last().state == TaskState::Running) && (after.last().state
            == TaskState::Waiting ==> before.len() > 0 && (before.last().state == TaskState::Idle
            || before.last().state == TaskState::Spawned))),
    ensures
        readiness_follows_its_state(after),
{
    if after != before {
        assert forall|i: int, j: int|
            0 <= i && j == i + 1 && j < after.len() && #[trigger] after[j].state
                == TaskState::RunningWaiting implies #[trigger] after[i].state
                == TaskState::Running by {
            assert(after[i] == before[i]);
            if j < before.len() {
                assert(after[j] == before[j]);
            }
        }
        assert forall|i: int, j: int|
            0 <= i && j == i + 1 && j < after.len() && #[trigger] after[j].state
                == TaskState::Waiting implies (#[trigger] after[i].state == TaskState::Idle
                || after[i].state == TaskState::Spawned) by {
            assert(after[i] == before[i]);
            if j < before.len() {
                assert(after[j] == before[j]);
            }
        }
        if before.len() > 0 {
            assert(after[0] == before[0]);
        }
    }
}

/// The warnings that one event of task `k` adds, given the task's history so
/// far. Readiness is explained by a last state `Running`, `Idle` or `Spawned`,
/// a poll's start by `Waiting`, and a poll's end or the task's end by
/// `Running`; an unexplained event adds one warning, preceded by a
/// `NonExistingTask` one when the task has no history. Other task events add
/// no warning.
pub proof fn law_task_event_warnings(events: Seq<Event>, ts: u64, k: u32, kind: TaskEventKind)
    ensures
        ({
            let before = task_states_of(events, k);
            let old_warnings = warnings_of(events);
            let added = warnings_of(events.push(task_event_at(ts, k, kind)));
            let unknown = before.len() == 0;
            let last = before.last().state;
            let ready_unknown = TaskWarning {
                task_id: k,
                event: CheckedEvent::TaskReadyBegin,
                anomaly: TaskAnomaly::NonExistingTask,
            };
            let ready_unexplained = TaskWarning {
                task_id: k,
                event: CheckedEvent::TaskReadyBegin,
                anomaly: TaskAnomaly::NotRunningIdleOrSpawned,
            };
            let end_unknown = TaskWarning {
                task_id: k,
                event: CheckedEvent::TaskEnd,
                anomaly: TaskAnomaly::NonExistingTask,
            };
            let end_unexplained = TaskWarning {
                task_id: k,
                event: CheckedEvent::TaskEnd,
                anomaly: TaskAnomaly::NotRunning,
            };
            let begin_unknown = TaskWarning {
                task_id: k,
                event: CheckedEvent::TaskExecBegin,
                anomaly: TaskAnomaly::NonExistingTask,
            };
            let begin_unexplained = TaskWarning {
                task_id: k,
                event: CheckedEvent::TaskExecBegin,
                anomaly: TaskAnomaly::NotWaiting,
            };
            let exec_end_unknown = TaskWarning {
                task_id: k,
                event: CheckedEvent::TaskExecEnd,
                anomaly: TaskAnomaly::NonExistingTask,
            };
            let exec_end_unexplained = TaskWarning {
                task_id: k,
                event: CheckedEvent::TaskExecEnd,
                anomaly: TaskAnomaly::NotRunning,
            };
            let ready_explained = last == TaskState::Running || last == TaskState::Idle || last
                == TaskState::Spawned;
            &&& (kind is TaskReadyBegin && !unknown && ready_explained) ==> added == old_warnings
            &&& (kind is TaskReadyBegin && !unknown && !ready_explained) ==> added
                == old_warnings.push(ready_unexplained)
            &&& (kind is TaskReadyBegin && unknown) ==> added == old_warnings.push(
                ready_unknown,
            ).push(ready_unexplained)
            &&& (kind is TaskEnd && !unknown && last == TaskState::Running) ==> added
                == old_warnings
            &&& (kind is TaskEnd && !unknown && last != TaskState::Running) ==> added
                == old_warnings.push(end_unexplained)
            &&& (kind is TaskEnd && unknown) ==> added == old_warnings.push(end_unknown).push(
                end_unexplained,
            )
            &&& (kind is TaskExecBegin && !unknown && last == TaskState::Waiting) ==> added
                == old_warnings
            &&& (kind is TaskExecBegin && !unknown && last != TaskState::Waiting) ==> added
                == old_warnings.push(begin_unexplained)
            &&& (kind is TaskExecBegin && unknown) ==> added == old_warnings.push(
                begin_unknown,
            ).push(begin_unexplained)
            &&& (kind is TaskExecEnd && !unknown && last == TaskState::Running) ==> added
                == old_warnings
            &&& (kind is TaskExecEnd && !unknown && last != TaskState::Running) ==> added
                == old_warnings.push(exec_end_unexplained)
            &&& (kind is TaskExecEnd && unknown) ==> added == old_warnings.push(
                exec_end_unknown,
            ).push(exec_end_unexplained)
            &&& !(kind is TaskReadyBegin || kind is TaskEnd || kind is TaskExecBegin
                || kind is TaskExecEnd) ==> added == old_warnings
        }),
{
    let e = task_event_at(ts, k, kind);
    assert(events.push(e).drop_last() =~= events);
    lemma_task_states_of_run(events, k);
    let old_warnings = warnings_of(events);
    let added = warnings_of(events.push(e));
    let new = event_warnings(run(events), e);
    assert(added == old_warnings + new);
    if new.len() == 0 {
        assert(added =~= old_warnings);
    } else if new.len() == 1 {
        assert(added =~= old_warnings.push(new[0]));
    } else {
        assert(added =~= old_warnings.push(new[0]).push(new[1]));
    }
}

/// Events that are not task events add no warning.
pub proof fn law_non_task_events_add_no_warning(events: Seq<Event>, e: Event)
    requires
        !(e.kind is Task),
    ensures
        warnings_of(events.push(e)) == warnings_of(events),
{
    assert(events.push(e).drop_last() =~= events);
    assert(warnings_of(events.push(e)) =~= warnings_of(events));
}

/// The packets that one event of task `k` adds to the trace when a tick is
/// `nanos_per_tick` nanoseconds. All of them are stamped with the event's
/// tick in nanoseconds and lie on the task's own track: the packet sequence
/// and the track are both the task id. A spawn begins a "spawned" slice; the
/// end of the task ends the current slice; the start of a poll ends the
/// current slice and begins an "exec" slice; the end of a poll ends the
/// current slice; readiness begins a "pending" slice; a name describes the
/// track. Other task events add nothing.
pub proof fn law_task_event_packets(
    events: Seq<Event>,
    ts: u64,
    k: u32,
    kind: TaskEventKind,
    nanos_per_tick: u64,
)
    ensures
        ({
            let before = trace_packets(events, nanos_per_tick);
            let after = trace_packets(events.push(task_event_at(ts, k, kind)), nanos_per_tick);
            let at = Some((ts * nanos_per_tick) as u64);
            let slice_end_packet = TracePacketModel {
                timestamp: at,
                trusted_packet_sequence_id: Some(k),
                data: Some(
                    DataModel::TrackEvent(
                        TrackEventModel {
                            event_type: Some(TYPE_SLICE_END),
                            name_field: None,
                            track_uuid: Some(k as u64),
                        },
                    ),
                ),
            };
            let begin_spawned = TracePacketModel {
                timestamp: at,
                trusted_packet_sequence_id: Some(k),
                data: Some(
                    DataModel::TrackEvent(
                        TrackEventModel {
                            event_type: Some(TYPE_SLICE_BEGIN),
                            name_field: Some(NameFieldModel::Name(seq!['s', 'p', 'a', 'w', 'n', 'e', 'd'])),
                            track_uuid: Some(k as u64),
                        },
                    ),
                ),
            };
            let begin_exec = TracePacketModel {
                timestamp: at,
                trusted_packet_sequence_id: Some(k),
                data: Some(
                    DataModel::TrackEvent(
                        TrackEventModel {
                            event_type: Some(TYPE_SLICE_BEGIN),
                            name_field: Some(NameFieldModel::Name(seq!['e', 'x', 'e', 'c'])),
                            track_uuid: Some(k as u64),
                        },
                    ),
                ),
            };
            let begin_pending = TracePacketModel {
                timestamp: at,
                trusted_packet_sequence_id: Some(k),
                data: Some(
                    DataModel::TrackEvent(
                        TrackEventModel {
                            event_type: Some(TYPE_SLICE_BEGIN),
                            name_field: Some(NameFieldModel::Name(seq!['p', 'e', 'n', 'd', 'i', 'n', 'g'])),
                            track_uuid: Some(k as u64),
                        },
                    ),
                ),
            };
            &&& kind is TaskNew ==> after == before.push(begin_spawned)
            &&& kind is TaskEnd ==> after == before.push(slice_end_packet)
            &&& kind is TaskExecBegin ==> after == before.push(slice_end_packet).push(begin_exec)
            &&& kind is TaskExecEnd ==> after == before.push(slice_end_packet)
            &&& kind is TaskReadyBegin ==> after == before.push(begin_pending)
            &&& kind is TaskNamed ==> after == before.push(
                TracePacketModel {
                    timestamp: at,
                    trusted_packet_sequence_id: Some(k),
                    data: Some(
                        DataModel::TrackDescriptor(
                            TrackDescriptorModel {
                                uuid: Some(k as u64),
                                static_or_dynamic_name: Some(
                                    DynamicNameModel::Name(kind->TaskNamed_name@),
                                ),
                            },
                        ),
                    ),
                },
            )
            &&& !(kind is TaskNew || kind is TaskEnd || kind is TaskExecBegin || kind is TaskExecEnd
                || kind is TaskReadyBegin || kind is TaskNamed) ==> after == before
        }),
{
    let e = task_event_at(ts, k, kind);
    assert(events.push(e).drop_last() =~= events);
    let before = trace_packets(events, nanos_per_tick);
    let new = event_packets(e, nanos_per_tick);
    assert(trace_packets(events.push(e), nanos_per_tick) == before + new);
    reveal_strlit("spawned");
    reveal_strlit("exec");
    reveal_strlit("pending");
    assert("spawned"@ =~= seq!['s', 'p', 'a', 'w', 'n', 'e', 'd']);
    assert("exec"@ =~= seq!['e', 'x', 'e', 'c']);
    assert("pending"@ =~= seq!['p', 'e', 'n', 'd', 'i', 'n', 'g']);
    if new.len() == 0 {
        assert(before + new =~= before);
    } else if new.len() == 1 {
        assert(before + new =~= before.push(new[0]));
    } else {
        assert(before + new =~= before.push(new[0]).push(new[1]));
    }
}

/// Events that are not task events add no packet.
pub proof fn law_non_task_events_add_no_packet(events: Seq<Event>, e: Event, nanos_per_tick: u64)
    requires
        !(e.kind is Task),
    ensures
        trace_packets(events.push(e), nanos_per_tick) == trace_packets(events, nanos_per_tick),
{
    assert(events.push(e).drop_last() =~= events);
    assert(trace_packets(events.push(e), nanos_per_tick) =~= trace_packets(events, nanos_per_tick));
}

/// The packet has a timestamp and a packet sequence, and lies on the track of
/// that sequence's task: a track event names that track and either begins a
/// named slice or ends the current slice without a name; a track descriptor
/// describes that track.
pub open spec fn on_own_track(p: TracePacketModel) -> bool {
    &&& p.timestamp is Some
    &&& p.trusted_packet_sequence_id is Some
    &&& match p.data {
        Some(DataModel::TrackEvent(t)) => {
            &&& t.track_uuid == Some(p.trusted_packet_sequence_id->0 as u64)
            &&& (t.event_type == Some(TYPE_SLICE_BEGIN) && t.name_field is Some) || (t.event_type
                == Some(TYPE_SLICE_END) && t.name_field is None)
        },
        Some(DataModel::TrackDescriptor(d)) => d.uuid == Some(
            p.trusted_packet_sequence_id->0 as u64,
        ),
        None => false,
    }
}

/// Every packet of a trace, slice ends included, lies on the track of the
/// task that its packet sequence belongs to.
pub proof fn law_packets_on_own_tracks(events: Seq<Event>, nanos_per_tick: u64)
    ensures
        forall|i: int|
            0 <= i < trace_packets(events, nanos_per_tick).len() ==> on_own_track(
                #[trigger] trace_packets(events, nanos_per_tick)[i],
            ),
    decreases events.len(),
{
    if events.len() > 0 {
        let prefix = events.drop_last();
        law_packets_on_own_tracks(prefix, nanos_per_tick);
        let before = trace_packets(prefix, nanos_per_tick);
        let new = event_packets(events.last(), nanos_per_tick);
        let after = trace_packets(events, nanos_per_tick);
        assert(after == before + new);
        assert forall|i: int| 0 <= i < after.len() implies on_own_track(#[trigger] after[i]) by {
            if i < before.len() {
                assert(after[i] == before[i]);
            } else {
                assert(after[i] == new[i - before.len()]);
            }
        }
    }
}

/// Whether the event announces the stream's tick rate.
pub open spec fn announces_tickrate(e: Event) -> bool {
    e.kind is Global && e.kind->Global_0 is TickRate
}

/// The tick rate of a stream is the one that its first `TickRate` event
/// announces, whatever later ones say.
pub proof fn law_first_announced_tickrate(events: Seq<Event>, i: int)
    requires
        0 <= i < events.len(),
        announces_tickrate(events[i]),
        forall|j: int| 0 <= j < i ==> !announces_tickrate(#[trigger] events[j]),
    ensures
        trace_tickrate(events) == events[i].kind->Global_0->TickRate_rate,
    decreases i,
{
    if i > 0 {
        assert(!announces_tickrate(events[0]));
        let rest = events.drop_first();
        assert forall|j: int| 0 <= j < i - 1 implies !announces_tickrate(#[trigger] rest[j]) by {
            assert(rest[j] == events[j + 1]);
        }
        assert(rest[i - 1] == events[i]);
        law_first_announced_tickrate(rest, i - 1);
    }
}

/// A stream that announces no tick rate runs at 1_000_000 ticks per second.
pub proof fn law_default_tickrate(events: Seq<Event>)
    requires
        forall|j: int| 0 <= j < events.len() ==> !announces_tickrate(#[trigger] events[j]),
    ensures
        trace_tickrate(events) == 1_000_000,
    decreases events.len(),
{
    if events.len() > 0 {
        assert(!announces_tickrate(events[0]));
        let rest = events.drop_first();
        assert forall|j: int| 0 <= j < rest.len() implies !announces_tickrate(#[trigger] rest[j]) by {
            assert(rest[j] == events[j + 1]);
        }
        law_default_tickrate(rest);
    }
}

/// A stream can be converted exactly when its tick rate is not 0 and, for
/// every spawn, end, poll start, poll end, readiness and naming of a task,
/// the event's tick times the whole nanoseconds per tick (1_000_000_000
/// divided by the tick rate, rounded down) fits in 64 bits. Nothing else about
/// the tick rate matters: it need not divide a second evenly.
pub proof fn law_convertible_exactly_when(events: Seq<Event>)
    ensures
        perfetto_convertible(events) <==> (trace_tickrate(events) != 0 && forall|i: int|
            0 <= i < events.len() && #[trigger] events[i].kind is Task && !(
            events[i].kind->Task_0.kind is Marker || events[i].kind->Task_0.kind is SpanStart
                || events[i].kind->Task_0.kind is SpanEnd
                || events[i].kind->Task_0.kind is PrioritySet
                || events[i].kind->Task_0.kind is DeadlineSet) ==> events[i].timestamp * (
            1_000_000_000u64 / trace_tickrate(events)) <= u64::MAX),
{
}

/// Whatever its tick rate, as long as it is not 0, a stream whose ticks are
/// all at most 18_446_744_073 (the seconds that 64 bits of nanoseconds hold)
/// can be converted: a tick is never longer than a second.
pub proof fn law_small_ticks_convert(events: Seq<Event>)
    requires
        trace_tickrate(events) != 0,
        forall|i: int| 0 <= i < events.len() ==> #[trigger] events[i].timestamp <= 18_446_744_073,
    ensures
        perfetto_convertible(events),
{
    let rate = trace_tickrate(events);
    let npt = 1_000_000_000u64 / rate;
    assert(npt <= 1_000_000_000) by (nonlinear_arith)
        requires
            rate >= 1,
            npt == 1_000_000_000u64 / rate,
    ;
    assert forall|i: int| 0 <= i < events.len() && emits_packets(#[trigger] events[i]) implies events[i].timestamp
        * trace_nanos_per_tick(events) <= u64::MAX by {
        let t = events[i].timestamp;
        assert(t * npt <= 18_446_744_073 * 1_000_000_000) by (nonlinear_arith)
            requires
                t <= 18_446_744_073,
                npt <= 1_000_000_000,
        ;
    }
}

/// What one event of task `k` adds to the task's other timelines: a name,
/// a marker, a priority or a deadline is appended, stamped with the event's
/// tick, to its own timeline; every other timeline but the spans, and every
/// timeline for other kinds of events, stays as it is.
pub proof fn law_task_records(events: Seq<Event>, ts: u64, k: u32, kind: TaskEventKind)
    ensures
        ({
            let before = task_of(events, k);
            let after = task_of(events.push(task_event_at(ts, k, kind)), k);
            &&& after.names == if kind is TaskNamed {
                before.names.push((ts, kind->TaskNamed_name@))
            } else {
                before.names
            }
            &&& after.markers == if kind is Marker {
                before.markers.push((ts, kind->Marker_name@))
            } else {
                before.markers
            }
            &&& after.priorities == if kind is PrioritySet {
                before.priorities.push(TimedValue { timestamp: ts, state: kind->priority })
            } else {
                before.priorities
            }
            &&& after.deadlines == if kind is DeadlineSet {
                before.deadlines.push(TimedValue { timestamp: ts, state: kind->deadline })
            } else {
                before.deadlines
            }
        }),
{
    let e = task_event_at(ts, k, kind);
    lemma_run_push(events, e);
    lemma_task_of_run(events, k);
    lemma_task_of_run(events.push(e), k);
    lemma_run_keys_distinct(events);
    let st = run(events);
    let (task, inflight) = task_step(
        value_or(st.capture.tasks, k, empty_task()),
        value_or(st.inflight_task, k, Seq::empty()),
        kind,
        ts,
    );
    lemma_upsert(st.capture.tasks, k, task);
}

/// An event that is not of task `k` leaves the task's names, markers,
/// priorities and deadlines as they are.
pub proof fn law_other_events_keep_task_records(events: Seq<Event>, e: Event, k: u32)
    requires
        !(e.kind is Task && e.kind->Task_0.task_id == k),
    ensures
        task_of(events.push(e), k).names == task_of(events, k).names,
        task_of(events.push(e), k).markers == task_of(events, k).markers,
        task_of(events.push(e), k).priorities == task_of(events, k).priorities,
        task_of(events.push(e), k).deadlines == task_of(events, k).deadlines,
{
    lemma_run_push(events, e);
    lemma_task_of_run(events, k);
    lemma_task_of_run(events.push(e), k);
    lemma_run_keys_distinct(events);
    let st = run(events);
    if let EventKind::Task(t) = e.kind {
        let (task, inflight) = task_step(
            value_or(st.capture.tasks, t.task_id, empty_task()),
            value_or(st.inflight_task, t.task_id, Seq::empty()),
            t.kind,
            e.timestamp,
        );
        lemma_upsert(st.capture.tasks, t.task_id, task);
    }
}

/// The timeline that the analysis of `events` records for executor `x`
/// (empty for an executor it has not seen).
pub open spec fn executor_states_of(events: Seq<Event>, x: u32) -> Seq<
    TimedValue<ExecutorState>,
> {
    value_or(capture_of(events).executor_states, x, Seq::empty())
}

/// The executor that the first spawn of task `k` in `events` names, if any.
pub open spec fn spawn_executor(events: Seq<Event>, k: u32) -> Option<u32>
    decreases events.len(),
{
    if events.len() == 0 {
        None
    } else {
        match spawn_executor(events.drop_last(), k) {
            Some(x) => Some(x),
            None => match events.last().kind {
                EventKind::Task(t) => if t.task_id == k && t.kind is TaskNew {
                    Some(t.kind->executor_id)
                } else {
                    None
                },
                _ => None,
            },
        }
    }
}

proof fn lemma_run_executor_of(events: Seq<Event>, k: u32)
    ensures
        run(events).executor_of.contains_key(k) <==> spawn_executor(events, k) is Some,
        spawn_executor(events, k) matches Some(x) ==> run(events).executor_of[k] == x,
    decreases events.len(),
{
    if events.len() > 0 {
        lemma_run_executor_of(events.drop_last(), k);
    }
}

/// What an event of executor `x` does to its timeline: a timeline is opened
/// with `Idle` at the event's tick, then a poll start appends `Scheduling`
/// and an idle event appends `Idle`, both at the event's tick.
pub proof fn law_executor_event_transitions(
    events: Seq<Event>,
    ts: u64,
    x: u32,
    kind: ExecutorEventKind,
)
    ensures
        ({
            let before = executor_states_of(events, x);
            let after = executor_states_of(
                events.push(
                    Event {
                        timestamp: ts,
                        kind: EventKind::Executor(ExecutorEvent { executor_id: x, kind }),
                    },
                ),
                x,
            );
            let opened = if before.len() == 0 {
                seq![TimedValue { timestamp: ts, state: ExecutorState::Idle }]
            } else {
                before
            };
            &&& kind is ExecutorPollStart ==> after == opened.push(
                TimedValue { timestamp: ts, state: ExecutorState::Scheduling },
            )
            &&& kind is ExecutorIdle ==> after == opened.push(
                TimedValue { timestamp: ts, state: ExecutorState::Idle },
            )
        }),
{
    let e = Event {
        timestamp: ts,
        kind: EventKind::Executor(ExecutorEvent { executor_id: x, kind }),
    };
    lemma_run_push(events, e);
    lemma_run_keys_distinct(events);
    let es = run(events).capture.executor_states;
    lemma_upsert(
        es,
        x,
        executor_trace_step(value_or(es, x, Seq::empty()), kind, ts),
    );
}

/// What an event of task `k`, first spawned on executor `x`, does to the
/// executors' timelines: on `x` a timeline is opened with `Idle` at the
/// event's tick, then a poll start appends `Polling` of the task and a poll
/// end appends `Scheduling`, both at the event's tick; other events of the
/// task append nothing. Every other executor's timeline stays as it is.
pub proof fn law_task_event_on_executor(
    events: Seq<Event>,
    ts: u64,
    k: u32,
    kind: TaskEventKind,
    x: u32,
    y: u32,
)
    requires
        spawn_executor(events.push(task_event_at(ts, k, kind)), k) == Some(x),
    ensures
        ({
            let before = executor_states_of(events, x);
            let after = executor_states_of(events.push(task_event_at(ts, k, kind)), x);
            let opened = if before.len() == 0 {
                seq![TimedValue { timestamp: ts, state: ExecutorState::Idle }]
            } else {
                before
            };
            &&& kind is TaskExecBegin ==> after == opened.push(
                TimedValue { timestamp: ts, state: ExecutorState::Polling { task_id: k } },
            )
            &&& kind is TaskExecEnd ==> after == opened.push(
                TimedValue { timestamp: ts, state: ExecutorState::Scheduling },
            )
            &&& !(kind is TaskExecBegin || kind is TaskExecEnd) ==> after == opened
            &&& y != x ==> executor_states_of(events.push(task_event_at(ts, k, kind)), y)
                == executor_states_of(events, y)
        }),
{
    let e = task_event_at(ts, k, kind);
    lemma_run_push(events, e);
    lemma_run_executor_of(events.push(e), k);
    lemma_run_keys_distinct(events);
    let es = run(events).capture.executor_states;
    lemma_upsert(
        es,
        x,
        task_executor_step(value_or(es, x, Seq::empty()), k, kind, ts),
    );
}

/// An event of a task that has never been spawned leaves every executor's
/// timeline as it is.
pub proof fn law_unspawned_task_keeps_executors(events: Seq<Event>, e: Event, y: u32)
    requires
        e.kind is Task,
        spawn_executor(events.push(e), e.kind->Task_0.task_id) is None,
    ensures
        executor_states_of(events.push(e), y) == executor_states_of(events, y),
{
    lemma_run_push(events, e);
    lemma_run_executor_of(events.push(e), e.kind->Task_0.task_id);
}

} // verus!
