//! Properties of single steps of an analysis, and of the Perfetto conversion.

use vstd::prelude::*;
use crate::capture_model::{
    executor_trace_step, last_is, task_executor_step, task_states_step, task_step,
};
use crate::events::{Event, ExecutorEventKind, TaskEventKind};
use crate::laws::extends;
use crate::perfetto::{emits_packets, event_packets, trace_nanos_per_tick, trace_packets, trace_tickrate};
use crate::types::{ExecutorState, SpanModel, TaskModel, TaskState, TimedValue};

verus! {

/// The number of entries a task has recorded, over all its timelines.
pub open spec fn task_size(t: TaskModel) -> nat {
    t.names.len() + t.markers.len() + t.spans.len() + t.states.len() + t.priorities.len()
        + t.deadlines.len()
}

/// Every timeline of `b` continues the same timeline of `a`.
pub open spec fn task_extends(a: TaskModel, b: TaskModel) -> bool {
    &&& extends(a.names, b.names)
    &&& extends(a.markers, b.markers)
    &&& extends(a.spans, b.spans)
    &&& extends(a.states, b.states)
    &&& extends(a.priorities, b.priorities)
    &&& extends(a.deadlines, b.deadlines)
}

/// Whether a task event of this kind records a new state, given the states so far.
pub open spec fn records_state(states: Seq<TimedValue<TaskState>>, kind: TaskEventKind) -> bool {
    match kind {
        TaskEventKind::TaskNew { .. } | TaskEventKind::TaskEnd | TaskEventKind::TaskExecBegin
        | TaskEventKind::TaskExecEnd => true,
        TaskEventKind::TaskReadyBegin => last_is(states, TaskState::Running) || last_is(
            states,
            TaskState::Idle,
        ) || last_is(states, TaskState::Spawned),
        _ => false,
    }
}

proof fn lemma_extends_self<T>(a: Seq<T>)
    ensures
        extends(a, a),
{
    assert(a =~= a.take(a.len() as int));
}

proof fn lemma_extends_push<T>(a: Seq<T>, x: T)
    ensures
        extends(a, a.push(x)),
{
    assert(a =~= a.push(x).take(a.len() as int));
}

/// A task event keeps every timeline of the task as a prefix and adds at most
/// one entry over all of them; a state is added exactly for a spawn, an end,
/// the start or end of a poll, and a readiness after `Running`, `Idle` or
/// `Spawned`.
pub proof fn law_task_event_growth(
    task: TaskModel,
    inflight: Seq<(u32, SpanModel)>,
    kind: TaskEventKind,
    ts: u64,
)
    ensures
        task_extends(task, task_step(task, inflight, kind, ts).0),
        task_size(task_step(task, inflight, kind, ts).0) <= task_size(task) + 1,
        task_step(task, inflight, kind, ts).0.states.len() > task.states.len() <==> records_state(
            task.states,
            kind,
        ),
{
    lemma_extends_self(task.names);
    lemma_extends_self(task.markers);
    lemma_extends_self(task.spans);
    lemma_extends_self(task.states);
    lemma_extends_self(task.priorities);
    lemma_extends_self(task.deadlines);
    let s = task_states_step(task.states, kind, ts);
    if s.len() > task.states.len() {
        assert(s =~= task.states.push(s.last()));
        lemma_extends_push(task.states, s.last());
    }
    let r = task_step(task, inflight, kind, ts).0;
    match kind {
        TaskEventKind::TaskNamed { name } => {
            lemma_extends_push(task.names, (ts, name@));
        },
        TaskEventKind::Marker { name } => {
            lemma_extends_push(task.markers, (ts, name@));
        },
        TaskEventKind::SpanEnd { id } => {
            if r.spans.len() > task.spans.len() {
                assert(r.spans =~= task.spans.push(r.spans.last()));
                lemma_extends_push(task.spans, r.spans.last());
            }
        },
        TaskEventKind::PrioritySet { priority } => {
            lemma_extends_push(task.priorities, TimedValue { timestamp: ts, state: priority });
        },
        TaskEventKind::DeadlineSet { deadline } => {
            lemma_extends_push(task.deadlines, TimedValue { timestamp: ts, state: deadline });
        },
        _ => {},
    }
}

/// A task event keeps the timeline of the task's executor as a prefix and
/// adds at most two entries to it (the first `Idle`, and a poll state).
pub proof fn law_task_executor_growth(
    trace: Seq<TimedValue<ExecutorState>>,
    task_id: u32,
    kind: TaskEventKind,
    ts: u64,
)
    ensures
        extends(trace, task_executor_step(trace, task_id, kind, ts)),
        task_executor_step(trace, task_id, kind, ts).len() <= trace.len() + 2,
        task_executor_step(trace, task_id, kind, ts).len() > 0,
        trace.len() > 0 ==> task_executor_step(trace, task_id, kind, ts)[0] == trace[0],
{
    let v = task_executor_step(trace, task_id, kind, ts);
    assert(trace =~= v.take(trace.len() as int));
}

/// An executor event on a timeline that is empty or starts idle leaves a
/// timeline that starts idle, keeps the old one as a prefix, and adds two
/// entries to an empty timeline (the first `Idle` and the event's state) or
/// one to any other.
pub proof fn law_executor_event_growth(
    trace: Seq<TimedValue<ExecutorState>>,
    kind: ExecutorEventKind,
    ts: u64,
)
    requires
        trace.len() == 0 || trace[0].state == ExecutorState::Idle,
    ensures
        executor_trace_step(trace, kind, ts).len() > 0,
        executor_trace_step(trace, kind, ts)[0].state == ExecutorState::Idle,
        extends(trace, executor_trace_step(trace, kind, ts)),
        executor_trace_step(trace, kind, ts).len() == trace.len() + (if trace.len() == 0 {
            2int
        } else {
            1int
        }),
{
    let v = executor_trace_step(trace, kind, ts);
    assert(trace =~= v.take(trace.len() as int));
}

/// The events of the stream that become packets, in order.
pub open spec fn emitting_events(events: Seq<Event>) -> Seq<Event>
    decreases events.len(),
{
    if events.len() == 0 {
        Seq::empty()
    } else if emits_packets(events.last()) {
        emitting_events(events.drop_last()).push(events.last())
    } else {
        emitting_events(events.drop_last())
    }
}

/// The packets of a stream are those of its events that become packets.
pub proof fn lemma_packets_of_emitting(events: Seq<Event>, nanos_per_tick: u64)
    ensures
        trace_packets(events, nanos_per_tick) == trace_packets(
            emitting_events(events),
            nanos_per_tick,
        ),
    decreases events.len(),
{
    if events.len() > 0 {
        lemma_packets_of_emitting(events.drop_last(), nanos_per_tick);
        let e = events.last();
        if emits_packets(e) {
            let em = emitting_events(events.drop_last()).push(e);
            assert(em.drop_last() =~= emitting_events(events.drop_last()));
        } else {
            assert(event_packets(e, nanos_per_tick) =~= Seq::empty());
            assert(trace_packets(events, nanos_per_tick) =~= trace_packets(
                events.drop_last(),
                nanos_per_tick,
            ));
        }
    }
}

/// Events that become no packet do not change the trace: two streams with
/// the same tick rate and the same packet-making events, in the same order,
/// give the same packets. So dropping executor events, global events other
/// than the first `TickRate`, and task priorities, deadlines, markers and
/// spans leaves the trace as it is.
pub proof fn law_trace_ignores_silent_events(a: Seq<Event>, b: Seq<Event>)
    requires
        emitting_events(a) == emitting_events(b),
        trace_tickrate(a) == trace_tickrate(b),
    ensures
        trace_packets(a, trace_nanos_per_tick(a)) == trace_packets(b, trace_nanos_per_tick(b)),
{
    lemma_packets_of_emitting(a, trace_nanos_per_tick(a));
    lemma_packets_of_emitting(b, trace_nanos_per_tick(b));
}

} // verus!
