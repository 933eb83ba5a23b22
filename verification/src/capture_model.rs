//! What an analysis computes, stated as a fold of a transition function over
//! the events, followed by closing the spans that are still open.

use vstd::prelude::*;
use crate::entries::{has_key, key_index, remove_key, upsert, value_or};
use crate::events::{
    Event, EventKind, ExecutorEventKind, GlobalEvent, TaskEvent, TaskEventKind,
};
use crate::types::{
    empty_task, CheckedEvent, ExecutorState, SpanModel, TaskAnomaly, TaskModel, TaskState,
    TaskWarning, TimedValue,
};

verus! {

/// The view of a `Capture`: every map as its entries in order, every string as characters.
#[verifier::ext_equal]
pub struct CaptureModel {
    pub tickrate: u64,
    pub irq_states: Seq<(u16, Seq<TimedValue<bool>>)>,
    pub global_markers: Seq<(u64, Seq<char>)>,
    pub global_spans: Seq<SpanModel>,
    pub executor_states: Seq<(u32, Seq<TimedValue<ExecutorState>>)>,
    pub tasks: Seq<(u32, TaskModel)>,
}

/// The state of an analysis between two events.
#[verifier::ext_equal]
pub struct ParseModel {
    pub capture: CaptureModel,
    /// The executor that each task was spawned on (the first spawn counts).
    pub executor_of: Map<u32, u32>,
    /// Global spans that have started and not ended, by span id.
    pub inflight_global: Seq<(u32, SpanModel)>,
    /// Per task id, the task's spans that have started and not ended.
    pub inflight_task: Seq<(u32, Seq<(u32, SpanModel)>)>,
}

pub open spec fn empty_capture() -> CaptureModel {
    CaptureModel {
        tickrate: 0,
        irq_states: Seq::empty(),
        global_markers: Seq::empty(),
        global_spans: Seq::empty(),
        executor_states: Seq::empty(),
        tasks: Seq::empty(),
    }
}

pub open spec fn initial_parse() -> ParseModel {
    ParseModel {
        capture: empty_capture(),
        executor_of: Map::empty(),
        inflight_global: Seq::empty(),
        inflight_task: Seq::empty(),
    }
}

pub open spec fn timed<T>(timestamp: u64, state: T) -> TimedValue<T> {
    TimedValue { timestamp, state }
}

/// An executor's timeline always starts idle.
pub open spec fn started(
    trace: Seq<TimedValue<ExecutorState>>,
    ts: u64,
) -> Seq<TimedValue<ExecutorState>> {
    if trace.len() == 0 {
        seq![timed(ts, ExecutorState::Idle)]
    } else {
        trace
    }
}

/// An executor's timeline after one of its own events.
pub open spec fn executor_trace_step(
    trace: Seq<TimedValue<ExecutorState>>,
    kind: ExecutorEventKind,
    ts: u64,
) -> Seq<TimedValue<ExecutorState>> {
    match kind {
        ExecutorEventKind::ExecutorPollStart => started(trace, ts).push(
            timed(ts, ExecutorState::Scheduling),
        ),
        ExecutorEventKind::ExecutorIdle => started(trace, ts).push(timed(ts, ExecutorState::Idle)),
    }
}

/// An executor's timeline after an event of a task spawned on it.
pub open spec fn task_executor_step(
    trace: Seq<TimedValue<ExecutorState>>,
    task_id: u32,
    kind: TaskEventKind,
    ts: u64,
) -> Seq<TimedValue<ExecutorState>> {
    match kind {
        TaskEventKind::TaskExecBegin => started(trace, ts).push(
            timed(ts, ExecutorState::Polling { task_id }),
        ),
        TaskEventKind::TaskExecEnd => started(trace, ts).push(timed(ts, ExecutorState::Scheduling)),
        _ => started(trace, ts),
    }
}

/// A task's state timeline after one of its events. `TaskReadyBegin` is
/// recorded only after `Running` (as `RunningWaiting`) or after `Idle` or
/// `Spawned` (as `Waiting`).
pub open spec fn task_states_step(
    states: Seq<TimedValue<TaskState>>,
    kind: TaskEventKind,
    ts: u64,
) -> Seq<TimedValue<TaskState>> {
    match kind {
        TaskEventKind::TaskNew { .. } => states.push(timed(ts, TaskState::Spawned)),
        TaskEventKind::TaskEnd => states.push(timed(ts, TaskState::End)),
        TaskEventKind::TaskExecBegin => states.push(timed(ts, TaskState::Running)),
        TaskEventKind::TaskExecEnd => states.push(timed(ts, TaskState::Idle)),
        TaskEventKind::TaskReadyBegin => if states.len() > 0 && states.last().state
            == TaskState::Running {
            states.push(timed(ts, TaskState::RunningWaiting))
        } else if states.len() > 0 && (states.last().state == TaskState::Idle
            || states.last().state == TaskState::Spawned) {
            states.push(timed(ts, TaskState::Waiting))
        } else {
            states
        },
        _ => states,
    }
}

/// The span with the given end.
pub open spec fn ended(span: SpanModel, end: u64) -> SpanModel {
    SpanModel { name: span.name, start: span.start, end }
}

/// A task and its open spans after one of its events.
pub open spec fn task_step(
    task: TaskModel,
    inflight: Seq<(u32, SpanModel)>,
    kind: TaskEventKind,
    ts: u64,
) -> (TaskModel, Seq<(u32, SpanModel)>) {
    let task = TaskModel { states: task_states_step(task.states, kind, ts), ..task };
    match kind {
        TaskEventKind::TaskNamed { name } => (
            TaskModel { names: task.names.push((ts, name@)), ..task },
            inflight,
        ),
        TaskEventKind::Marker { name } => (
            TaskModel { markers: task.markers.push((ts, name@)), ..task },
            inflight,
        ),
        TaskEventKind::SpanStart { name, id } => (
            task,
            upsert(inflight, id, SpanModel { name: name@, start: ts, end: 0 }),
        ),
        TaskEventKind::SpanEnd { id } => if has_key(inflight, id) {
            (
                TaskModel {
                    spans: task.spans.push(ended(inflight[key_index(inflight, id)].1, ts)),
                    ..task
                },
                remove_key(inflight, id),
            )
        } else {
            (task, inflight)
        },
        TaskEventKind::PrioritySet { priority } => (
            TaskModel { priorities: task.priorities.push(timed(ts, priority)), ..task },
            inflight,
        ),
        TaskEventKind::DeadlineSet { deadline } => (
            TaskModel { deadlines: task.deadlines.push(timed(ts, deadline)), ..task },
            inflight,
        ),
        _ => (task, inflight),
    }
}

/// The analysis state after a global event.
pub open spec fn global_step(st: ParseModel, g: GlobalEvent, ts: u64) -> ParseModel {
    let c = st.capture;
    match g {
        GlobalEvent::TickRate { rate } => ParseModel {
            capture: CaptureModel { tickrate: rate, ..c },
            ..st
        },
        GlobalEvent::IrqStart { irq } => ParseModel {
            capture: CaptureModel {
                irq_states: upsert(
                    c.irq_states,
                    irq,
                    value_or(c.irq_states, irq, Seq::empty()).push(timed(ts, true)),
                ),
                ..c
            },
            ..st
        },
        GlobalEvent::IrqEnd { irq } => ParseModel {
            capture: CaptureModel {
                irq_states: upsert(
                    c.irq_states,
                    irq,
                    value_or(c.irq_states, irq, Seq::empty()).push(timed(ts, false)),
                ),
                ..c
            },
            ..st
        },
        GlobalEvent::Marker { name } => ParseModel {
            capture: CaptureModel { global_markers: c.global_markers.push((ts, name@)), ..c },
            ..st
        },
        GlobalEvent::SpanStart { name, id } => ParseModel {
            inflight_global: upsert(
                st.inflight_global,
                id,
                SpanModel { name: name@, start: ts, end: 0 },
            ),
            ..st
        },
        GlobalEvent::SpanEnd { id } => if has_key(st.inflight_global, id) {
            ParseModel {
                capture: CaptureModel {
                    global_spans: c.global_spans.push(
                        ended(st.inflight_global[key_index(st.inflight_global, id)].1, ts),
                    ),
                    ..c
                },
                inflight_global: remove_key(st.inflight_global, id),
                ..st
            }
        } else {
            st
        },
    }
}

/// The executor map after a task event: a task keeps the executor of its first spawn.
pub open spec fn executor_of_step(executor_of: Map<u32, u32>, e: TaskEvent) -> Map<u32, u32> {
    match e.kind {
        TaskEventKind::TaskNew { executor_id } => if executor_of.contains_key(e.task_id) {
            executor_of
        } else {
            executor_of.insert(e.task_id, executor_id)
        },
        _ => executor_of,
    }
}

/// The analysis state after a task event.
pub open spec fn task_event_step(st: ParseModel, e: TaskEvent, ts: u64) -> ParseModel {
    let c = st.capture;
    let executor_of = executor_of_step(st.executor_of, e);
    let executor_states = if executor_of.contains_key(e.task_id) {
        let x = executor_of[e.task_id];
        upsert(
            c.executor_states,
            x,
            task_executor_step(value_or(c.executor_states, x, Seq::empty()), e.task_id, e.kind, ts),
        )
    } else {
        c.executor_states
    };
    let (task, inflight) = task_step(
        value_or(c.tasks, e.task_id, empty_task()),
        value_or(st.inflight_task, e.task_id, Seq::empty()),
        e.kind,
        ts,
    );
    ParseModel {
        capture: CaptureModel {
            executor_states,
            tasks: upsert(c.tasks, e.task_id, task),
            ..c
        },
        executor_of,
        inflight_task: upsert(st.inflight_task, e.task_id, inflight),
        ..st
    }
}

/// The analysis state after one event.
pub open spec fn step(st: ParseModel, e: Event) -> ParseModel {
    match e.kind {
        EventKind::Global(g) => global_step(st, g, e.timestamp),
        EventKind::Executor(x) => ParseModel {
            capture: CaptureModel {
                executor_states: upsert(
                    st.capture.executor_states,
                    x.executor_id,
                    executor_trace_step(
                        value_or(st.capture.executor_states, x.executor_id, Seq::empty()),
                        x.kind,
                        e.timestamp,
                    ),
                ),
                ..st.capture
            },
            ..st
        },
        EventKind::Task(t) => task_event_step(st, t, e.timestamp),
    }
}

/// The analysis state after all the events, in order.
pub open spec fn run(events: Seq<Event>) -> ParseModel
    decreases events.len(),
{
    if events.len() == 0 {
        initial_parse()
    } else {
        step(run(events.drop_last()), events.last())
    }
}

/// The open spans, in order, ended at `end`.
pub open spec fn close_spans(open: Seq<(u32, SpanModel)>, end: u64) -> Seq<SpanModel> {
    Seq::new(open.len(), |i: int| ended(open[i].1, end))
}

/// The capture once every open span is ended at `end`: global spans after the
/// closed ones in the order they were opened, and likewise per task.
pub open spec fn finish(st: ParseModel, end: u64) -> CaptureModel {
    let c = st.capture;
    CaptureModel {
        global_spans: c.global_spans + close_spans(st.inflight_global, end),
        tasks: Seq::new(
            c.tasks.len(),
            |i: int|
                (
                    c.tasks[i].0,
                    TaskModel {
                        spans: c.tasks[i].1.spans + close_spans(
                            value_or(st.inflight_task, c.tasks[i].0, Seq::empty()),
                            end,
                        ),
                        ..c.tasks[i].1
                    },
                ),
        ),
        ..c
    }
}

/// The timestamp of the last event, or 0 when there is none.
pub open spec fn last_timestamp(events: Seq<Event>) -> u64 {
    if events.len() == 0 {
        0
    } else {
        events.last().timestamp
    }
}

/// The capture that the events produce.
pub open spec fn capture_of(events: Seq<Event>) -> CaptureModel {
    finish(run(events), last_timestamp(events))
}


/// Whether the last recorded state is `state`.
pub open spec fn last_is(states: Seq<TimedValue<TaskState>>, state: TaskState) -> bool {
    states.len() > 0 && states.last().state == state
}

pub open spec fn warn_if(cond: bool, task_id: u32, event: CheckedEvent, anomaly: TaskAnomaly) -> Seq<
    TaskWarning,
> {
    if cond {
        seq![TaskWarning { task_id, event, anomaly }]
    } else {
        Seq::empty()
    }
}

/// The warnings that a task event raises given the task's states so far: an
/// end, poll start, poll end or readiness of a task without recorded states,
/// an end or poll end of a task that is not running, a poll start of a task
/// that is not waiting, and a readiness of a task that is neither running,
/// idle nor spawned.
pub open spec fn state_warnings(
    states: Seq<TimedValue<TaskState>>,
    task_id: u32,
    kind: TaskEventKind,
) -> Seq<TaskWarning> {
    let unknown = states.len() == 0;
    match kind {
        TaskEventKind::TaskEnd => warn_if(
            unknown,
            task_id,
            CheckedEvent::TaskEnd,
            TaskAnomaly::NonExistingTask,
        ) + warn_if(
            !last_is(states, TaskState::Running),
            task_id,
            CheckedEvent::TaskEnd,
            TaskAnomaly::NotRunning,
        ),
        TaskEventKind::TaskExecBegin => warn_if(
            unknown,
            task_id,
            CheckedEvent::TaskExecBegin,
            TaskAnomaly::NonExistingTask,
        ) + warn_if(
            !last_is(states, TaskState::Waiting),
            task_id,
            CheckedEvent::TaskExecBegin,
            TaskAnomaly::NotWaiting,
        ),
        TaskEventKind::TaskExecEnd => warn_if(
            unknown,
            task_id,
            CheckedEvent::TaskExecEnd,
            TaskAnomaly::NonExistingTask,
        ) + warn_if(
            !last_is(states, TaskState::Running),
            task_id,
            CheckedEvent::TaskExecEnd,
            TaskAnomaly::NotRunning,
        ),
        TaskEventKind::TaskReadyBegin => warn_if(
            unknown,
            task_id,
            CheckedEvent::TaskReadyBegin,
            TaskAnomaly::NonExistingTask,
        ) + warn_if(
            !(last_is(states, TaskState::Running) || last_is(states, TaskState::Idle) || last_is(
                states,
                TaskState::Spawned,
            )),
            task_id,
            CheckedEvent::TaskReadyBegin,
            TaskAnomaly::NotRunningIdleOrSpawned,
        ),
        _ => Seq::empty(),
    }
}

/// The warnings that an event raises in the given analysis state.
pub open spec fn event_warnings(st: ParseModel, e: Event) -> Seq<TaskWarning> {
    match e.kind {
        EventKind::Task(t) => state_warnings(
            value_or(st.capture.tasks, t.task_id, empty_task()).states,
            t.task_id,
            t.kind,
        ),
        _ => Seq::empty(),
    }
}

/// The warnings of all the events, in order.
pub open spec fn warnings_of(events: Seq<Event>) -> Seq<TaskWarning>
    decreases events.len(),
{
    if events.len() == 0 {
        Seq::empty()
    } else {
        warnings_of(events.drop_last()) + event_warnings(run(events.drop_last()), events.last())
    }
}

} // verus!
