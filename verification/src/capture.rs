//! Folding a stream of events into per-IRQ, per-executor and per-task timelines.

use vstd::prelude::*;
use indexmap::IndexMap;
use std::collections::HashMap;
use crate::capture_model::{
    capture_of, event_warnings, state_warnings, warnings_of, close_spans, empty_capture, finish, initial_parse, run, step, ended, executor_of_step, executor_trace_step, global_step,
    task_event_step, task_executor_step, task_step, CaptureModel,
    ParseModel,
};
use crate::entries::{
    has_key, key_index, keys_distinct, lemma_key_index_unique, lemma_same_keys, lemma_upsert, lemma_upsert_upsert, lemma_view_entries,
    lemma_view_remove, lemma_view_upsert, same_keys, upsert, value_or, view_entries,
};
use crate::events::{
    Event, EventKind, ExecutorEvent, ExecutorEventKind, GlobalEvent, TaskEvent, TaskEventKind,
};
use crate::index_map::{
    executor_entries, executor_map_insert_full, executor_map_new, irq_entries,
    irq_map_insert_full, irq_map_new, span_entries, span_map_insert_full, span_map_into_values, span_map_new, span_map_shift_remove,
    task_entries, task_map_insert_full, task_map_new,
};
use crate::laws::extends;
use crate::laws_steps::{
    law_executor_event_growth, law_task_event_growth, law_task_executor_growth, task_extends,
    task_size,
};
use crate::types::{
    empty_task, CheckedEvent, TaskAnomaly, TaskWarning, spans_view, texts_view, ExecutorState, Span, SpanModel, Task, TaskModel, TaskState,
    TimedValue,
};

verus! {

broadcast use vstd::std_specs::hash::group_hash_axioms;

/// Everything an analysis of an event stream produces.
pub struct Capture {
    pub tickrate: u64,
    pub irq_states: IndexMap<u16, Vec<TimedValue<bool>>>,
    pub global_markers: Vec<TimedValue<String>>,
    pub global_spans: Vec<Span>,
    pub executor_states: IndexMap<u32, Vec<TimedValue<ExecutorState>>>,
    pub tasks: IndexMap<u32, Task>,
}

impl View for Capture {
    type V = CaptureModel;

    open spec fn view(&self) -> CaptureModel {
        CaptureModel {
            tickrate: self.tickrate,
            irq_states: view_entries(irq_entries(self.irq_states)),
            global_markers: texts_view(self.global_markers@),
            global_spans: spans_view(self.global_spans@),
            executor_states: view_entries(executor_entries(self.executor_states)),
            tasks: view_entries(task_entries(self.tasks)),
        }
    }
}

/// The maps of a capture hold no key twice.
pub open spec fn capture_wf(c: Capture) -> bool {
    &&& keys_distinct(irq_entries(c.irq_states))
    &&& keys_distinct(executor_entries(c.executor_states))
    &&& keys_distinct(task_entries(c.tasks))
}

/// The open spans of each task, viewed.
pub open spec fn inflight_tasks_view(v: Seq<(u32, IndexMap<u32, Span>)>) -> Seq<
    (u32, Seq<(u32, SpanModel)>),
> {
    Seq::new(v.len(), |i: int| (v[i].0, view_entries(span_entries(v[i].1))))
}

/// The working state of an analysis, viewed.
pub open spec fn parse_state(
    c: Capture,
    executor_of: Map<u32, u32>,
    inflight_global: Seq<(u32, SpanModel)>,
    t: Seq<(u32, IndexMap<u32, Span>)>,
) -> ParseModel {
    ParseModel {
        capture: c@,
        executor_of,
        inflight_global,
        inflight_task: inflight_tasks_view(t),
    }
}

/// The working state is consistent: no map holds a key twice, and the open
/// spans of the tasks are kept in the order of the tasks.
pub open spec fn parse_wf(c: Capture, g: IndexMap<u32, Span>, t: Seq<(u32, IndexMap<u32, Span>)>) -> bool {
    &&& capture_wf(c)
    &&& keys_distinct(span_entries(g))
    &&& tasks_wf(c, t)
}

/// The open spans of the tasks are kept in the order of the tasks.
pub open spec fn tasks_wf(c: Capture, t: Seq<(u32, IndexMap<u32, Span>)>) -> bool {
    &&& same_keys(task_entries(c.tasks), t)
    &&& forall|i: int| 0 <= i < t.len() ==> keys_distinct(span_entries(#[trigger] t[i].1))
}

/// Takes the IRQ timeline under `irq` out of the map, appends `tv`, and puts it back.
fn irq_push(m: &mut IndexMap<u16, Vec<TimedValue<bool>>>, irq: u16, tv: TimedValue<bool>)
    requires
        keys_distinct(irq_entries(*old(m))),
    ensures
        keys_distinct(irq_entries(*final(m))),
        view_entries(irq_entries(*final(m))) == upsert(
            view_entries(irq_entries(*old(m))),
            irq,
            value_or(view_entries(irq_entries(*old(m))), irq, Seq::empty()).push(tv),
        ),
{
    let ghost e0 = irq_entries(*m);
    let empty: Vec<TimedValue<bool>> = Vec::new();
    let ghost placeholder = empty;
    let (_, prev) = irq_map_insert_full(m, irq, empty);
    let mut trace = match prev {
        Some(t) => t,
        None => Vec::new(),
    };
    trace.push(tv);
    let ghost filled = trace;
    irq_map_insert_full(m, irq, trace);
    proof {
        lemma_view_entries(e0);
        lemma_upsert(e0, irq, placeholder);
        lemma_upsert_upsert(e0, irq, placeholder, filled);
        lemma_view_upsert(e0, irq);
    }
}

/// Takes the timeline of executor `id` out of the map, leaving an empty one in its place.
fn executor_take(m: &mut IndexMap<u32, Vec<TimedValue<ExecutorState>>>, id: u32) -> (r: Vec<
    TimedValue<ExecutorState>,
>)
    requires
        keys_distinct(executor_entries(*old(m))),
    ensures
        keys_distinct(executor_entries(*final(m))),
        r@ == value_or(view_entries(executor_entries(*old(m))), id, Seq::empty()),
        view_entries(executor_entries(*final(m))) == upsert(
            view_entries(executor_entries(*old(m))),
            id,
            Seq::empty(),
        ),
{
    let ghost e0 = executor_entries(*m);
    let (_, prev) = executor_map_insert_full(m, id, Vec::new());
    proof {
        lemma_view_entries(e0);
        lemma_view_upsert(e0, id);
    }
    match prev {
        Some(t) => t,
        None => Vec::new(),
    }
}

/// Stores the timeline of executor `id`.
fn executor_put(
    m: &mut IndexMap<u32, Vec<TimedValue<ExecutorState>>>,
    id: u32,
    trace: Vec<TimedValue<ExecutorState>>,
)
    requires
        keys_distinct(executor_entries(*old(m))),
    ensures
        keys_distinct(executor_entries(*final(m))),
        view_entries(executor_entries(*final(m))) == upsert(
            view_entries(executor_entries(*old(m))),
            id,
            trace@,
        ),
{
    let ghost e0 = executor_entries(*m);
    executor_map_insert_full(m, id, trace);
    proof {
        lemma_view_upsert(e0, id);
    }
}

/// Takes the task `id` out of the map, leaving an empty task in its place.
fn task_take(m: &mut IndexMap<u32, Task>, id: u32) -> (r: (usize, bool, Task))
    requires
        keys_distinct(task_entries(*old(m))),
    ensures
        r.1 == has_key(task_entries(*old(m)), id),
        r.1 ==> r.0 == key_index(task_entries(*old(m)), id),
        !r.1 ==> r.0 == task_entries(*old(m)).len(),
        keys_distinct(task_entries(*final(m))),
        has_key(task_entries(*final(m)), id),
        r.2@ == value_or(view_entries(task_entries(*old(m))), id, empty_task()),
        view_entries(task_entries(*final(m))) == upsert(
            view_entries(task_entries(*old(m))),
            id,
            empty_task(),
        ),
        task_entries(*final(m)).len() == (if has_key(task_entries(*old(m)), id) {
            task_entries(*old(m)).len()
        } else {
            task_entries(*old(m)).len() + 1
        }),
        forall|i: int|
            0 <= i < task_entries(*old(m)).len() ==> (#[trigger] task_entries(*final(m))[i]).0
                == task_entries(*old(m))[i].0,
        !has_key(task_entries(*old(m)), id) ==> task_entries(*final(m)).last().0 == id,
{
    let ghost e0 = task_entries(*m);
    let placeholder = Task::new();
    let ghost p = placeholder;
    let (idx, prev) = task_map_insert_full(m, id, placeholder);
    proof {
        lemma_view_entries(e0);
        lemma_view_upsert(e0, id);
        lemma_upsert(e0, id, p);
    }
    match prev {
        Some(t) => (idx, true, t),
        None => (idx, false, Task::new()),
    }
}

/// Stores the task `id`.
fn task_put(m: &mut IndexMap<u32, Task>, id: u32, task: Task)
    requires
        keys_distinct(task_entries(*old(m))),
        has_key(task_entries(*old(m)), id),
    ensures
        keys_distinct(task_entries(*final(m))),
        view_entries(task_entries(*final(m))) == upsert(
            view_entries(task_entries(*old(m))),
            id,
            task@,
        ),
        task_entries(*final(m)).len() == task_entries(*old(m)).len(),
        forall|i: int|
            0 <= i < task_entries(*old(m)).len() ==> (#[trigger] task_entries(*final(m))[i]).0
                == task_entries(*old(m))[i].0,
{
    let ghost e0 = task_entries(*m);
    let ghost t = task;
    task_map_insert_full(m, id, task);
    proof {
        lemma_view_upsert(e0, id);
        lemma_upsert(e0, id, t);
    }
}

/// Appends the warnings that the task event raises given the task's states so far.
fn check_task_event(
    states: &Vec<TimedValue<TaskState>>,
    task_id: u32,
    kind: &TaskEventKind,
    warnings: &mut Vec<TaskWarning>,
)
    ensures
        final(warnings)@ == old(warnings)@ + state_warnings(states@, task_id, *kind),
{
    let n = states.len();
    let (event, second) = match kind {
        TaskEventKind::TaskEnd => (CheckedEvent::TaskEnd, TaskAnomaly::NotRunning),
        TaskEventKind::TaskExecBegin => (CheckedEvent::TaskExecBegin, TaskAnomaly::NotWaiting),
        TaskEventKind::TaskExecEnd => (CheckedEvent::TaskExecEnd, TaskAnomaly::NotRunning),
        TaskEventKind::TaskReadyBegin => (
            CheckedEvent::TaskReadyBegin,
            TaskAnomaly::NotRunningIdleOrSpawned,
        ),
        _ => {
            assert(warnings@ =~= old(warnings)@ + state_warnings(states@, task_id, *kind));
            return ;
        },
    };
    if n == 0 {
        warnings.push(TaskWarning { task_id, event, anomaly: TaskAnomaly::NonExistingTask });
    }
    let explained = if n == 0 {
        false
    } else {
        match (kind, states[n - 1].state) {
            (TaskEventKind::TaskEnd, TaskState::Running) => true,
            (TaskEventKind::TaskExecBegin, TaskState::Waiting) => true,
            (TaskEventKind::TaskExecEnd, TaskState::Running) => true,
            (TaskEventKind::TaskReadyBegin, TaskState::Running) => true,
            (TaskEventKind::TaskReadyBegin, TaskState::Idle) => true,
            (TaskEventKind::TaskReadyBegin, TaskState::Spawned) => true,
            _ => false,
        }
    };
    if !explained {
        warnings.push(TaskWarning { task_id, event, anomaly: second });
    }
    assert(warnings@ =~= old(warnings)@ + state_warnings(states@, task_id, *kind));
}

impl Default for Capture {
    fn default() -> (c: Capture)
        ensures
            c@ == empty_capture(),
    {
        Capture::new()
    }
}

impl Capture {
    /// A capture with nothing recorded.
    pub fn new() -> (c: Capture)
        ensures
            c@ == empty_capture(),
            capture_wf(c),
            task_entries(c.tasks).len() == 0,
    {
        let c = Capture {
            tickrate: 0,
            irq_states: irq_map_new(),
            global_markers: Vec::new(),
            global_spans: Vec::new(),
            executor_states: executor_map_new(),
            tasks: task_map_new(),
        };
        assert(c@ =~= empty_capture());
        c
    }

    /// Appends an executor event to the executor's timeline; the timeline
    /// always starts idle.
    fn handle_executor_event(
        executor_trace: &mut Vec<TimedValue<ExecutorState>>,
        event: &ExecutorEvent,
        timestamp: u64,
    )
        ensures
            final(executor_trace)@ == executor_trace_step(
                old(executor_trace)@,
                event.kind,
                timestamp,
            ),
            extends(old(executor_trace)@, final(executor_trace)@),
            final(executor_trace)@.len() == old(executor_trace)@.len() + (if old(
                executor_trace,
            )@.len() == 0 {
                2int
            } else {
                1int
            }),
            old(executor_trace)@.len() == 0 || old(executor_trace)@[0].state == ExecutorState::Idle
                ==> final(executor_trace)@[0].state == ExecutorState::Idle,
    {
        proof {
            if old(executor_trace)@.len() == 0 || old(executor_trace)@[0].state
                == ExecutorState::Idle {
                law_executor_event_growth(old(executor_trace)@, event.kind, timestamp);
            } else {
                let v = executor_trace_step(old(executor_trace)@, event.kind, timestamp);
                assert(old(executor_trace)@ =~= v.take(old(executor_trace)@.len() as int));
            }
        }
        if executor_trace.is_empty() {
            // Executor always starts idle
            executor_trace.push(TimedValue { timestamp, state: ExecutorState::Idle });
        }
        match event.kind {
            ExecutorEventKind::ExecutorPollStart => {
                executor_trace.push(TimedValue { timestamp, state: ExecutorState::Scheduling });
            },
            ExecutorEventKind::ExecutorIdle => {
                executor_trace.push(TimedValue { timestamp, state: ExecutorState::Idle });
            },
        }
    }

    /// Applies a task event to the task, to its open spans, and to the
    /// timeline of its executor when the task's executor is known.
    fn handle_task_event(
        executor_trace: &mut Option<Vec<TimedValue<ExecutorState>>>,
        task: &mut Task,
        event: &TaskEvent,
        timestamp: u64,
        inflight_spans: &mut IndexMap<u32, Span>,
    )
        requires
            keys_distinct(span_entries(*old(inflight_spans))),
        ensures
            (match *old(executor_trace) {
                Some(t) => match *final(executor_trace) {
                    Some(t2) => t2@ == task_executor_step(t@, event.task_id, event.kind, timestamp),
                    None => false,
                },
                None => *final(executor_trace) is None,
            }),
            final(task)@ == task_step(
                old(task)@,
                view_entries(span_entries(*old(inflight_spans))),
                event.kind,
                timestamp,
            ).0,
            view_entries(span_entries(*final(inflight_spans))) == task_step(
                old(task)@,
                view_entries(span_entries(*old(inflight_spans))),
                event.kind,
                timestamp,
            ).1,
            keys_distinct(span_entries(*final(inflight_spans))),
            task_extends(old(task)@, final(task)@),
            task_size(final(task)@) <= task_size(old(task)@) + 1,
            (match (*old(executor_trace), *final(executor_trace)) {
                (Some(t), Some(t2)) => extends(t@, t2@) && t2@.len() <= t@.len() + 2,
                _ => true,
            }),
    {
        proof {
            law_task_event_growth(
                old(task)@,
                view_entries(span_entries(*old(inflight_spans))),
                event.kind,
                timestamp,
            );
            match *old(executor_trace) {
                Some(t) => law_task_executor_growth(t@, event.task_id, event.kind, timestamp),
                None => {},
            }
        }
        let task_id = event.task_id;
        let ghost s0 = span_entries(*inflight_spans);
        proof {
            lemma_view_entries(s0);
        }
        if let Some(trace) = executor_trace {
            if trace.is_empty() {
                // Executor always starts idle
                trace.push(TimedValue { timestamp, state: ExecutorState::Idle });
            }
        }
        match &event.kind {
            TaskEventKind::TaskNew { .. } => {
                task.states.push(TimedValue { timestamp, state: TaskState::Spawned });
            },
            TaskEventKind::TaskEnd => {
                task.states.push(TimedValue { timestamp, state: TaskState::End });
            },
            TaskEventKind::TaskExecBegin => {
                task.states.push(TimedValue { timestamp, state: TaskState::Running });
                if let Some(trace) = executor_trace {
                    trace.push(TimedValue { timestamp, state: ExecutorState::Polling { task_id } });
                }
            },
            TaskEventKind::TaskExecEnd => {
                task.states.push(TimedValue { timestamp, state: TaskState::Idle });
                if let Some(trace) = executor_trace {
                    trace.push(TimedValue { timestamp, state: ExecutorState::Scheduling });
                }
            },
            TaskEventKind::TaskReadyBegin => {
                let n = task.states.len();
                if n > 0 {
                    match task.states[n - 1].state {
                        TaskState::Running => {
                            task.states.push(
                                TimedValue { timestamp, state: TaskState::RunningWaiting },
                            );
                        },
                        TaskState::Idle | TaskState::Spawned => {
                            task.states.push(TimedValue { timestamp, state: TaskState::Waiting });
                        },
                        _ => {},
                    }
                }
            },
            TaskEventKind::TaskNamed { name } => {
                let ghost before = task.names@;
                task.names.push(TimedValue { timestamp, state: name.clone() });
                assert(texts_view(task.names@) =~= texts_view(before).push((timestamp, name@)));
            },
            TaskEventKind::Marker { name } => {
                let ghost before = task.markers@;
                task.markers.push(TimedValue { timestamp, state: name.clone() });
                assert(texts_view(task.markers@) =~= texts_view(before).push((timestamp, name@)));
            },
            TaskEventKind::SpanStart { name, id } => {
                proof {
                    lemma_view_upsert(s0, *id);
                }
                let span = Span { name: name.clone(), start: timestamp, end: 0 };
                span_map_insert_full(inflight_spans, *id, span);
            },
            TaskEventKind::SpanEnd { id } => {
                proof {
                    lemma_view_remove(s0, *id);
                }
                match span_map_shift_remove(inflight_spans, *id) {
                    Some(span) => {
                        let ghost before = task.spans@;
                        task.spans.push(Span { name: span.name, start: span.start, end: timestamp });
                        assert(spans_view(task.spans@) =~= spans_view(before).push(
                            ended(span@, timestamp),
                        ));
                    },
                    None => {},
                }
            },
            TaskEventKind::PrioritySet { priority } => {
                task.priorities.push(TimedValue { timestamp, state: *priority });
            },
            TaskEventKind::DeadlineSet { deadline } => {
                task.deadlines.push(TimedValue { timestamp, state: *deadline });
            },
        }
        proof {
            assert(task@ =~= task_step(old(task)@, view_entries(s0), event.kind, timestamp).0);
        }
    }

    /// Applies a global event to the capture and to the open global spans.
    fn handle_global_event(
        capture: &mut Capture,
        inflight_global: &mut IndexMap<u32, Span>,
        event: &GlobalEvent,
        timestamp: u64,
    )
        requires
            capture_wf(*old(capture)),
            keys_distinct(span_entries(*old(inflight_global))),
        ensures
            capture_wf(*final(capture)),
            keys_distinct(span_entries(*final(inflight_global))),
            final(capture).tasks == old(capture).tasks,
            final(capture).executor_states == old(capture).executor_states,
            ({
                let after = global_step(
                    parse_state(
                    *old(capture),
                    Map::empty(),
                    view_entries(span_entries(*old(inflight_global))),
                    Seq::empty(),
                ),
                    *event,
                    timestamp,
                );
                &&& final(capture)@ == after.capture
                &&& view_entries(span_entries(*final(inflight_global))) == after.inflight_global
            }),
    {
        let ghost g0 = span_entries(*inflight_global);
        proof {
            lemma_view_entries(g0);
        }
        match event {
            GlobalEvent::TickRate { rate } => {
                capture.tickrate = *rate;
            },
            GlobalEvent::IrqStart { irq } => {
                irq_push(&mut capture.irq_states, *irq, TimedValue { timestamp, state: true });
            },
            GlobalEvent::IrqEnd { irq } => {
                irq_push(&mut capture.irq_states, *irq, TimedValue { timestamp, state: false });
            },
            GlobalEvent::Marker { name } => {
                let ghost before = capture.global_markers@;
                capture.global_markers.push(TimedValue { timestamp, state: name.clone() });
                assert(texts_view(capture.global_markers@) =~= texts_view(before).push(
                    (timestamp, name@),
                ));
            },
            GlobalEvent::SpanStart { name, id } => {
                proof {
                    lemma_view_upsert(g0, *id);
                }
                let span = Span { name: name.clone(), start: timestamp, end: 0 };
                span_map_insert_full(inflight_global, *id, span);
            },
            GlobalEvent::SpanEnd { id } => {
                proof {
                    lemma_view_remove(g0, *id);
                }
                match span_map_shift_remove(inflight_global, *id) {
                    Some(span) => {
                        let ghost before = capture.global_spans@;
                        capture.global_spans.push(
                            Span { name: span.name, start: span.start, end: timestamp },
                        );
                        assert(spans_view(capture.global_spans@) =~= spans_view(before).push(
                            ended(span@, timestamp),
                        ));
                    },
                    None => {},
                }
            },
        }
        proof {
            let after = global_step(
                parse_state(
                    *old(capture),
                    Map::empty(),
                    view_entries(span_entries(*old(inflight_global))),
                    Seq::empty(),
                ),
                *event,
                timestamp,
            );
            assert(capture@ =~= after.capture);
        }
    }

    /// Applies a task event: records the executor of a new task, and updates
    /// the task, its open spans and the timeline of its executor.
    fn handle_task_entry(
        capture: &mut Capture,
        executor_map: &mut HashMap<u32, u32>,
        inflight_tasks: &mut Vec<(u32, IndexMap<u32, Span>)>,
        event: &TaskEvent,
        timestamp: u64,
        warnings: &mut Vec<TaskWarning>,
    )
        requires
            capture_wf(*old(capture)),
            tasks_wf(*old(capture), old(inflight_tasks)@),
        ensures
            final(warnings)@ == old(warnings)@ + state_warnings(
                value_or(old(capture)@.tasks, event.task_id, empty_task()).states,
                event.task_id,
                event.kind,
            ),
            capture_wf(*final(capture)),
            tasks_wf(*final(capture), final(inflight_tasks)@),
            final(executor_map)@ == executor_of_step(old(executor_map)@, *event),
            ({
                let after = task_event_step(
                    parse_state(*old(capture), old(executor_map)@, Seq::empty(), old(inflight_tasks)@),
                    *event,
                    timestamp,
                );
                &&& final(capture)@ == after.capture
                &&& inflight_tasks_view(final(inflight_tasks)@) == after.inflight_task
            }),
    {
        let task_id = event.task_id;
        let executor_id: Option<u32> = match &event.kind {
            TaskEventKind::TaskNew { executor_id } => {
                if !executor_map.contains_key(&task_id) {
                    executor_map.insert(task_id, *executor_id);
                }
                match executor_map.get(&task_id) {
                    Some(x) => Some(*x),
                    None => None,
                }
            },
            _ => match executor_map.get(&task_id) {
                Some(x) => Some(*x),
                None => None,
            },
        };
        let ghost ex_of = executor_of_step(old(executor_map)@, *event);
        assert(executor_map@ == ex_of);
        assert(executor_id is Some <==> ex_of.contains_key(task_id));
        assert(executor_id matches Some(x) ==> x == ex_of[task_id]);

        let ghost ev0 = view_entries(executor_entries(capture.executor_states));
        proof {
            lemma_view_entries(executor_entries(capture.executor_states));
        }
        let mut executor_trace = match executor_id {
            Some(x) => Some(executor_take(&mut capture.executor_states, x)),
            None => None,
        };

        let ghost t0 = task_entries(capture.tasks);
        let ghost i0 = inflight_tasks@;
        let ghost iv0 = inflight_tasks_view(i0);
        proof {
            assert(same_keys(t0, iv0));
            lemma_same_keys(t0, i0);
            lemma_same_keys(t0, iv0);
            lemma_view_entries(t0);
        }
        let (idx, present, mut task) = task_take(&mut capture.tasks, task_id);
        check_task_event(&task.states, task_id, &event.kind, warnings);
        let mut spans = span_map_new();
        if present {
            std::mem::swap(&mut inflight_tasks[idx].1, &mut spans);
        }
        let ghost spans0 = spans;
        proof {
            if present {
                assert(iv0[idx as int].1 == view_entries(span_entries(spans0)));
                assert(value_or(iv0, task_id, Seq::empty()) == view_entries(span_entries(spans0)));
            } else {
                assert(view_entries(span_entries(spans0)) =~= Seq::<(u32, SpanModel)>::empty());
            }
            assert(value_or(iv0, task_id, Seq::empty()) == view_entries(span_entries(spans0)));
            assert(keys_distinct(span_entries(spans0)));
        }
        Self::handle_task_event(&mut executor_trace, &mut task, event, timestamp, &mut spans);
        let ghost spans1 = spans;
        if present {
            std::mem::swap(&mut inflight_tasks[idx].1, &mut spans);
        } else {
            inflight_tasks.push((task_id, spans));
        }
        let ghost i1 = inflight_tasks@;
        proof {
            if present {
                assert(i1 =~= i0.update(idx as int, (task_id, spans1)));
            } else {
                assert(i1 =~= i0.push((task_id, spans1)));
            }
            assert(inflight_tasks_view(i1) =~= upsert(
                iv0,
                task_id,
                view_entries(span_entries(spans1)),
            ));
        }
        task_put(&mut capture.tasks, task_id, task);
        let ghost t2 = task_entries(capture.tasks);
        proof {
            lemma_upsert_upsert(view_entries(t0), task_id, empty_task(), task@);
            assert(same_keys(t2, i1));
        }
        match executor_id {
            Some(x) => {
                match executor_trace {
                    Some(t) => {
                        proof {
                            lemma_upsert_upsert(ev0, x, Seq::empty(), t@);
                        }
                        executor_put(&mut capture.executor_states, x, t);
                    },
                    None => {},
                }
            },
            None => {},
        }
        proof {
            let after = task_event_step(
                parse_state(*old(capture), old(executor_map)@, Seq::empty(), old(inflight_tasks)@),
                *event,
                timestamp,
            );
            assert(inflight_tasks_view(inflight_tasks@) =~= after.inflight_task);
            assert(capture@ =~= after.capture);
        }
    }

    /// Applies one event to the working state of an analysis.
    fn handle_event(
        capture: &mut Capture,
        executor_map: &mut HashMap<u32, u32>,
        inflight_global: &mut IndexMap<u32, Span>,
        inflight_tasks: &mut Vec<(u32, IndexMap<u32, Span>)>,
        event: &Event,
        warnings: &mut Vec<TaskWarning>,
    )
        requires
            parse_wf(*old(capture), *old(inflight_global), old(inflight_tasks)@),
        ensures
            final(warnings)@ == old(warnings)@ + event_warnings(
                parse_state(
                    *old(capture),
                    old(executor_map)@,
                    view_entries(span_entries(*old(inflight_global))),
                    old(inflight_tasks)@,
                ),
                *event,
            ),
            parse_wf(*final(capture), *final(inflight_global), final(inflight_tasks)@),
            parse_state(
                *final(capture),
                final(executor_map)@,
                view_entries(span_entries(*final(inflight_global))),
                final(inflight_tasks)@,
            ) == step(
                parse_state(
                    *old(capture),
                    old(executor_map)@,
                    view_entries(span_entries(*old(inflight_global))),
                    old(inflight_tasks)@,
                ),
                *event,
            ),
    {
        let timestamp = event.timestamp;
        match &event.kind {
            EventKind::Global(g) => {
                Self::handle_global_event(capture, inflight_global, g, timestamp);
                assert(warnings@ =~= old(warnings)@ + Seq::<TaskWarning>::empty());
            },
            EventKind::Executor(x) => {
                let mut trace = executor_take(&mut capture.executor_states, x.executor_id);
                Self::handle_executor_event(&mut trace, x, timestamp);
                proof {
                    let ev0 = view_entries(executor_entries(old(capture).executor_states));
                    lemma_view_entries(executor_entries(old(capture).executor_states));
                    lemma_upsert_upsert(ev0, x.executor_id, Seq::empty(), trace@);
                }
                executor_put(&mut capture.executor_states, x.executor_id, trace);
                assert(warnings@ =~= old(warnings)@ + Seq::<TaskWarning>::empty());
            },
            EventKind::Task(t) => {
                Self::handle_task_entry(
                    capture,
                    executor_map,
                    inflight_tasks,
                    t,
                    timestamp,
                    warnings,
                );
            },
        }
        proof {
            let after = step(
                parse_state(
                    *old(capture),
                    old(executor_map)@,
                    view_entries(span_entries(*old(inflight_global))),
                    old(inflight_tasks)@,
                ),
                *event,
            );
            assert(capture@ =~= after.capture);
        }
    }

    /// Appends the open spans, ended at `end`, to `dst`.
    fn close_into(dst: &mut Vec<Span>, open: &Vec<Span>, end: u64)
        ensures
            spans_view(final(dst)@) == spans_view(old(dst)@) + Seq::new(
                open@.len(),
                |i: int| ended(open@[i]@, end),
            ),
    {
        let n = open.len();
        let mut i: usize = 0;
        while i < n
            invariant
                i <= n,
                n == open@.len(),
                spans_view(dst@) =~= spans_view(old(dst)@) + Seq::new(
                    i as nat,
                    |j: int| ended(open@[j]@, end),
                ),
            decreases n - i,
        {
            let s = &open[i];
            let ghost prev = dst@;
            dst.push(Span { name: s.name.clone(), start: s.start, end });
            assert(spans_view(dst@) =~= spans_view(prev).push(ended(open@[i as int]@, end)));
            i += 1;
        }
        assert(Seq::new(n as nat, |j: int| ended(open@[j]@, end)) =~= Seq::new(
            open@.len(),
            |j: int| ended(open@[j]@, end),
        ));
    }

    /// Ends every open span at `end`: the global ones are appended to the
    /// global spans in the order they were opened, and each task's to its spans.
    fn finish_spans(
        capture: &mut Capture,
        inflight_global: IndexMap<u32, Span>,
        inflight_tasks: Vec<(u32, IndexMap<u32, Span>)>,
        end: u64,
    )
        requires
            parse_wf(*old(capture), inflight_global, inflight_tasks@),
        ensures
            capture_wf(*final(capture)),
            final(capture)@ == finish(
                parse_state(
                    *old(capture),
                    Map::empty(),
                    view_entries(span_entries(inflight_global)),
                    inflight_tasks@,
                ),
                end,
            ),
    {
        let ghost st = parse_state(
            *capture,
            Map::empty(),
            view_entries(span_entries(inflight_global)),
            inflight_tasks@,
        );
        let ghost target = finish(st, end);
        let ghost g0 = span_entries(inflight_global);
        let open_global = span_map_into_values(inflight_global);
        Self::close_into(&mut capture.global_spans, &open_global, end);
        assert(Seq::new(open_global@.len(), |i: int| ended(open_global@[i]@, end)) =~= close_spans(
            view_entries(g0),
            end,
        ));

        let ghost t0 = task_entries(capture.tasks);
        let ghost vt0 = view_entries(t0);
        let ghost i0 = inflight_tasks@;
        proof {
            lemma_view_entries(t0);
            lemma_same_keys(t0, i0);
            assert(same_keys(t0, inflight_tasks_view(i0)));
            lemma_same_keys(t0, inflight_tasks_view(i0));
        }
        let mut inflight_tasks = inflight_tasks;
        let k = inflight_tasks.len();
        let mut i: usize = 0;
        while i < k
            invariant
                i <= k,
                k == i0.len(),
                inflight_tasks@.len() == k,
                forall|j: int| i <= j < k ==> #[trigger] inflight_tasks@[j] == i0[j],
                capture_wf(*capture),
                same_keys(t0, i0),
                keys_distinct(t0),
                keys_distinct(inflight_tasks_view(i0)),
                forall|j: int| 0 <= j < k ==> keys_distinct(span_entries(#[trigger] i0[j].1)),
                task_entries(capture.tasks).len() == k,
                forall|j: int|
                    0 <= j < k ==> (#[trigger] task_entries(capture.tasks)[j]).0 == t0[j].0,
                forall|j: int|
                    0 <= j < k ==> #[trigger] view_entries(task_entries(capture.tasks))[j] == (if j
                        < i {
                        target.tasks[j]
                    } else {
                        vt0[j]
                    }),
                target == finish(st, end),
                vt0 == view_entries(t0),
                st.capture.tasks == vt0,
                st.inflight_task == inflight_tasks_view(i0),
                capture.tickrate == target.tickrate,
                view_entries(irq_entries(capture.irq_states)) == target.irq_states,
                texts_view(capture.global_markers@) == target.global_markers,
                spans_view(capture.global_spans@) == target.global_spans,
                view_entries(executor_entries(capture.executor_states)) == target.executor_states,
            decreases k - i,
        {
            let mut spans = span_map_new();
            std::mem::swap(&mut inflight_tasks[i].1, &mut spans);
            let task_id = inflight_tasks[i].0;
            assert(spans == i0[i as int].1);
            assert(task_id == i0[i as int].0);
            let ghost tcur = task_entries(capture.tasks);
            proof {
                assert(tcur[i as int].0 == task_id);
                lemma_key_index_unique(tcur, task_id, i as int);
                lemma_key_index_unique(t0, task_id, i as int);
                lemma_view_entries(tcur);
            }
            let open = span_map_into_values(spans);
            let (_, _, mut task) = task_take(&mut capture.tasks, task_id);
            let ghost before = task@;
            Self::close_into(&mut task.spans, &open, end);
            proof {
                let iv = inflight_tasks_view(i0);
                assert(iv[i as int].0 == task_id);
                lemma_key_index_unique(iv, task_id, i as int);
                assert(value_or(iv, task_id, Seq::empty()) == iv[i as int].1);
                assert(before == vt0[i as int].1);
                assert(vt0[i as int].0 == task_id);
                assert(vt0.len() == k);
                assert(st.capture.tasks[i as int] == vt0[i as int]);
                assert(target.tasks.len() == k);
                assert(target.tasks[i as int] == (
                    vt0[i as int].0,
                    TaskModel {
                        spans: vt0[i as int].1.spans + close_spans(
                            value_or(st.inflight_task, vt0[i as int].0, Seq::empty()),
                            end,
                        ),
                        ..vt0[i as int].1
                    },
                ));
                assert(target.tasks[i as int] == (
                    task_id,
                    TaskModel {
                        spans: vt0[i as int].1.spans + close_spans(iv[i as int].1, end),
                        ..vt0[i as int].1
                    },
                ));
                assert(Seq::new(open@.len(), |q: int| ended(open@[q]@, end)) =~= close_spans(
                    iv[i as int].1,
                    end,
                ));
                assert(task@ =~= target.tasks[i as int].1);
                lemma_view_entries(tcur);
                lemma_upsert_upsert(view_entries(tcur), task_id, empty_task(), task@);
            }
            task_put(&mut capture.tasks, task_id, task);
            i += 1;
        }
        proof {
            assert(view_entries(task_entries(capture.tasks)) =~= target.tasks);
            assert(capture@ =~= target);
        }
    }

    /// Folds the events, in order, into a capture; spans still open after the
    /// last event are ended at that event's timestamp (0 when there is none).
    pub fn parse_events(events: &[Event]) -> (capture: Capture)
        ensures
            capture@ == capture_of(events@),
            capture_wf(capture),
    {
        Self::parse_events_with_warnings(events).0
    }

    /// `parse_events`, together with the warnings that task events raise
    /// against the task's states so far, in the order of the events.
    pub fn parse_events_with_warnings(events: &[Event]) -> (r: (Capture, Vec<TaskWarning>))
        ensures
            r.0@ == capture_of(events@),
            capture_wf(r.0),
            r.1@ == warnings_of(events@),
    {
        let mut capture = Capture::new();
        let mut executor_map: HashMap<u32, u32> = HashMap::new();
        let mut inflight_global_spans = span_map_new();
        let mut inflight_task_spans: Vec<(u32, IndexMap<u32, Span>)> = Vec::new();
        let mut warnings: Vec<TaskWarning> = Vec::new();
        proof {
            assert(inflight_tasks_view(inflight_task_spans@) =~= Seq::empty());
            assert(view_entries(span_entries(inflight_global_spans)) =~= Seq::empty());
            assert(run(events@.take(0)) == initial_parse());
            assert(parse_state(
                capture,
                executor_map@,
                view_entries(span_entries(inflight_global_spans)),
                inflight_task_spans@,
            ) =~= initial_parse());
        }
        let n = events.len();
        let mut i: usize = 0;
        while i < n
            invariant
                i <= n,
                n == events@.len(),
                parse_wf(capture, inflight_global_spans, inflight_task_spans@),
                parse_state(
                    capture,
                    executor_map@,
                    view_entries(span_entries(inflight_global_spans)),
                    inflight_task_spans@,
                ) == run(events@.take(i as int)),
                warnings@ == warnings_of(events@.take(i as int)),
            decreases n - i,
        {
            Self::handle_event(
                &mut capture,
                &mut executor_map,
                &mut inflight_global_spans,
                &mut inflight_task_spans,
                &events[i],
                &mut warnings,
            );
            proof {
                assert(events@.take(i + 1).drop_last() =~= events@.take(i as int));
            }
            i += 1;
        }
        proof {
            assert(events@.take(n as int) =~= events@);
        }
        let last_event_time = if n == 0 {
            0
        } else {
            events[n - 1].timestamp
        };
        Self::finish_spans(&mut capture, inflight_global_spans, inflight_task_spans, last_event_time);
        (capture, warnings)
    }
}

} // verus!
