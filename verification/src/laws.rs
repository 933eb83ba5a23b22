//! Properties of the analyses that hold for every event stream.

use vstd::prelude::*;
use crate::capture_model::{
    capture_of, last_timestamp, run, started, step, task_event_step, task_step, CaptureModel,
    ParseModel,
};
use crate::entries::{has_key, key_index, upsert, value_or};
use crate::events::{Event, EventKind, GlobalEvent, TaskEventKind};
use crate::perfetto::{trace_packets, TracePacketModel};
use crate::protobuf::trace_bytes;
use crate::types::{empty_task, ExecutorState, SpanModel, TaskState, TimedValue};

verus! {

/// The rate of the last `TickRate` event, or 0 when there is none.
pub open spec fn last_tickrate(events: Seq<Event>) -> u64
    decreases events.len(),
{
    if events.len() == 0 {
        0
    } else {
        match events.last().kind {
            EventKind::Global(GlobalEvent::TickRate { rate }) => rate,
            _ => last_tickrate(events.drop_last()),
        }
    }
}

/// The global `Marker` events, as timestamps and names, in order.
pub open spec fn marker_events(events: Seq<Event>) -> Seq<(u64, Seq<char>)>
    decreases events.len(),
{
    if events.len() == 0 {
        Seq::empty()
    } else {
        marker_events(events.drop_last()) + match events.last().kind {
            EventKind::Global(GlobalEvent::Marker { name }) => seq![
                (events.last().timestamp, name@),
            ],
            _ => Seq::empty(),
        }
    }
}

/// The on (`true`) and off (`false`) events of one IRQ, in order.
pub open spec fn irq_events(events: Seq<Event>, irq: u16) -> Seq<TimedValue<bool>>
    decreases events.len(),
{
    if events.len() == 0 {
        Seq::empty()
    } else {
        irq_events(events.drop_last(), irq) + match events.last().kind {
            EventKind::Global(GlobalEvent::IrqStart { irq: i }) => if i == irq {
                seq![TimedValue { timestamp: events.last().timestamp, state: true }]
            } else {
                Seq::empty()
            },
            EventKind::Global(GlobalEvent::IrqEnd { irq: i }) => if i == irq {
                seq![TimedValue { timestamp: events.last().timestamp, state: false }]
            } else {
                Seq::empty()
            },
            _ => Seq::empty(),
        }
    }
}

/// Every executor timeline is non-empty and starts idle.
pub open spec fn executors_start_idle(es: Seq<(u32, Seq<TimedValue<ExecutorState>>)>) -> bool {
    forall|j: int|
        0 <= j < es.len() ==> (#[trigger] es[j]).1.len() > 0 && es[j].1[0].state
            == ExecutorState::Idle
}

/// The capture's tick rate is the one the last `TickRate` event announced, or
/// 0 when no event announced one.
pub proof fn law_tickrate_is_last_announced(events: Seq<Event>)
    ensures
        capture_of(events).tickrate == last_tickrate(events),
    decreases events.len(),
{
    if events.len() > 0 {
        law_tickrate_is_last_announced(events.drop_last());
    }
}

/// The global markers of the capture are exactly the global `Marker` events,
/// in the order they came.
pub proof fn law_markers_are_the_marker_events(events: Seq<Event>)
    ensures
        capture_of(events).global_markers == marker_events(events),
    decreases events.len(),
{
    if events.len() > 0 {
        law_markers_are_the_marker_events(events.drop_last());
    }
}

/// The timeline of every IRQ is exactly its `IrqStart` (on) and `IrqEnd` (off)
/// events, in the order they came; an IRQ without events has no timeline.
pub proof fn law_irq_timeline_is_its_events(events: Seq<Event>, irq: u16)
    ensures
        value_or(capture_of(events).irq_states, irq, Seq::empty()) == irq_events(events, irq),
        has_key(capture_of(events).irq_states, irq) <==> irq_events(events, irq).len() > 0,
    decreases events.len(),
{
    if events.len() > 0 {
        law_irq_timeline_is_its_events(events.drop_last(), irq);
        lemma_run_irq_distinct(events.drop_last());
        let s = run(events.drop_last()).capture.irq_states;
        crate::entries::lemma_upsert(s, irq, value_or(s, irq, Seq::empty()));
        let e = events.last();
        match e.kind {
            EventKind::Global(GlobalEvent::IrqStart { irq: i }) => {
                let v = value_or(s, i, Seq::empty()).push(TimedValue { timestamp: e.timestamp, state: true });
                crate::entries::lemma_upsert(s, i, v);
            },
            EventKind::Global(GlobalEvent::IrqEnd { irq: i }) => {
                let v = value_or(s, i, Seq::empty()).push(TimedValue { timestamp: e.timestamp, state: false });
                crate::entries::lemma_upsert(s, i, v);
            },
            _ => {},
        }
    }
}

/// No IRQ has two timelines.
pub proof fn lemma_run_irq_distinct(events: Seq<Event>)
    ensures
        crate::entries::keys_distinct(run(events).capture.irq_states),
    decreases events.len(),
{
    if events.len() > 0 {
        lemma_run_irq_distinct(events.drop_last());
        let s = run(events.drop_last()).capture.irq_states;
        let e = events.last();
        match e.kind {
            EventKind::Global(GlobalEvent::IrqStart { irq: i }) => {
                let v = value_or(s, i, Seq::empty()).push(TimedValue { timestamp: e.timestamp, state: true });
                crate::entries::lemma_upsert(s, i, v);
            },
            EventKind::Global(GlobalEvent::IrqEnd { irq: i }) => {
                let v = value_or(s, i, Seq::empty()).push(TimedValue { timestamp: e.timestamp, state: false });
                crate::entries::lemma_upsert(s, i, v);
            },
            _ => {},
        }
    }
}

/// Converting a stream to Perfetto packets is converting its parts: the
/// packets of `a` followed by `b` are the packets of `a` followed by those of `b`.
pub proof fn law_packets_of_concatenation(a: Seq<Event>, b: Seq<Event>, nanos_per_tick: u64)
    ensures
        trace_packets(a + b, nanos_per_tick) == trace_packets(a, nanos_per_tick) + trace_packets(
            b,
            nanos_per_tick,
        ),
    decreases b.len(),
{
    if b.len() == 0 {
        assert(a + b =~= a);
        assert(trace_packets(a, nanos_per_tick) + trace_packets(b, nanos_per_tick) =~= trace_packets(
            a,
            nanos_per_tick,
        ));
    } else {
        law_packets_of_concatenation(a, b.drop_last(), nanos_per_tick);
        assert((a + b).drop_last() =~= a + b.drop_last());
        assert((a + b).last() == b.last());
        assert(trace_packets(a + b, nanos_per_tick) =~= trace_packets(a, nanos_per_tick)
            + trace_packets(b, nanos_per_tick));
    }
}

/// The encoding of a trace is the encodings of its parts, one after the other:
/// the bytes of the packets `p` followed by `q` are the bytes of `p` followed
/// by the bytes of `q`.
pub proof fn law_bytes_of_concatenation(p: Seq<TracePacketModel>, q: Seq<TracePacketModel>)
    ensures
        trace_bytes(p + q) == trace_bytes(p) + trace_bytes(q),
    decreases q.len(),
{
    if q.len() == 0 {
        assert(p + q =~= p);
        assert(trace_bytes(p) + trace_bytes(q) =~= trace_bytes(p));
    } else {
        law_bytes_of_concatenation(p, q.drop_last());
        assert((p + q).drop_last() =~= p + q.drop_last());
        assert((p + q).last() == q.last());
        assert(trace_bytes(p + q) =~= trace_bytes(p) + trace_bytes(q));
    }
}


proof fn lemma_upsert_keeps_idle_start(
    es: Seq<(u32, Seq<TimedValue<ExecutorState>>)>,
    k: u32,
    v: Seq<TimedValue<ExecutorState>>,
)
    requires
        executors_start_idle(es),
        v.len() > 0,
        v[0].state == ExecutorState::Idle,
    ensures
        executors_start_idle(upsert(es, k, v)),
{
    let t = upsert(es, k, v);
    assert forall|j: int| 0 <= j < t.len() implies (#[trigger] t[j]).1.len() > 0 && t[j].1[0].state
        == ExecutorState::Idle by {
        if has_key(es, k) {
            if j != key_index(es, k) {
                assert(t[j] == es[j]);
            }
        } else if j < es.len() {
            assert(t[j] == es[j]);
        }
    }
}

proof fn lemma_idle_start_after(
    es: Seq<(u32, Seq<TimedValue<ExecutorState>>)>,
    x: u32,
    ts: u64,
)
    requires
        executors_start_idle(es),
    ensures
        started(value_or(es, x, Seq::empty()), ts).len() > 0,
        started(value_or(es, x, Seq::empty()), ts)[0].state == ExecutorState::Idle,
{
    if has_key(es, x) {
        let i = key_index(es, x);
        assert(es[i].1.len() > 0);
    }
}

/// Every executor's timeline starts idle: an executor that appears in the
/// capture has a non-empty timeline whose first state is `Idle`.
pub proof fn law_executors_start_idle(events: Seq<Event>)
    ensures
        executors_start_idle(capture_of(events).executor_states),
    decreases events.len(),
{
    lemma_run_executors_start_idle(events);
}

proof fn lemma_run_executors_start_idle(events: Seq<Event>)
    ensures
        executors_start_idle(run(events).capture.executor_states),
    decreases events.len(),
{
    if events.len() > 0 {
        lemma_run_executors_start_idle(events.drop_last());
        let st = run(events.drop_last());
        let es = st.capture.executor_states;
        let e = events.last();
        match e.kind {
            EventKind::Global(g) => {},
            EventKind::Executor(x) => {
                lemma_idle_start_after(es, x.executor_id, e.timestamp);
                let v = crate::capture_model::executor_trace_step(
                    value_or(es, x.executor_id, Seq::empty()),
                    x.kind,
                    e.timestamp,
                );
                assert(v[0] == started(value_or(es, x.executor_id, Seq::empty()), e.timestamp)[0]);
                lemma_upsert_keeps_idle_start(es, x.executor_id, v);
            },
            EventKind::Task(t) => {
                let ex_of = crate::capture_model::executor_of_step(st.executor_of, t);
                if ex_of.contains_key(t.task_id) {
                    let x = ex_of[t.task_id];
                    lemma_idle_start_after(es, x, e.timestamp);
                    let v = crate::capture_model::task_executor_step(
                        value_or(es, x, Seq::empty()),
                        t.task_id,
                        t.kind,
                        e.timestamp,
                    );
                    assert(v[0] == started(value_or(es, x, Seq::empty()), e.timestamp)[0]);
                    lemma_upsert_keeps_idle_start(es, x, v);
                }
            },
        }
    }
}


/// The events come in the order of their timestamps.
pub open spec fn timestamps_ordered(events: Seq<Event>) -> bool {
    forall|i: int, j: int|
        0 <= i <= j < events.len() ==> #[trigger] events[i].timestamp <= #[trigger] events[j].timestamp
}

/// No span ends before it starts.
pub open spec fn spans_ordered(s: Seq<SpanModel>) -> bool {
    forall|j: int| 0 <= j < s.len() ==> (#[trigger] s[j]).start <= s[j].end
}

/// No span of the capture, global or of a task, ends before it starts.
pub open spec fn capture_spans_ordered(c: CaptureModel) -> bool {
    &&& spans_ordered(c.global_spans)
    &&& forall|j: int| 0 <= j < c.tasks.len() ==> spans_ordered((#[trigger] c.tasks[j]).1.spans)
}

/// Every open span started at `t` or earlier.
pub open spec fn opened_by(s: Seq<(u32, SpanModel)>, t: u64) -> bool {
    forall|q: int| 0 <= q < s.len() ==> (#[trigger] s[q]).1.start <= t
}

/// The invariant of an analysis of an ordered stream whose last event came at `t`.
pub open spec fn spans_inv(st: ParseModel, t: u64) -> bool {
    &&& capture_spans_ordered(st.capture)
    &&& opened_by(st.inflight_global, t)
    &&& forall|j: int|
        0 <= j < st.inflight_task.len() ==> opened_by((#[trigger] st.inflight_task[j]).1, t)
}

proof fn lemma_opened_later(s: Seq<(u32, SpanModel)>, t: u64, u: u64)
    requires
        opened_by(s, t),
        t <= u,
    ensures
        opened_by(s, u),
{
}

proof fn lemma_opened_upsert(s: Seq<(u32, SpanModel)>, k: u32, sp: SpanModel, t: u64)
    requires
        opened_by(s, t),
        sp.start <= t,
    ensures
        opened_by(upsert(s, k, sp), t),
{
    let u = upsert(s, k, sp);
    assert forall|q: int| 0 <= q < u.len() implies (#[trigger] u[q]).1.start <= t by {
        if has_key(s, k) {
            if q != key_index(s, k) {
                assert(u[q] == s[q]);
            }
        } else if q < s.len() {
            assert(u[q] == s[q]);
        }
    }
}

proof fn lemma_opened_remove(s: Seq<(u32, SpanModel)>, k: u32, t: u64)
    requires
        opened_by(s, t),
    ensures
        opened_by(crate::entries::remove_key(s, k), t),
{
    let u = crate::entries::remove_key(s, k);
    if has_key(s, k) {
        let i = key_index(s, k);
        assert forall|q: int| 0 <= q < u.len() implies (#[trigger] u[q]).1.start <= t by {
            if q < i {
                assert(u[q] == s[q]);
            } else {
                assert(u[q] == s[q + 1]);
            }
        }
    }
}

proof fn lemma_opened_value_or(
    it: Seq<(u32, Seq<(u32, SpanModel)>)>,
    k: u32,
    t: u64,
)
    requires
        forall|j: int| 0 <= j < it.len() ==> opened_by((#[trigger] it[j]).1, t),
    ensures
        opened_by(value_or(it, k, Seq::empty()), t),
{
    if has_key(it, k) {
        let i = key_index(it, k);
        assert(opened_by(it[i].1, t));
    }
}

proof fn lemma_inflight_upsert(
    it: Seq<(u32, Seq<(u32, SpanModel)>)>,
    k: u32,
    v: Seq<(u32, SpanModel)>,
    t: u64,
)
    requires
        forall|j: int| 0 <= j < it.len() ==> opened_by((#[trigger] it[j]).1, t),
        opened_by(v, t),
    ensures
        forall|j: int|
            0 <= j < upsert(it, k, v).len() ==> opened_by((#[trigger] upsert(it, k, v)[j]).1, t),
{
    let u = upsert(it, k, v);
    assert forall|j: int| 0 <= j < u.len() implies opened_by((#[trigger] u[j]).1, t) by {
        if has_key(it, k) {
            if j != key_index(it, k) {
                assert(u[j] == it[j]);
            }
        } else if j < it.len() {
            assert(u[j] == it[j]);
        }
    }
}

proof fn lemma_tasks_upsert(
    tasks: Seq<(u32, crate::types::TaskModel)>,
    k: u32,
    v: crate::types::TaskModel,
)
    requires
        forall|j: int| 0 <= j < tasks.len() ==> spans_ordered((#[trigger] tasks[j]).1.spans),
        spans_ordered(v.spans),
    ensures
        forall|j: int|
            0 <= j < upsert(tasks, k, v).len() ==> spans_ordered(
                (#[trigger] upsert(tasks, k, v)[j]).1.spans,
            ),
{
    let u = upsert(tasks, k, v);
    assert forall|j: int| 0 <= j < u.len() implies spans_ordered((#[trigger] u[j]).1.spans) by {
        if has_key(tasks, k) {
            if j != key_index(tasks, k) {
                assert(u[j] == tasks[j]);
            }
        } else if j < tasks.len() {
            assert(u[j] == tasks[j]);
        }
    }
}

proof fn lemma_spans_inv_step(st: ParseModel, e: Event, t: u64)
    requires
        spans_inv(st, t),
        t <= e.timestamp,
    ensures
        spans_inv(step(st, e), e.timestamp),
{
    let ts = e.timestamp;
    lemma_opened_later(st.inflight_global, t, ts);
    assert forall|j: int| 0 <= j < st.inflight_task.len() implies opened_by(
        (#[trigger] st.inflight_task[j]).1,
        ts,
    ) by {
        lemma_opened_later(st.inflight_task[j].1, t, ts);
    }
    match e.kind {
        EventKind::Global(g) => {
            match g {
                GlobalEvent::SpanStart { name, id } => {
                    lemma_opened_upsert(
                        st.inflight_global,
                        id,
                        SpanModel { name: name@, start: ts, end: 0 },
                        ts,
                    );
                },
                GlobalEvent::SpanEnd { id } => {
                    lemma_opened_remove(st.inflight_global, id, ts);
                    let c2 = step(st, e).capture;
                    if has_key(st.inflight_global, id) {
                        let i = key_index(st.inflight_global, id);
                        assert(st.inflight_global[i].1.start <= ts);
                        assert(spans_ordered(c2.global_spans));
                    }
                },
                _ => {},
            }
            assert(capture_spans_ordered(step(st, e).capture));
        },
        EventKind::Executor(x) => {},
        EventKind::Task(te) => {
            let c = st.capture;
            let task0 = value_or(c.tasks, te.task_id, empty_task());
            let infl0 = value_or(st.inflight_task, te.task_id, Seq::empty());
            lemma_opened_value_or(st.inflight_task, te.task_id, ts);
            assert(spans_ordered(task0.spans)) by {
                if has_key(c.tasks, te.task_id) {
                    let i = key_index(c.tasks, te.task_id);
                    assert(spans_ordered(c.tasks[i].1.spans));
                }
            }
            let r = task_step(task0, infl0, te.kind, ts);
            match te.kind {
                TaskEventKind::SpanStart { name, id } => {
                    lemma_opened_upsert(infl0, id, SpanModel { name: name@, start: ts, end: 0 }, ts);
                },
                TaskEventKind::SpanEnd { id } => {
                    lemma_opened_remove(infl0, id, ts);
                    if has_key(infl0, id) {
                        let i = key_index(infl0, id);
                        assert(infl0[i].1.start <= ts);
                    }
                },
                _ => {},
            }
            assert(spans_ordered(r.0.spans));
            assert(opened_by(r.1, ts));
            lemma_tasks_upsert(c.tasks, te.task_id, r.0);
            lemma_inflight_upsert(st.inflight_task, te.task_id, r.1, ts);
            assert(step(st, e) == task_event_step(st, te, ts));
        },
    }
}

proof fn lemma_run_spans_inv(events: Seq<Event>)
    requires
        timestamps_ordered(events),
    ensures
        spans_inv(run(events), last_timestamp(events)),
    decreases events.len(),
{
    if events.len() > 0 {
        let prefix = events.drop_last();
        assert(timestamps_ordered(prefix)) by {
            assert forall|i: int, j: int| 0 <= i <= j < prefix.len() implies #[trigger] prefix[i].timestamp
                <= #[trigger] prefix[j].timestamp by {
                assert(prefix[i] == events[i] && prefix[j] == events[j]);
            }
        }
        lemma_run_spans_inv(prefix);
        if prefix.len() > 0 {
            assert(prefix.last() == events[events.len() - 2]);
            assert(events[events.len() - 2].timestamp <= events[events.len() - 1].timestamp);
        }
        lemma_spans_inv_step(run(prefix), events.last(), last_timestamp(prefix));
    } else {
        assert(spans_inv(run(events), 0));
    }
}

/// When the events come in the order of their timestamps, no span of the
/// capture ends before it starts: closed spans end at their `SpanEnd`, and
/// spans still open end with the last event.
pub proof fn law_spans_end_after_start(events: Seq<Event>)
    requires
        timestamps_ordered(events),
    ensures
        capture_spans_ordered(capture_of(events)),
{
    lemma_run_spans_inv(events);
    let st = run(events);
    let end = last_timestamp(events);
    let c = capture_of(events);
    assert(spans_ordered(c.global_spans)) by {
        assert forall|j: int| 0 <= j < c.global_spans.len() implies (#[trigger] c.global_spans[j]).start
            <= c.global_spans[j].end by {
            if j >= st.capture.global_spans.len() {
                let q = j - st.capture.global_spans.len();
                assert(st.inflight_global[q].1.start <= end);
            }
        }
    }
    assert forall|j: int| 0 <= j < c.tasks.len() implies spans_ordered((#[trigger] c.tasks[j]).1.spans) by {
        let tid = st.capture.tasks[j].0;
        let open = value_or(st.inflight_task, tid, Seq::empty());
        lemma_opened_value_or(st.inflight_task, tid, end);
        assert(spans_ordered(st.capture.tasks[j].1.spans));
        let sp = c.tasks[j].1.spans;
        assert forall|q: int| 0 <= q < sp.len() implies (#[trigger] sp[q]).start <= sp[q].end by {
            let n0 = st.capture.tasks[j].1.spans.len();
            if q >= n0 {
                assert(open[q - n0].1.start <= end);
            }
        }
    }
}


/// `b` continues `a`: `a` is a prefix of `b`.
pub open spec fn extends<T>(a: Seq<T>, b: Seq<T>) -> bool {
    a.len() <= b.len() && a =~= b.take(a.len() as int)
}

/// Every task and executor of `before` is in `after`, and its state timeline
/// in `after` continues the one in `before`.
pub open spec fn timelines_extend(before: CaptureModel, after: CaptureModel) -> bool {
    &&& forall|k: u32|
        has_key(before.tasks, k) ==> #[trigger] has_key(after.tasks, k) && extends(
            value_or(before.tasks, k, empty_task()).states,
            value_or(after.tasks, k, empty_task()).states,
        )
    &&& forall|x: u32|
        has_key(before.executor_states, x) ==> #[trigger] has_key(after.executor_states, x)
            && extends(
            value_or(before.executor_states, x, Seq::empty()),
            value_or(after.executor_states, x, Seq::empty()),
        )
}

proof fn lemma_extends_trans<T>(a: Seq<T>, b: Seq<T>, c: Seq<T>)
    requires
        extends(a, b),
        extends(b, c),
    ensures
        extends(a, c),
{
    assert(a =~= c.take(a.len() as int));
}

proof fn lemma_extends_push<T>(a: Seq<T>, x: T)
    ensures
        extends(a, a.push(x)),
        extends(a, a),
{
    assert(a =~= a.push(x).take(a.len() as int));
    assert(a =~= a.take(a.len() as int));
}

pub proof fn lemma_run_keys_distinct(events: Seq<Event>)
    ensures
        crate::entries::keys_distinct(run(events).capture.tasks),
        crate::entries::keys_distinct(run(events).capture.executor_states),
    decreases events.len(),
{
    if events.len() > 0 {
        lemma_run_keys_distinct(events.drop_last());
        let st = run(events.drop_last());
        let e = events.last();
        match e.kind {
            EventKind::Global(g) => {},
            EventKind::Executor(x) => {
                crate::entries::lemma_upsert(
                    st.capture.executor_states,
                    x.executor_id,
                    crate::capture_model::executor_trace_step(
                        value_or(st.capture.executor_states, x.executor_id, Seq::empty()),
                        x.kind,
                        e.timestamp,
                    ),
                );
            },
            EventKind::Task(t) => {
                let ex_of = crate::capture_model::executor_of_step(st.executor_of, t);
                if ex_of.contains_key(t.task_id) {
                    let x = ex_of[t.task_id];
                    crate::entries::lemma_upsert(
                        st.capture.executor_states,
                        x,
                        crate::capture_model::task_executor_step(
                            value_or(st.capture.executor_states, x, Seq::empty()),
                            t.task_id,
                            t.kind,
                            e.timestamp,
                        ),
                    );
                }
                let r = task_step(
                    value_or(st.capture.tasks, t.task_id, empty_task()),
                    value_or(st.inflight_task, t.task_id, Seq::empty()),
                    t.kind,
                    e.timestamp,
                );
                crate::entries::lemma_upsert(st.capture.tasks, t.task_id, r.0);
            },
        }
    }
}

proof fn lemma_executor_upsert_extends(
    es: Seq<(u32, Seq<TimedValue<ExecutorState>>)>,
    x: u32,
    v: Seq<TimedValue<ExecutorState>>,
)
    requires
        crate::entries::keys_distinct(es),
        extends(value_or(es, x, Seq::empty()), v),
    ensures
        forall|y: u32|
            has_key(es, y) ==> #[trigger] has_key(upsert(es, x, v), y) && extends(
                value_or(es, y, Seq::empty()),
                value_or(upsert(es, x, v), y, Seq::empty()),
            ),
{
    crate::entries::lemma_upsert(es, x, v);
    assert forall|y: u32| has_key(es, y) implies #[trigger] has_key(upsert(es, x, v), y) && extends(
        value_or(es, y, Seq::empty()),
        value_or(upsert(es, x, v), y, Seq::empty()),
    ) by {
        if y != x {
            lemma_extends_push(value_or(es, y, Seq::empty()), TimedValue { timestamp: 0, state: ExecutorState::Idle });
        }
    }
}

proof fn lemma_started_extends(t: Seq<TimedValue<ExecutorState>>, ts: u64)
    ensures
        extends(t, started(t, ts)),
{
    if t.len() == 0 {
        assert(t =~= started(t, ts).take(0));
    } else {
        assert(t =~= started(t, ts).take(t.len() as int));
    }
}

proof fn lemma_step_extends(st: ParseModel, e: Event)
    requires
        crate::entries::keys_distinct(st.capture.tasks),
        crate::entries::keys_distinct(st.capture.executor_states),
    ensures
        timelines_extend(st.capture, step(st, e).capture),
{
    let c = st.capture;
    let ts = e.timestamp;
    assert forall|k: u32| has_key(c.tasks, k) implies extends(
        value_or(c.tasks, k, empty_task()).states,
        value_or(c.tasks, k, empty_task()).states,
    ) by {
        lemma_extends_push(value_or(c.tasks, k, empty_task()).states, TimedValue { timestamp: 0, state: TaskState::End });
    }
    assert forall|x: u32| has_key(c.executor_states, x) implies extends(
        value_or(c.executor_states, x, Seq::empty()),
        value_or(c.executor_states, x, Seq::empty()),
    ) by {
        lemma_extends_push(value_or(c.executor_states, x, Seq::empty()), TimedValue { timestamp: 0, state: ExecutorState::Idle });
    }
    match e.kind {
        EventKind::Global(g) => {},
        EventKind::Executor(x) => {
            let t = value_or(c.executor_states, x.executor_id, Seq::empty());
            lemma_started_extends(t, ts);
            let v = crate::capture_model::executor_trace_step(t, x.kind, ts);
            lemma_extends_push(started(t, ts), v.last());
            assert(v =~= started(t, ts).push(v.last()));
            lemma_extends_trans(t, started(t, ts), v);
            lemma_executor_upsert_extends(c.executor_states, x.executor_id, v);
        },
        EventKind::Task(te) => {
            let ex_of = crate::capture_model::executor_of_step(st.executor_of, te);
            if ex_of.contains_key(te.task_id) {
                let x = ex_of[te.task_id];
                let t = value_or(c.executor_states, x, Seq::empty());
                lemma_started_extends(t, ts);
                let v = crate::capture_model::task_executor_step(t, te.task_id, te.kind, ts);
                if v.len() > started(t, ts).len() {
                    lemma_extends_push(started(t, ts), v.last());
                    assert(v =~= started(t, ts).push(v.last()));
                    lemma_extends_trans(t, started(t, ts), v);
                }
                lemma_executor_upsert_extends(c.executor_states, x, v);
            }
            let old_task = value_or(c.tasks, te.task_id, empty_task());
            let r = task_step(
                old_task,
                value_or(st.inflight_task, te.task_id, Seq::empty()),
                te.kind,
                ts,
            );
            let new_states = crate::capture_model::task_states_step(old_task.states, te.kind, ts);
            assert(r.0.states == new_states);
            lemma_extends_push(old_task.states, TimedValue { timestamp: ts, state: TaskState::End });
            if new_states.len() > old_task.states.len() {
                lemma_extends_push(old_task.states, new_states.last());
                assert(new_states =~= old_task.states.push(new_states.last()));
            } else {
                assert(new_states == old_task.states);
            }
            crate::entries::lemma_upsert(c.tasks, te.task_id, r.0);
            assert forall|k: u32| has_key(c.tasks, k) implies #[trigger] has_key(
                upsert(c.tasks, te.task_id, r.0),
                k,
            ) && extends(
                value_or(c.tasks, k, empty_task()).states,
                value_or(upsert(c.tasks, te.task_id, r.0), k, empty_task()).states,
            ) by {
                if k != te.task_id {
                    lemma_extends_push(value_or(c.tasks, k, empty_task()).states, TimedValue { timestamp: ts, state: TaskState::End });
                }
            }
        },
    }
}

proof fn lemma_timelines_extend_trans(a: CaptureModel, b: CaptureModel, c: CaptureModel)
    requires
        timelines_extend(a, b),
        timelines_extend(b, c),
    ensures
        timelines_extend(a, c),
{
    assert forall|k: u32| has_key(a.tasks, k) implies #[trigger] has_key(c.tasks, k) && extends(
        value_or(a.tasks, k, empty_task()).states,
        value_or(c.tasks, k, empty_task()).states,
    ) by {
        assert(has_key(b.tasks, k));
        lemma_extends_trans(
            value_or(a.tasks, k, empty_task()).states,
            value_or(b.tasks, k, empty_task()).states,
            value_or(c.tasks, k, empty_task()).states,
        );
    }
    assert forall|x: u32| has_key(a.executor_states, x) implies #[trigger] has_key(
        c.executor_states,
        x,
    ) && extends(
        value_or(a.executor_states, x, Seq::empty()),
        value_or(c.executor_states, x, Seq::empty()),
    ) by {
        assert(has_key(b.executor_states, x));
        lemma_extends_trans(
            value_or(a.executor_states, x, Seq::empty()),
            value_or(b.executor_states, x, Seq::empty()),
            value_or(c.executor_states, x, Seq::empty()),
        );
    }
}

proof fn lemma_timelines_extend_refl(a: CaptureModel)
    ensures
        timelines_extend(a, a),
{
    assert forall|k: u32| has_key(a.tasks, k) implies #[trigger] has_key(a.tasks, k) && extends(
        value_or(a.tasks, k, empty_task()).states,
        value_or(a.tasks, k, empty_task()).states,
    ) by {
        lemma_extends_push(value_or(a.tasks, k, empty_task()).states, TimedValue { timestamp: 0, state: TaskState::End });
    }
    assert forall|x: u32| has_key(a.executor_states, x) implies #[trigger] has_key(
        a.executor_states,
        x,
    ) && extends(
        value_or(a.executor_states, x, Seq::empty()),
        value_or(a.executor_states, x, Seq::empty()),
    ) by {
        lemma_extends_push(value_or(a.executor_states, x, Seq::empty()), TimedValue { timestamp: 0, state: ExecutorState::Idle });
    }
}

proof fn lemma_run_extends(a: Seq<Event>, b: Seq<Event>)
    ensures
        timelines_extend(run(a).capture, run(a + b).capture),
    decreases b.len(),
{
    if b.len() == 0 {
        assert(a + b =~= a);
        lemma_timelines_extend_refl(run(a).capture);
    } else {
        lemma_run_extends(a, b.drop_last());
        assert((a + b).drop_last() =~= a + b.drop_last());
        assert((a + b).last() == b.last());
        lemma_run_keys_distinct(a + b.drop_last());
        lemma_step_extends(run(a + b.drop_last()), b.last());
        lemma_timelines_extend_trans(
            run(a).capture,
            run(a + b.drop_last()).capture,
            run(a + b).capture,
        );
    }
}

/// Timelines only grow: after more events, every task and executor seen
/// before is still there, and its state timeline continues the earlier one.
pub proof fn law_timelines_only_grow(a: Seq<Event>, b: Seq<Event>)
    ensures
        timelines_extend(capture_of(a), capture_of(a + b)),
{
    lemma_run_extends(a, b);
    let ca = capture_of(a);
    let cab = capture_of(a + b);
    let ra = run(a).capture;
    let rab = run(a + b).capture;
    assert forall|k: u32| has_key(ca.tasks, k) implies #[trigger] has_key(cab.tasks, k) && extends(
        value_or(ca.tasks, k, empty_task()).states,
        value_or(cab.tasks, k, empty_task()).states,
    ) by {
        let i = key_index(ca.tasks, k);
        assert(ca.tasks[i].0 == ra.tasks[i].0);
        assert(has_key(ra.tasks, k));
        assert(has_key(rab.tasks, k));
        let j = key_index(rab.tasks, k);
        assert(rab.tasks[j].0 == k);
        assert(cab.tasks[j].0 == k);
        lemma_run_keys_distinct(a);
        lemma_run_keys_distinct(a + b);
        assert(ca.tasks.len() == ra.tasks.len());
        assert(crate::entries::keys_distinct(ca.tasks)) by {
            assert forall|p: int, q: int|
                0 <= p < ca.tasks.len() && 0 <= q < ca.tasks.len() && p != q implies #[trigger] ca.tasks[p].0
                != #[trigger] ca.tasks[q].0 by {
                assert(ca.tasks[p].0 == ra.tasks[p].0 && ca.tasks[q].0 == ra.tasks[q].0);
            }
        }
        assert(crate::entries::keys_distinct(cab.tasks)) by {
            assert forall|p: int, q: int|
                0 <= p < cab.tasks.len() && 0 <= q < cab.tasks.len() && p != q implies #[trigger] cab.tasks[p].0
                != #[trigger] cab.tasks[q].0 by {
                assert(cab.tasks[p].0 == rab.tasks[p].0 && cab.tasks[q].0 == rab.tasks[q].0);
            }
        }
        crate::entries::lemma_key_index_unique(ca.tasks, k, i);
        crate::entries::lemma_key_index_unique(rab.tasks, k, j);
        crate::entries::lemma_key_index_unique(cab.tasks, k, j);
    }
}


/// Whether the event touches executor `x` in the given analysis state: an
/// event of `x` itself, or an event of a task whose first spawn was on `x`.
pub open spec fn touches_executor(st: ParseModel, e: Event, x: u32) -> bool {
    match e.kind {
        EventKind::Executor(xe) => xe.executor_id == x,
        EventKind::Task(t) => {
            let m = crate::capture_model::executor_of_step(st.executor_of, t);
            m.contains_key(t.task_id) && m[t.task_id] == x
        },
        _ => false,
    }
}

/// The timestamp of the first event that touches executor `x`, if any.
pub open spec fn first_touch(events: Seq<Event>, x: u32) -> Option<u64>
    decreases events.len(),
{
    if events.len() == 0 {
        None
    } else {
        match first_touch(events.drop_last(), x) {
            Some(t) => Some(t),
            None => if touches_executor(run(events.drop_last()), events.last(), x) {
                Some(events.last().timestamp)
            } else {
                None
            },
        }
    }
}

proof fn lemma_run_first_touch(events: Seq<Event>, x: u32)
    ensures
        has_key(run(events).capture.executor_states, x) <==> first_touch(events, x) is Some,
        first_touch(events, x) matches Some(t) ==> value_or(
            run(events).capture.executor_states,
            x,
            Seq::empty(),
        )[0] == (TimedValue { timestamp: t, state: ExecutorState::Idle }),
    decreases events.len(),
{
    if events.len() > 0 {
        let prefix = events.drop_last();
        lemma_run_first_touch(prefix, x);
        lemma_run_keys_distinct(prefix);
        lemma_run_executors_start_idle(prefix);
        let st = run(prefix);
        let e = events.last();
        let es = st.capture.executor_states;
        let es2 = step(st, e).capture.executor_states;
        lemma_step_extends(st, e);
        if has_key(es, x) {
            let i = key_index(es, x);
            assert(es[i].1.len() > 0);
            assert(has_key(es2, x));
            let old_v = value_or(es, x, Seq::empty());
            let new_v = value_or(es2, x, Seq::empty());
            assert(extends(old_v, new_v));
            assert(new_v[0] == new_v.take(old_v.len() as int)[0]);
        } else {
            let ts = e.timestamp;
            match e.kind {
                EventKind::Global(g) => {},
                EventKind::Executor(xe) => {
                    let v = crate::capture_model::executor_trace_step(
                        value_or(es, xe.executor_id, Seq::empty()),
                        xe.kind,
                        ts,
                    );
                    crate::entries::lemma_upsert(es, xe.executor_id, v);
                },
                EventKind::Task(t) => {
                    let m = crate::capture_model::executor_of_step(st.executor_of, t);
                    if m.contains_key(t.task_id) {
                        let y = m[t.task_id];
                        let v = crate::capture_model::task_executor_step(
                            value_or(es, y, Seq::empty()),
                            t.task_id,
                            t.kind,
                            ts,
                        );
                        crate::entries::lemma_upsert(es, y, v);
                    }
                },
            }
        }
    }
}

/// An executor is in the capture exactly when some event touched it, and its
/// timeline starts with `Idle` at the tick of the first such event.
pub proof fn law_executor_timeline_starts_at_first_touch(events: Seq<Event>, x: u32)
    ensures
        has_key(capture_of(events).executor_states, x) <==> first_touch(events, x) is Some,
        first_touch(events, x) matches Some(t) ==> value_or(
            capture_of(events).executor_states,
            x,
            Seq::empty(),
        )[0] == (TimedValue { timestamp: t, state: ExecutorState::Idle }),
{
    lemma_run_first_touch(events, x);
}

} // verus!
