//! Which spans an analysis records: a span runs from the event that starts it
//! to the event that ends it, or to the last event of the stream when nothing
//! ends it.

use vstd::prelude::*;
use crate::capture_model::{
    capture_of, close_spans, ended, last_timestamp, run, step, task_step, ParseModel,
};
use crate::entries::{
    has_key, key_index, keys_distinct, lemma_remove_key, lemma_same_keys, lemma_upsert, same_keys,
    upsert, value_or,
};
use crate::events::{Event, EventKind, GlobalEvent, TaskEventKind};
use crate::types::{empty_task, SpanModel};

verus! {

/// Whether the event starts or ends the global span `id`.
pub open spec fn touches_global_span(e: Event, id: u32) -> bool {
    match e.kind {
        EventKind::Global(GlobalEvent::SpanStart { id: i, .. }) => i == id,
        EventKind::Global(GlobalEvent::SpanEnd { id: i }) => i == id,
        _ => false,
    }
}

/// Every open-span table of the tasks has distinct span ids.
pub open spec fn inner_distinct(s: Seq<(u32, Seq<(u32, SpanModel)>)>) -> bool {
    forall|j: int| 0 <= j < s.len() ==> keys_distinct(#[trigger] s[j].1)
}

proof fn lemma_inner_value_or(s: Seq<(u32, Seq<(u32, SpanModel)>)>, k: u32)
    requires
        inner_distinct(s),
    ensures
        keys_distinct(value_or(s, k, Seq::empty())),
{
    if has_key(s, k) {
        assert(keys_distinct(s[key_index(s, k)].1));
    }
}

proof fn lemma_inner_upsert(s: Seq<(u32, Seq<(u32, SpanModel)>)>, k: u32, v: Seq<(u32, SpanModel)>)
    requires
        inner_distinct(s),
        keys_distinct(v),
    ensures
        inner_distinct(upsert(s, k, v)),
{
    let u = upsert(s, k, v);
    assert forall|j: int| 0 <= j < u.len() implies keys_distinct(#[trigger] u[j].1) by {
        if has_key(s, k) {
            if j != key_index(s, k) {
                assert(u[j] == s[j]);
            }
        } else if j < s.len() {
            assert(u[j] == s[j]);
        }
    }
}

/// The open-span tables of an analysis have distinct keys.
pub open spec fn inflight_distinct(st: ParseModel) -> bool {
    &&& keys_distinct(st.inflight_global)
    &&& keys_distinct(st.inflight_task)
    &&& inner_distinct(st.inflight_task)
}

proof fn lemma_run_inflight_distinct(events: Seq<Event>)
    ensures
        inflight_distinct(run(events)),
    decreases events.len(),
{
    if events.len() > 0 {
        lemma_run_inflight_distinct(events.drop_last());
        let st = run(events.drop_last());
        let e = events.last();
        match e.kind {
            EventKind::Global(GlobalEvent::SpanStart { name, id }) => {
                lemma_upsert(
                    st.inflight_global,
                    id,
                    SpanModel { name: name@, start: e.timestamp, end: 0 },
                );
            },
            EventKind::Global(GlobalEvent::SpanEnd { id }) => {
                lemma_remove_key(st.inflight_global, id);
            },
            EventKind::Task(t) => {
                let cur = value_or(st.inflight_task, t.task_id, Seq::empty());
                lemma_inner_value_or(st.inflight_task, t.task_id);
                match t.kind {
                    TaskEventKind::SpanStart { name, id } => {
                        lemma_upsert(cur, id, SpanModel { name: name@, start: e.timestamp, end: 0 });
                    },
                    TaskEventKind::SpanEnd { id } => {
                        lemma_remove_key(cur, id);
                    },
                    _ => {},
                }
                let r = task_step(
                    value_or(st.capture.tasks, t.task_id, empty_task()),
                    cur,
                    t.kind,
                    e.timestamp,
                );
                lemma_upsert(st.inflight_task, t.task_id, r.1);
                lemma_inner_upsert(st.inflight_task, t.task_id, r.1);
            },
            _ => {},
        }
    }
}

/// The global span `id` is open with the given contents.
pub open spec fn global_open(st: ParseModel, id: u32, sp: SpanModel) -> bool {
    has_key(st.inflight_global, id) && st.inflight_global[key_index(st.inflight_global, id)].1
        == sp
}

proof fn lemma_global_open_step(st: ParseModel, e: Event, id: u32, sp: SpanModel)
    requires
        inflight_distinct(st),
        global_open(st, id, sp),
        !touches_global_span(e, id),
    ensures
        global_open(step(st, e), id, sp),
{
    let s = st.inflight_global;
    assert(value_or(s, id, sp) == sp);
    match e.kind {
        EventKind::Global(GlobalEvent::SpanStart { name, id: i }) => {
            let v = SpanModel { name: name@, start: e.timestamp, end: 0 };
            lemma_upsert(s, i, v);
            assert(value_or(upsert(s, i, v), id, sp) == sp);
        },
        EventKind::Global(GlobalEvent::SpanEnd { id: i }) => {
            lemma_remove_key(s, i);
            if has_key(s, i) {
                assert(value_or(crate::entries::remove_key(s, i), id, sp) == sp);
            }
        },
        _ => {},
    }
}

/// After a start of global span `id` and events that neither start nor end it, the span is open.
proof fn lemma_global_open_after(events: Seq<Event>, i: int, n: int)
    requires
        0 <= i < n <= events.len(),
        events[i].kind is Global,
        events[i].kind->Global_0 is SpanStart,
        forall|m: int|
            i < m < n ==> !touches_global_span(
                #[trigger] events[m],
                events[i].kind->Global_0->SpanStart_id,
            ),
    ensures
        global_open(
            run(events.take(n)),
            events[i].kind->Global_0->SpanStart_id,
            SpanModel {
                name: events[i].kind->Global_0->SpanStart_name@,
                start: events[i].timestamp,
                end: 0,
            },
        ),
    decreases n,
{
    let id = events[i].kind->Global_0->SpanStart_id;
    let sp = SpanModel {
        name: events[i].kind->Global_0->SpanStart_name@,
        start: events[i].timestamp,
        end: 0,
    };
    assert(events.take(n).drop_last() =~= events.take(n - 1));
    assert(events.take(n).last() == events[n - 1]);
    lemma_run_inflight_distinct(events.take(n - 1));
    let st = run(events.take(n - 1));
    if n == i + 1 {
        lemma_upsert(st.inflight_global, id, sp);
        assert(value_or(upsert(st.inflight_global, id, sp), id, sp) == sp);
    } else {
        lemma_global_open_after(events, i, n - 1);
        lemma_global_open_step(st, events[n - 1], id, sp);
    }
}

/// The spans of `a` are a prefix of those of `b`.
pub open spec fn spans_prefix(a: Seq<SpanModel>, b: Seq<SpanModel>) -> bool {
    a.len() <= b.len() && forall|q: int| 0 <= q < a.len() ==> b[q] == #[trigger] a[q]
}

proof fn lemma_global_spans_grow(events: Seq<Event>, n: int, m: int)
    requires
        0 <= n <= m <= events.len(),
    ensures
        spans_prefix(
            run(events.take(n)).capture.global_spans,
            run(events.take(m)).capture.global_spans,
        ),
    decreases m,
{
    if m > n {
        lemma_global_spans_grow(events, n, m - 1);
        assert(events.take(m).drop_last() =~= events.take(m - 1));
        let a = run(events.take(n)).capture.global_spans;
        let b = run(events.take(m - 1)).capture.global_spans;
        let c = run(events.take(m)).capture.global_spans;
        assert(c == b || c == b.push(c.last()));
        assert forall|q: int| 0 <= q < a.len() implies c[q] == #[trigger] a[q] by {
            assert(b[q] == a[q]);
        }
    }
}

/// A global span that one event starts and a later event ends, with no start
/// or end of the same span id between them, is recorded with the name that
/// the start gave it, the start's tick and the end's tick.
pub proof fn law_global_span_recorded(events: Seq<Event>, i: int, j: int)
    requires
        0 <= i < j < events.len(),
        events[i].kind is Global,
        events[i].kind->Global_0 is SpanStart,
        events[j].kind is Global,
        events[j].kind->Global_0 is SpanEnd,
        events[j].kind->Global_0->SpanEnd_id == events[i].kind->Global_0->SpanStart_id,
        forall|m: int|
            i < m < j ==> !touches_global_span(
                #[trigger] events[m],
                events[i].kind->Global_0->SpanStart_id,
            ),
    ensures
        capture_of(events).global_spans.contains(
            SpanModel {
                name: events[i].kind->Global_0->SpanStart_name@,
                start: events[i].timestamp,
                end: events[j].timestamp,
            },
        ),
{
    let id = events[i].kind->Global_0->SpanStart_id;
    let sp = SpanModel {
        name: events[i].kind->Global_0->SpanStart_name@,
        start: events[i].timestamp,
        end: 0,
    };
    lemma_global_open_after(events, i, j);
    assert(events.take(j + 1).drop_last() =~= events.take(j));
    assert(events.take(j + 1).last() == events[j]);
    let closed = run(events.take(j + 1)).capture.global_spans;
    assert(closed == run(events.take(j)).capture.global_spans.push(ended(sp, events[j].timestamp)));
    lemma_global_spans_grow(events, j + 1, events.len() as int);
    assert(events.take(events.len() as int) =~= events);
    let all = capture_of(events).global_spans;
    let q = closed.len() - 1;
    assert(all[q] == closed[q]);
}

/// A global span that is started and then never started again nor ended is
/// recorded as ending at the tick of the stream's last event.
pub proof fn law_open_global_span_ends_with_stream(events: Seq<Event>, i: int)
    requires
        0 <= i < events.len(),
        events[i].kind is Global,
        events[i].kind->Global_0 is SpanStart,
        forall|m: int|
            i < m < events.len() ==> !touches_global_span(
                #[trigger] events[m],
                events[i].kind->Global_0->SpanStart_id,
            ),
    ensures
        capture_of(events).global_spans.contains(
            SpanModel {
                name: events[i].kind->Global_0->SpanStart_name@,
                start: events[i].timestamp,
                end: events.last().timestamp,
            },
        ),
{
    let id = events[i].kind->Global_0->SpanStart_id;
    lemma_global_open_after(events, i, events.len() as int);
    assert(events.take(events.len() as int) =~= events);
    let st = run(events);
    let all = capture_of(events).global_spans;
    let q = st.capture.global_spans.len() + key_index(st.inflight_global, id);
    assert(all[q] == ended(st.inflight_global[key_index(st.inflight_global, id)].1, events.last().timestamp));
}

/// Whether the event starts or ends span `id` of task `k`.
pub open spec fn touches_task_span(e: Event, k: u32, id: u32) -> bool {
    match e.kind {
        EventKind::Task(t) => t.task_id == k && match t.kind {
            TaskEventKind::SpanStart { id: i, .. } => i == id,
            TaskEventKind::SpanEnd { id: i } => i == id,
            _ => false,
        },
        _ => false,
    }
}

/// Span `id` of task `k` is open with the given contents, and the task is known.
pub open spec fn task_open(st: ParseModel, k: u32, id: u32, sp: SpanModel) -> bool {
    let s = value_or(st.inflight_task, k, Seq::empty());
    &&& has_key(s, id)
    &&& s[key_index(s, id)].1 == sp
    &&& has_key(st.capture.tasks, k)
}

proof fn lemma_task_open_step(st: ParseModel, e: Event, k: u32, id: u32, sp: SpanModel)
    requires
        inflight_distinct(st),
        keys_distinct(st.capture.tasks),
        task_open(st, k, id, sp),
        !touches_task_span(e, k, id),
    ensures
        task_open(step(st, e), k, id, sp),
{
    if let EventKind::Task(t) = e.kind {
        let cur = value_or(st.inflight_task, t.task_id, Seq::empty());
        lemma_inner_value_or(st.inflight_task, t.task_id);
        let r = task_step(
            value_or(st.capture.tasks, t.task_id, empty_task()),
            cur,
            t.kind,
            e.timestamp,
        );
        lemma_upsert(st.inflight_task, t.task_id, r.1);
        lemma_upsert(st.capture.tasks, t.task_id, r.0);
        if t.task_id == k {
            assert(value_or(cur, id, sp) == sp);
            match t.kind {
                TaskEventKind::SpanStart { name, id: i } => {
                    lemma_upsert(cur, i, SpanModel { name: name@, start: e.timestamp, end: 0 });
                    assert(value_or(r.1, id, sp) == sp);
                },
                TaskEventKind::SpanEnd { id: i } => {
                    lemma_remove_key(cur, i);
                    if has_key(cur, i) {
                        assert(value_or(r.1, id, sp) == sp);
                    }
                },
                _ => {},
            }
            assert(value_or(upsert(st.inflight_task, k, r.1), k, Seq::empty()) == r.1);
        }
    }
}

/// After a start of span `id` of task `k` and events that neither start nor
/// end it, the span is open.
proof fn lemma_task_open_after(events: Seq<Event>, i: int, n: int)
    requires
        0 <= i < n <= events.len(),
        events[i].kind is Task,
        events[i].kind->Task_0.kind is SpanStart,
        forall|m: int|
            i < m < n ==> !touches_task_span(
                #[trigger] events[m],
                events[i].kind->Task_0.task_id,
                events[i].kind->Task_0.kind->SpanStart_id,
            ),
    ensures
        task_open(
            run(events.take(n)),
            events[i].kind->Task_0.task_id,
            events[i].kind->Task_0.kind->SpanStart_id,
            SpanModel {
                name: events[i].kind->Task_0.kind->SpanStart_name@,
                start: events[i].timestamp,
                end: 0,
            },
        ),
    decreases n,
{
    let k = events[i].kind->Task_0.task_id;
    let id = events[i].kind->Task_0.kind->SpanStart_id;
    let sp = SpanModel {
        name: events[i].kind->Task_0.kind->SpanStart_name@,
        start: events[i].timestamp,
        end: 0,
    };
    assert(events.take(n).drop_last() =~= events.take(n - 1));
    assert(events.take(n).last() == events[n - 1]);
    lemma_run_inflight_distinct(events.take(n - 1));
    crate::laws::lemma_run_keys_distinct(events.take(n - 1));
    let st = run(events.take(n - 1));
    if n == i + 1 {
        let cur = value_or(st.inflight_task, k, Seq::empty());
        lemma_inner_value_or(st.inflight_task, k);
        lemma_upsert(cur, id, sp);
        let r = task_step(value_or(st.capture.tasks, k, empty_task()), cur, events[i].kind->Task_0.kind, events[i].timestamp);
        assert(r.1 == upsert(cur, id, sp));
        lemma_upsert(st.inflight_task, k, r.1);
        lemma_upsert(st.capture.tasks, k, r.0);
        assert(value_or(upsert(st.inflight_task, k, r.1), k, Seq::empty()) == r.1);
        assert(value_or(r.1, id, sp) == sp);
    } else {
        lemma_task_open_after(events, i, n - 1);
        lemma_task_open_step(st, events[n - 1], k, id, sp);
    }
}

proof fn lemma_task_spans_grow(events: Seq<Event>, k: u32, n: int, m: int)
    requires
        0 <= n <= m <= events.len(),
    ensures
        spans_prefix(
            value_or(run(events.take(n)).capture.tasks, k, empty_task()).spans,
            value_or(run(events.take(m)).capture.tasks, k, empty_task()).spans,
        ),
        has_key(run(events.take(n)).capture.tasks, k) ==> has_key(run(events.take(m)).capture.tasks, k),
    decreases m,
{
    if m > n {
        lemma_task_spans_grow(events, k, n, m - 1);
        assert(events.take(m).drop_last() =~= events.take(m - 1));
        let e = events[m - 1];
        assert(events.take(m).last() == e);
        crate::laws::lemma_run_keys_distinct(events.take(m - 1));
        let st = run(events.take(m - 1));
        let a = value_or(run(events.take(n)).capture.tasks, k, empty_task()).spans;
        let b = value_or(st.capture.tasks, k, empty_task()).spans;
        let c = value_or(run(events.take(m)).capture.tasks, k, empty_task()).spans;
        if let EventKind::Task(t) = e.kind {
            let r = task_step(
                value_or(st.capture.tasks, t.task_id, empty_task()),
                value_or(st.inflight_task, t.task_id, Seq::empty()),
                t.kind,
                e.timestamp,
            );
            lemma_upsert(st.capture.tasks, t.task_id, r.0);
        }
        assert(c == b || c == b.push(c.last()));
        assert forall|q: int| 0 <= q < a.len() implies c[q] == #[trigger] a[q] by {
            assert(b[q] == a[q]);
        }
    }
}

/// At the end of the stream, the open spans of a known task are closed after its closed ones.
proof fn lemma_task_spans_finished(events: Seq<Event>, k: u32)
    requires
        has_key(run(events).capture.tasks, k),
    ensures
        value_or(capture_of(events).tasks, k, empty_task()).spans == value_or(
            run(events).capture.tasks,
            k,
            empty_task(),
        ).spans + close_spans(
            value_or(run(events).inflight_task, k, Seq::empty()),
            last_timestamp(events),
        ),
{
    crate::laws::lemma_run_keys_distinct(events);
    let a = run(events).capture.tasks;
    let b = capture_of(events).tasks;
    assert(same_keys(a, b));
    lemma_same_keys(a, b);
    let i = key_index(a, k);
    assert(b[i].0 == k);
}

/// A span of task `k` that one event starts and a later event of the task
/// ends, with no start or end of the same span id of the task between them,
/// is recorded among the task's spans with the name that the start gave it,
/// the start's tick and the end's tick.
pub proof fn law_task_span_recorded(events: Seq<Event>, i: int, j: int)
    requires
        0 <= i < j < events.len(),
        events[i].kind is Task,
        events[i].kind->Task_0.kind is SpanStart,
        events[j].kind is Task,
        events[j].kind->Task_0.task_id == events[i].kind->Task_0.task_id,
        events[j].kind->Task_0.kind is SpanEnd,
        events[j].kind->Task_0.kind->SpanEnd_id == events[i].kind->Task_0.kind->SpanStart_id,
        forall|m: int|
            i < m < j ==> !touches_task_span(
                #[trigger] events[m],
                events[i].kind->Task_0.task_id,
                events[i].kind->Task_0.kind->SpanStart_id,
            ),
    ensures
        value_or(capture_of(events).tasks, events[i].kind->Task_0.task_id, empty_task()).spans.contains(
            SpanModel {
                name: events[i].kind->Task_0.kind->SpanStart_name@,
                start: events[i].timestamp,
                end: events[j].timestamp,
            },
        ),
{
    let k = events[i].kind->Task_0.task_id;
    let id = events[i].kind->Task_0.kind->SpanStart_id;
    let sp = SpanModel {
        name: events[i].kind->Task_0.kind->SpanStart_name@,
        start: events[i].timestamp,
        end: 0,
    };
    lemma_task_open_after(events, i, j);
    assert(events.take(j + 1).drop_last() =~= events.take(j));
    assert(events.take(j + 1).last() == events[j]);
    lemma_run_inflight_distinct(events.take(j));
    crate::laws::lemma_run_keys_distinct(events.take(j));
    let st = run(events.take(j));
    let cur = value_or(st.inflight_task, k, Seq::empty());
    let r = task_step(value_or(st.capture.tasks, k, empty_task()), cur, events[j].kind->Task_0.kind, events[j].timestamp);
    assert(r.0.spans == value_or(st.capture.tasks, k, empty_task()).spans.push(ended(sp, events[j].timestamp)));
    lemma_upsert(st.capture.tasks, k, r.0);
    let closed = value_or(run(events.take(j + 1)).capture.tasks, k, empty_task()).spans;
    assert(closed == r.0.spans);
    lemma_task_spans_grow(events, k, j + 1, events.len() as int);
    assert(events.take(events.len() as int) =~= events);
    lemma_task_spans_finished(events, k);
    let all = value_or(capture_of(events).tasks, k, empty_task()).spans;
    let q = closed.len() - 1;
    assert(all[q] == closed[q]);
}

/// A span of task `k` that is started and then never started again nor ended
/// is recorded among the task's spans as ending at the tick of the stream's
/// last event.
pub proof fn law_open_task_span_ends_with_stream(events: Seq<Event>, i: int)
    requires
        0 <= i < events.len(),
        events[i].kind is Task,
        events[i].kind->Task_0.kind is SpanStart,
        forall|m: int|
            i < m < events.len() ==> !touches_task_span(
                #[trigger] events[m],
                events[i].kind->Task_0.task_id,
                events[i].kind->Task_0.kind->SpanStart_id,
            ),
    ensures
        value_or(capture_of(events).tasks, events[i].kind->Task_0.task_id, empty_task()).spans.contains(
            SpanModel {
                name: events[i].kind->Task_0.kind->SpanStart_name@,
                start: events[i].timestamp,
                end: events.last().timestamp,
            },
        ),
{
    let k = events[i].kind->Task_0.task_id;
    let id = events[i].kind->Task_0.kind->SpanStart_id;
    lemma_task_open_after(events, i, events.len() as int);
    assert(events.take(events.len() as int) =~= events);
    let st = run(events);
    lemma_task_spans_finished(events, k);
    let open = value_or(st.inflight_task, k, Seq::empty());
    let all = value_or(capture_of(events).tasks, k, empty_task()).spans;
    let q = value_or(st.capture.tasks, k, empty_task()).spans.len() + key_index(open, id);
    assert(all[q] == ended(open[key_index(open, id)].1, events.last().timestamp));
}

} // verus!
