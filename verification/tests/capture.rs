use embedded_perfmon_analyzer::{
    Capture, CheckedEvent, TaskAnomaly, TaskWarning, Event, EventKind, ExecutorEvent, ExecutorEventKind, ExecutorState, GlobalEvent,
    Span, TaskEvent, TaskEventKind, TaskState, TimedValue,
};

fn global(timestamp: u64, g: GlobalEvent) -> Event {
    Event { timestamp, kind: EventKind::Global(g) }
}

fn task(timestamp: u64, task_id: u32, kind: TaskEventKind) -> Event {
    Event { timestamp, kind: EventKind::Task(TaskEvent { task_id, kind }) }
}

fn executor(timestamp: u64, executor_id: u32, kind: ExecutorEventKind) -> Event {
    Event { timestamp, kind: EventKind::Executor(ExecutorEvent { executor_id, kind }) }
}

fn tv<T>(timestamp: u64, state: T) -> TimedValue<T> {
    TimedValue { timestamp, state }
}

fn span(name: &str, start: u64, end: u64) -> Span {
    Span { name: name.to_string(), start, end }
}

#[test]
fn empty_stream_gives_empty_capture() {
    let c = Capture::parse_events(&[]);
    assert_eq!(c.tickrate, 0);
    assert!(c.irq_states.is_empty());
    assert!(c.global_markers.is_empty());
    assert!(c.global_spans.is_empty());
    assert!(c.executor_states.is_empty());
    assert!(c.tasks.is_empty());
}

#[test]
fn task_life_cycle() {
    let events = vec![
        global(0, GlobalEvent::TickRate { rate: 1000 }),
        task(1, 1, TaskEventKind::TaskNew { executor_id: 7 }),
        task(2, 1, TaskEventKind::TaskReadyBegin),
        task(3, 1, TaskEventKind::TaskExecBegin),
        task(4, 1, TaskEventKind::TaskReadyBegin),
        task(5, 1, TaskEventKind::TaskExecEnd),
        task(6, 1, TaskEventKind::TaskEnd),
    ];
    let c = Capture::parse_events(&events);
    assert_eq!(c.tickrate, 1000);
    let t = c.tasks.get(&1).unwrap();
    assert_eq!(
        t.states,
        vec![
            tv(1, TaskState::Spawned),
            tv(2, TaskState::Waiting),
            tv(3, TaskState::Running),
            tv(4, TaskState::RunningWaiting),
            tv(5, TaskState::Idle),
            tv(6, TaskState::End),
        ]
    );
    assert_eq!(
        c.executor_states.get(&7).unwrap(),
        &vec![
            tv(1, ExecutorState::Idle),
            tv(3, ExecutorState::Polling { task_id: 1 }),
            tv(5, ExecutorState::Scheduling),
        ]
    );
    assert_eq!(c.executor_states.len(), 1);
}

#[test]
fn ready_without_prior_state_is_not_recorded() {
    let events = vec![
        task(1, 4, TaskEventKind::TaskReadyBegin),
        task(2, 4, TaskEventKind::TaskExecBegin),
        task(3, 4, TaskEventKind::TaskEnd),
        task(4, 4, TaskEventKind::TaskReadyBegin),
    ];
    let c = Capture::parse_events(&events);
    let t = c.tasks.get(&4).unwrap();
    assert_eq!(t.states, vec![tv(2, TaskState::Running), tv(3, TaskState::End)]);
    // The task was never spawned, so no executor is known for it.
    assert!(c.executor_states.is_empty());
}

#[test]
fn first_spawn_decides_the_executor() {
    let events = vec![
        task(1, 1, TaskEventKind::TaskNew { executor_id: 2 }),
        task(2, 1, TaskEventKind::TaskNew { executor_id: 3 }),
        task(3, 1, TaskEventKind::TaskExecBegin),
    ];
    let c = Capture::parse_events(&events);
    assert_eq!(c.executor_states.len(), 1);
    assert_eq!(
        c.executor_states.get(&2).unwrap(),
        &vec![tv(1, ExecutorState::Idle), tv(3, ExecutorState::Polling { task_id: 1 })]
    );
    assert_eq!(
        c.tasks.get(&1).unwrap().states,
        vec![tv(1, TaskState::Spawned), tv(2, TaskState::Spawned), tv(3, TaskState::Running)]
    );
}

#[test]
fn irq_timelines_in_order_of_first_appearance() {
    let events = vec![
        global(1, GlobalEvent::IrqStart { irq: 3 }),
        global(2, GlobalEvent::IrqStart { irq: 5 }),
        global(4, GlobalEvent::IrqEnd { irq: 3 }),
    ];
    let c = Capture::parse_events(&events);
    let keys: Vec<u16> = c.irq_states.keys().copied().collect();
    assert_eq!(keys, vec![3, 5]);
    assert_eq!(c.irq_states.get(&3).unwrap(), &vec![tv(1, true), tv(4, false)]);
    assert_eq!(c.irq_states.get(&5).unwrap(), &vec![tv(2, true)]);
}

#[test]
fn global_spans_and_markers() {
    let events = vec![
        global(1, GlobalEvent::SpanStart { name: "a".to_string(), id: 1 }),
        global(2, GlobalEvent::SpanStart { name: "b".to_string(), id: 2 }),
        global(3, GlobalEvent::SpanEnd { id: 1 }),
        global(4, GlobalEvent::Marker { name: "m".to_string() }),
        global(5, GlobalEvent::SpanEnd { id: 9 }),
    ];
    let c = Capture::parse_events(&events);
    assert_eq!(c.global_spans, vec![span("a", 1, 3), span("b", 2, 5)]);
    assert_eq!(c.global_markers, vec![tv(4, "m".to_string())]);
}

#[test]
fn restarted_span_keeps_its_place() {
    let events = vec![
        global(1, GlobalEvent::SpanStart { name: "a".to_string(), id: 1 }),
        global(2, GlobalEvent::SpanStart { name: "c".to_string(), id: 2 }),
        global(3, GlobalEvent::SpanStart { name: "b".to_string(), id: 1 }),
    ];
    let c = Capture::parse_events(&events);
    assert_eq!(c.global_spans, vec![span("b", 3, 3), span("c", 2, 3)]);
}

#[test]
fn task_details() {
    let events = vec![
        task(1, 2, TaskEventKind::TaskNamed { name: "worker".to_string() }),
        task(2, 2, TaskEventKind::SpanStart { name: "s".to_string(), id: 9 }),
        task(3, 2, TaskEventKind::PrioritySet { priority: 3 }),
        task(4, 2, TaskEventKind::DeadlineSet { deadline: 100 }),
        task(5, 2, TaskEventKind::Marker { name: "x".to_string() }),
        task(6, 2, TaskEventKind::SpanEnd { id: 9 }),
        task(7, 2, TaskEventKind::SpanStart { name: "t".to_string(), id: 10 }),
    ];
    let c = Capture::parse_events(&events);
    let t = c.tasks.get(&2).unwrap();
    assert_eq!(t.names, vec![tv(1, "worker".to_string())]);
    assert_eq!(t.markers, vec![tv(5, "x".to_string())]);
    assert_eq!(t.priorities, vec![tv(3, 3u8)]);
    assert_eq!(t.deadlines, vec![tv(4, 100u64)]);
    assert_eq!(t.spans, vec![span("s", 2, 6), span("t", 7, 7)]);
    assert!(t.states.is_empty());
    assert!(c.executor_states.is_empty());
}

#[test]
fn open_task_spans_end_with_the_last_event_of_the_stream() {
    let events = vec![
        task(1, 1, TaskEventKind::SpanStart { name: "p".to_string(), id: 1 }),
        task(2, 2, TaskEventKind::SpanStart { name: "q".to_string(), id: 1 }),
        global(9, GlobalEvent::Marker { name: "end".to_string() }),
    ];
    let c = Capture::parse_events(&events);
    let keys: Vec<u32> = c.tasks.keys().copied().collect();
    assert_eq!(keys, vec![1, 2]);
    assert_eq!(c.tasks.get(&1).unwrap().spans, vec![span("p", 1, 9)]);
    assert_eq!(c.tasks.get(&2).unwrap().spans, vec![span("q", 2, 9)]);
}

#[test]
fn executor_events() {
    let events = vec![
        executor(10, 4, ExecutorEventKind::ExecutorPollStart),
        executor(11, 4, ExecutorEventKind::ExecutorIdle),
        executor(12, 6, ExecutorEventKind::ExecutorIdle),
    ];
    let c = Capture::parse_events(&events);
    assert_eq!(
        c.executor_states.get(&4).unwrap(),
        &vec![
            tv(10, ExecutorState::Idle),
            tv(10, ExecutorState::Scheduling),
            tv(11, ExecutorState::Idle),
        ]
    );
    assert_eq!(
        c.executor_states.get(&6).unwrap(),
        &vec![tv(12, ExecutorState::Idle), tv(12, ExecutorState::Idle)]
    );
}

#[test]
fn tickrate_is_the_last_announced() {
    let events = vec![
        global(0, GlobalEvent::TickRate { rate: 10 }),
        global(1, GlobalEvent::TickRate { rate: 20 }),
        global(2, GlobalEvent::Marker { name: "m".to_string() }),
    ];
    assert_eq!(Capture::parse_events(&events).tickrate, 20);
}

#[test]
fn every_executor_timeline_starts_idle() {
    let events = vec![
        task(1, 1, TaskEventKind::TaskNew { executor_id: 0 }),
        executor(2, 1, ExecutorEventKind::ExecutorPollStart),
        task(3, 1, TaskEventKind::TaskExecBegin),
        task(4, 1, TaskEventKind::TaskExecEnd),
    ];
    let c = Capture::parse_events(&events);
    for (_, trace) in c.executor_states.iter() {
        assert_eq!(trace[0].state, ExecutorState::Idle);
    }
}

#[test]
fn spans_of_an_ordered_stream_end_after_they_start() {
    let events = vec![
        global(1, GlobalEvent::SpanStart { name: "g".to_string(), id: 1 }),
        task(2, 3, TaskEventKind::SpanStart { name: "t".to_string(), id: 1 }),
        task(5, 3, TaskEventKind::SpanEnd { id: 1 }),
        global(8, GlobalEvent::Marker { name: "m".to_string() }),
    ];
    let c = Capture::parse_events(&events);
    for s in c.global_spans.iter() {
        assert!(s.start <= s.end);
    }
    for (_, t) in c.tasks.iter() {
        for s in t.spans.iter() {
            assert!(s.start <= s.end);
        }
    }
}

#[test]
fn default_capture_is_empty() {
    let c = Capture::default();
    assert_eq!(c.tickrate, 0);
    assert!(c.tasks.is_empty());
}

#[test]
fn unexplained_task_events_raise_warnings() {
    let w = |task_id, event, anomaly| TaskWarning { task_id, event, anomaly };
    let events = vec![
        task(1, 1, TaskEventKind::TaskExecBegin),
        task(2, 2, TaskEventKind::TaskNew { executor_id: 0 }),
        task(3, 2, TaskEventKind::TaskReadyBegin),
        task(4, 2, TaskEventKind::TaskExecBegin),
        task(5, 2, TaskEventKind::TaskExecEnd),
        task(6, 2, TaskEventKind::TaskEnd),
        task(7, 3, TaskEventKind::TaskNew { executor_id: 0 }),
        task(8, 3, TaskEventKind::TaskExecEnd),
        task(9, 3, TaskEventKind::TaskReadyBegin),
        task(10, 3, TaskEventKind::TaskEnd),
        task(11, 3, TaskEventKind::TaskReadyBegin),
    ];
    let (capture, warnings) = Capture::parse_events_with_warnings(&events);
    assert_eq!(
        warnings,
        vec![
            w(1, CheckedEvent::TaskExecBegin, TaskAnomaly::NonExistingTask),
            w(1, CheckedEvent::TaskExecBegin, TaskAnomaly::NotWaiting),
            w(2, CheckedEvent::TaskEnd, TaskAnomaly::NotRunning),
            w(3, CheckedEvent::TaskExecEnd, TaskAnomaly::NotRunning),
            w(3, CheckedEvent::TaskEnd, TaskAnomaly::NotRunning),
            w(3, CheckedEvent::TaskReadyBegin, TaskAnomaly::NotRunningIdleOrSpawned),
        ]
    );
    // The events are applied all the same.
    assert_eq!(capture.tasks.get(&1).unwrap().states, vec![tv(1, TaskState::Running)]);
    assert_eq!(capture.tasks.len(), 3);
}

#[test]
fn timelines_only_grow() {
    let a = vec![
        task(1, 1, TaskEventKind::TaskNew { executor_id: 2 }),
        task(2, 1, TaskEventKind::TaskReadyBegin),
    ];
    let mut ab = a.clone();
    ab.push(task(3, 1, TaskEventKind::TaskExecBegin));
    ab.push(task(4, 5, TaskEventKind::TaskExecEnd));
    let before = Capture::parse_events(&a);
    let after = Capture::parse_events(&ab);
    for (id, t) in before.tasks.iter() {
        let later = &after.tasks.get(id).unwrap().states;
        assert_eq!(&later[..t.states.len()], &t.states[..]);
    }
    for (id, trace) in before.executor_states.iter() {
        let later = after.executor_states.get(id).unwrap();
        assert_eq!(&later[..trace.len()], &trace[..]);
    }
}

#[test]
fn executor_timeline_starts_at_first_touch() {
    let events = vec![
        task(3, 1, TaskEventKind::TaskReadyBegin),
        task(5, 1, TaskEventKind::TaskNew { executor_id: 8 }),
        executor(7, 8, ExecutorEventKind::ExecutorIdle),
        executor(9, 2, ExecutorEventKind::ExecutorPollStart),
    ];
    let c = Capture::parse_events(&events);
    assert_eq!(c.executor_states.get(&8).unwrap()[0], tv(5, ExecutorState::Idle));
    assert_eq!(c.executor_states.get(&2).unwrap()[0], tv(9, ExecutorState::Idle));
    assert_eq!(c.executor_states.len(), 2);
}
