//! The events that a monitored target emits, as plain values.

use vstd::prelude::*;

verus! {

/// One recorded event: what happened, and at which tick.
#[derive(Clone, Debug, PartialEq, Eq)]
pub struct Event {
    pub timestamp: u64,
    pub kind: EventKind,
}

#[derive(Clone, Debug, PartialEq, Eq)]
pub enum EventKind {
    Global(GlobalEvent),
    Executor(ExecutorEvent),
    Task(TaskEvent),
}

/// Events that belong to no executor and no task.
#[derive(Clone, Debug, PartialEq, Eq)]
pub enum GlobalEvent {
    TickRate { rate: u64 },
    IrqStart { irq: u16 },
    IrqEnd { irq: u16 },
    Marker { name: String },
    SpanStart { name: String, id: u32 },
    SpanEnd { id: u32 },
}

#[derive(Clone, Debug, PartialEq, Eq)]
pub struct ExecutorEvent {
    pub executor_id: u32,
    pub kind: ExecutorEventKind,
}

#[derive(Clone, Copy, Debug, PartialEq, Eq)]
pub enum ExecutorEventKind {
    ExecutorPollStart,
    ExecutorIdle,
}

#[derive(Clone, Debug, PartialEq, Eq)]
pub struct TaskEvent {
    pub task_id: u32,
    pub kind: TaskEventKind,
}

#[derive(Clone, Debug, PartialEq, Eq)]
pub enum TaskEventKind {
    TaskNew { executor_id: u32 },
    TaskEnd,
    TaskExecBegin,
    TaskExecEnd,
    TaskReadyBegin,
    TaskNamed { name: String },
    Marker { name: String },
    SpanStart { name: String, id: u32 },
    SpanEnd { id: u32 },
    PrioritySet { priority: u8 },
    DeadlineSet { deadline: u64 },
}

} // verus!
