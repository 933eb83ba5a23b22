//! The timelines that an analysis produces, and their mathematical views.

use vstd::prelude::*;

verus! {

/// A value together with the tick at which it was recorded.
#[derive(Clone, Debug, PartialEq, Eq)]
pub struct TimedValue<T> {
    pub timestamp: u64,
    pub state: T,
}

/// A named interval of ticks.
#[derive(Clone, Debug, PartialEq, Eq)]
pub struct Span {
    pub name: String,
    pub start: u64,
    pub end: u64,
}

/// The life-cycle state of a task.
#[derive(Clone, Copy, Debug, PartialEq, Eq, Structural)]
pub enum TaskState {
    Spawned,
    Waiting,
    Running,
    /// Currently running, but also waiting to be polled again already
    RunningWaiting,
    Idle,
    End,
}

/// What an executor is doing.
#[derive(Clone, Copy, Debug, PartialEq, Eq, Structural)]
pub enum ExecutorState {
    Idle,
    Scheduling,
    Polling { task_id: u32 },
}

/// The task events whose arrival is checked against the task's state history.
#[derive(Clone, Copy, Debug, PartialEq, Eq, Structural)]
pub enum CheckedEvent {
    TaskEnd,
    TaskExecBegin,
    TaskExecEnd,
    TaskReadyBegin,
}

/// What is wrong with a checked task event.
#[derive(Clone, Copy, Debug, PartialEq, Eq, Structural)]
pub enum TaskAnomaly {
    /// Nothing has been recorded of the task's states yet.
    NonExistingTask,
    /// The task's last state is not `Running`.
    NotRunning,
    /// The task's last state is not `Waiting`.
    NotWaiting,
    /// The task's last state is none of `Running`, `Idle` and `Spawned`.
    NotRunningIdleOrSpawned,
}

/// A task event that the task's state history does not explain. The event is
/// still applied as usual.
#[derive(Clone, Copy, Debug, PartialEq, Eq, Structural)]
pub struct TaskWarning {
    pub task_id: u32,
    pub event: CheckedEvent,
    pub anomaly: TaskAnomaly,
}

/// Everything recorded about one task.
#[derive(Clone, Debug, PartialEq, Eq)]
pub struct Task {
    pub names: Vec<TimedValue<String>>,
    pub markers: Vec<TimedValue<String>>,
    pub spans: Vec<Span>,
    pub states: Vec<TimedValue<TaskState>>,
    pub priorities: Vec<TimedValue<u8>>,
    pub deadlines: Vec<TimedValue<u64>>,
}

/// The view of a `Span`: its name as characters.
#[verifier::ext_equal]
pub struct SpanModel {
    pub name: Seq<char>,
    pub start: u64,
    pub end: u64,
}

/// The view of a `Task`: its names, markers and spans as characters.
#[verifier::ext_equal]
pub struct TaskModel {
    pub names: Seq<(u64, Seq<char>)>,
    pub markers: Seq<(u64, Seq<char>)>,
    pub spans: Seq<SpanModel>,
    pub states: Seq<TimedValue<TaskState>>,
    pub priorities: Seq<TimedValue<u8>>,
    pub deadlines: Seq<TimedValue<u64>>,
}

impl View for Span {
    type V = SpanModel;

    open spec fn view(&self) -> SpanModel {
        SpanModel { name: self.name@, start: self.start, end: self.end }
    }
}

/// Timed strings viewed as timed character sequences.
pub open spec fn texts_view(s: Seq<TimedValue<String>>) -> Seq<(u64, Seq<char>)> {
    Seq::new(s.len(), |i: int| (s[i].timestamp, s[i].state@))
}

/// Spans viewed one by one.
pub open spec fn spans_view(s: Seq<Span>) -> Seq<SpanModel> {
    Seq::new(s.len(), |i: int| s[i]@)
}

impl View for Task {
    type V = TaskModel;

    open spec fn view(&self) -> TaskModel {
        TaskModel {
            names: texts_view(self.names@),
            markers: texts_view(self.markers@),
            spans: spans_view(self.spans@),
            states: self.states@,
            priorities: self.priorities@,
            deadlines: self.deadlines@,
        }
    }
}

/// The task about which nothing has been recorded yet.
pub open spec fn empty_task() -> TaskModel {
    TaskModel {
        names: Seq::empty(),
        markers: Seq::empty(),
        spans: Seq::empty(),
        states: Seq::empty(),
        priorities: Seq::empty(),
        deadlines: Seq::empty(),
    }
}

impl Task {
    /// A task with empty timelines.
    pub fn new() -> (t: Task)
        ensures
            t@ == empty_task(),
    {
        let t = Task {
            names: Vec::new(),
            markers: Vec::new(),
            spans: Vec::new(),
            states: Vec::new(),
            priorities: Vec::new(),
            deadlines: Vec::new(),
        };
        assert(t@ =~= empty_task());
        t
    }
}

impl Default for Task {
    fn default() -> (t: Task)
        ensures
            t@ == empty_task(),
    {
        Task::new()
    }
}

} // verus!
