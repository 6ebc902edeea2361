//! The state of a run, and how each turn of its loop changes it.

use crate::coordinator::{DispatchRequest, NextStep, QueuedTask, RunEvent};
use crate::names;
use crate::task;
use crate::task::{TaskDef, TaskStatus};
use vstd::prelude::*;

verus! {

/// Everything that a run's decisions rest on.
#[verifier::ext_equal]
pub struct RunState {
    /// Accepted tasks that have not started, oldest first.
    pub pending: Seq<QueuedTask>,
    /// Names ever accepted.
    pub accepted: Set<Seq<char>>,
    /// Names started and not reported.
    pub running: Set<Seq<char>>,
    /// Names reported.
    pub completed: Set<Seq<char>>,
    /// How many workers have not been waited for.
    pub in_flight: nat,
    /// No task failed, crashed or was cancelled.
    pub all_ok: bool,
    /// No request is taken any more.
    pub sealed: bool,
}

/// The names in a queue, in order.
pub open spec fn queue_names(queue: Seq<QueuedTask>) -> Seq<Seq<char>> {
    queue.map_values(|task: QueuedTask| task.def.name@)
}

/// The task definitions in a queue, in order.
pub open spec fn queue_defs(queue: Seq<QueuedTask>) -> Seq<TaskDef> {
    queue.map_values(|task: QueuedTask| task.def)
}

/// Tasks queued behind one barrier.
pub open spec fn queued(tasks: Seq<TaskDef>, barrier: Set<Seq<char>>) -> Seq<QueuedTask> {
    tasks.map_values(|def: TaskDef| QueuedTask { def, barrier })
}

/// The tasks of a queue whose needs are all completed, in order.
pub open spec fn ready_in(queue: Seq<QueuedTask>, completed: Set<Seq<char>>) -> Seq<QueuedTask> {
    queue.filter(|task: QueuedTask| task.unblocked(completed))
}

/// The tasks of a queue that still wait, in order.
pub open spec fn blocked_in(queue: Seq<QueuedTask>, completed: Set<Seq<char>>) -> Seq<
    QueuedTask,
> {
    queue.filter(|task: QueuedTask| !task.unblocked(completed))
}

/// An empty queue divides into empty queues.
pub proof fn lemma_divide_empty(completed: Set<Seq<char>>)
    ensures
        ready_in(Seq::empty(), completed) == Seq::<QueuedTask>::empty(),
        blocked_in(Seq::empty(), completed) == Seq::<QueuedTask>::empty(),
{
    reveal(Seq::filter);
}

/// How one more task at the end divides.
pub proof fn lemma_divide_push(
    queue: Seq<QueuedTask>,
    task: QueuedTask,
    completed: Set<Seq<char>>,
)
    ensures
        ready_in(queue.push(task), completed) == if task.unblocked(completed) {
            ready_in(queue, completed).push(task)
        } else {
            ready_in(queue, completed)
        },
        blocked_in(queue.push(task), completed) == if task.unblocked(completed) {
            blocked_in(queue, completed)
        } else {
            blocked_in(queue, completed).push(task)
        },
{
    reveal(Seq::filter);
    assert(queue.push(task).drop_last() =~= queue);
}

impl RunState {
    /// A run that has not begun.
    pub open spec fn fresh() -> RunState {
        RunState {
            pending: Seq::empty(),
            accepted: Set::empty(),
            running: Set::empty(),
            completed: Set::empty(),
            in_flight: 0,
            all_ok: true,
            sealed: false,
        }
    }

    /// The names that run or are queued.
    pub open spec fn snapshot(self) -> Set<Seq<char>> {
        self.running.union(queue_names(self.pending).to_set())
    }

    /// The state with tasks accepted, in order, behind one barrier.
    pub open spec fn with_tasks(self, tasks: Seq<TaskDef>, barrier: Set<Seq<char>>) -> RunState {
        RunState {
            pending: self.pending + queued(tasks, barrier),
            accepted: self.accepted.union(task::task_names(tasks).to_set()),
            ..self
        }
    }

    /// The queued tasks whose needs are all completed.
    pub open spec fn ready(self) -> Seq<QueuedTask> {
        ready_in(self.pending, self.completed)
    }

    /// The queued tasks that still wait.
    pub open spec fn blocked(self) -> Seq<QueuedTask> {
        blocked_in(self.pending, self.completed)
    }

    /// The tasks that start at the beginning of a turn.
    pub open spec fn starting(self, cancelled: bool) -> Seq<TaskDef> {
        if cancelled {
            Seq::empty()
        } else {
            queue_defs(self.ready())
        }
    }

    /// The state after those tasks have started.
    pub open spec fn after_start(self, cancelled: bool) -> RunState {
        if cancelled {
            self
        } else {
            RunState {
                pending: self.blocked(),
                running: self.running.union(queue_names(self.ready()).to_set()),
                in_flight: self.in_flight + self.ready().len(),
                ..self
            }
        }
    }

    /// Whether the run is over.
    pub open spec fn finished(self) -> bool {
        self.in_flight == 0 && self.pending.len() == 0 && self.sealed
    }

    /// What the run does next. It is not over before it is sealed: requests may still wait to be
    /// taken when the last sender of requests is gone.
    pub open spec fn next_step(self) -> NextStep {
        if self.finished() {
            NextStep::Finish(self.all_ok)
        } else {
            NextStep::Wait { for_worker: self.in_flight > 0, for_request: !self.sealed }
        }
    }

    /// How many workers are left to wait for after one was.
    pub open spec fn one_joined(self) -> nat {
        if self.in_flight > 0 {
            (self.in_flight - 1) as nat
        } else {
            0
        }
    }

    /// The state after an event.
    pub open spec fn after_event(self, event: RunEvent) -> RunState {
        match event {
            RunEvent::Reported(report) => RunState {
                running: self.running.remove(report.name@),
                completed: self.completed.insert(report.name@),
                in_flight: self.one_joined(),
                all_ok: self.all_ok && report.status != TaskStatus::Failed && report.status
                    != TaskStatus::Cancelled,
                ..self
            },
            RunEvent::Crashed => RunState {
                in_flight: self.one_joined(),
                all_ok: false,
                ..self
            },
            RunEvent::NoWorker => self,
            RunEvent::Dispatched(DispatchRequest::Task(def)) => self.with_tasks(
                seq![def],
                if def.depends_on@.len() == 0 {
                    self.snapshot()
                } else {
                    Set::empty()
                },
            ),
            RunEvent::Dispatched(DispatchRequest::Wave(defs)) => self.with_tasks(
                defs@,
                self.snapshot(),
            ),
            RunEvent::Dispatched(DispatchRequest::Seal) => RunState { sealed: true, ..self },
            RunEvent::DispatchClosed => RunState { sealed: true, ..self },
            RunEvent::Cancelled => RunState {
                pending: Seq::empty(),
                all_ok: false,
                sealed: true,
                ..self
            },
        }
    }

    /// The queued tasks that an event drops.
    pub open spec fn dropped_by(self, event: RunEvent) -> Seq<TaskDef> {
        match event {
            RunEvent::Cancelled => queue_defs(self.pending),
            _ => Seq::empty(),
        }
    }
}

impl RunEvent {
    /// The event makes the whole run stop.
    pub open spec fn is_failure(self) -> bool {
        match self {
            RunEvent::Reported(report) => report.status == TaskStatus::Failed,
            RunEvent::Crashed => true,
            _ => false,
        }
    }

    /// The event means that not all went well.
    pub open spec fn is_setback(self) -> bool {
        match self {
            RunEvent::Reported(report) => report.status == TaskStatus::Failed || report.status
                == TaskStatus::Cancelled,
            RunEvent::Crashed => true,
            RunEvent::Cancelled => true,
            _ => false,
        }
    }

    /// The event ends the taking of requests.
    pub open spec fn closes_dispatch(self) -> bool {
        match self {
            RunEvent::Dispatched(DispatchRequest::Seal) => true,
            RunEvent::DispatchClosed => true,
            RunEvent::Cancelled => true,
            _ => false,
        }
    }

    /// The event takes a worker off the ones in flight.
    pub open spec fn joins_worker(self) -> bool {
        match self {
            RunEvent::Reported(_) => true,
            RunEvent::Crashed => true,
            _ => false,
        }
    }

    /// The tasks that the event brings.
    pub open spec fn brings(self) -> Seq<TaskDef> {
        match self {
            RunEvent::Dispatched(DispatchRequest::Task(def)) => seq![def],
            RunEvent::Dispatched(DispatchRequest::Wave(defs)) => defs@,
            _ => Seq::empty(),
        }
    }
}

} // verus!
