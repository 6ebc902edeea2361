//! The run coordinator: which task may start, what each event changes, and when a run is over.

use crate::clock;
use crate::clock::local_now;
use crate::names;
use crate::names::{all_contained, is_legal_name, NameSet};
use crate::run_laws;
use crate::run_state;
use crate::run_state::RunState;
use crate::task;
use crate::task::{MetaRecord, TaskDef, TaskMeta, TaskRunReport, TaskStatus};
use crate::text;
use crate::text::{concat3, join_path};
use std::collections::VecDeque;
use vstd::prelude::*;
use vstd::string::*;

verus! {

/// A request to a running coordinator.
pub enum DispatchRequest {
    /// One more task. Without dependencies it waits for all that runs or is queued now.
    Task(TaskDef),
    /// A batch of tasks. Each waits for all that runs or is queued now, and for its dependencies.
    Wave(Vec<TaskDef>),
    /// No request will follow.
    Seal,
}

/// What the coordinator's loop can wake up to.
pub enum RunEvent {
    /// A worker ended and reported.
    Reported(TaskRunReport),
    /// A worker ended without a report.
    Crashed,
    /// There was no worker to wait for.
    NoWorker,
    /// A request came in.
    Dispatched(DispatchRequest),
    /// All senders of requests are gone, and all that they sent has been taken.
    DispatchClosed,
    /// The run was cancelled.
    Cancelled,
}

/// What the loop has to do about an event.
pub struct Reaction {
    /// Cancel the run.
    pub cancel_run: bool,
    /// Take no more requests.
    pub close_dispatch: bool,
    /// Tasks that will never start.
    pub dropped: Vec<TaskDef>,
}

/// What the loop does next.
#[derive(Debug, Clone, Copy, PartialEq, Eq, Structural)]
pub enum NextStep {
    /// The run is over; the flag says whether all went well.
    Finish(bool),
    /// Wait for a cancellation, and for a worker and a request as the flags say.
    Wait { for_worker: bool, for_request: bool },
}

/// A task that was accepted and has not started.
pub struct PendingTask {
    pub def: TaskDef,
    pub barrier: NameSet,
}

/// What matters of a pending task.
pub struct QueuedTask {
    pub def: TaskDef,
    pub barrier: Set<Seq<char>>,
}

impl QueuedTask {
    /// Every name that has to be completed before the task may start.
    pub open spec fn needs(self) -> Set<Seq<char>> {
        self.barrier.union(task::dependencies(self.def))
    }

    pub open spec fn unblocked(self, completed: Set<Seq<char>>) -> bool {
        self.needs().subset_of(completed)
    }
}

impl View for PendingTask {
    type V = QueuedTask;

    open spec fn view(&self) -> QueuedTask {
        QueuedTask { def: self.def, barrier: self.barrier@ }
    }
}

impl PendingTask {
    /// Whether everything that the task waits for is completed.
    pub fn is_unblocked(&self, completed: &NameSet) -> (ready: bool)
        ensures
            ready == self@.unblocked(completed@),
            ready == {
                &&& forall|name: Seq<char>| #[trigger]
                    self.barrier@.contains(name) ==> completed@.contains(name)
                &&& forall|i: int|
                    0 <= i < self.def.depends_on@.len() ==> completed@.contains(
                        #[trigger] self.def.depends_on@[i]@,
                    )
            },
    {
        self.barrier.is_subset(completed) && all_contained(
            self.def.depends_on.as_slice(),
            completed,
        )
    }
}

/// The scheduler of one run.
///
/// The loop around it starts the tasks that it names, waits as it says, and hands every event
/// back to it.
pub struct RunCoordinator {
    run_dir: String,
    pending: VecDeque<PendingTask>,
    accepted: NameSet,
    running: NameSet,
    completed: NameSet,
    in_flight: usize,
    all_ok: bool,
    sealed: bool,
}

/// What matters of a queue of pending tasks.
pub open spec fn queue_view(pending: Seq<PendingTask>) -> Seq<QueuedTask> {
    pending.map_values(|task: PendingTask| task@)
}

impl View for RunCoordinator {
    type V = RunState;

    closed spec fn view(&self) -> RunState {
        RunState {
            pending: queue_view(self.pending@),
            accepted: self.accepted@,
            running: self.running@,
            completed: self.completed@,
            in_flight: self.in_flight as nat,
            all_ok: self.all_ok,
            sealed: self.sealed,
        }
    }
}

impl RunCoordinator {
    /// The directory of the run.
    pub closed spec fn directory(&self) -> Seq<char> {
        self.run_dir@
    }

    /// A coordinator for the run in `run_dir`, with nothing accepted yet.
    pub fn start(run_dir: &str) -> (coordinator: RunCoordinator)
        ensures
            coordinator@ == RunState::fresh(),
            coordinator.directory() == run_dir@,
    {
        let coordinator = RunCoordinator {
            run_dir: run_dir.to_owned(),
            pending: VecDeque::new(),
            accepted: NameSet::new(),
            running: NameSet::new(),
            completed: NameSet::new(),
            in_flight: 0,
            all_ok: true,
            sealed: false,
        };
        proof {
            assert(coordinator@ =~= RunState::fresh());
        }
        coordinator
    }

    /// Where the records of the run's tasks are kept.
    pub fn log_dir(&self) -> (path: String)
        ensures
            path@ == text::joined_path(self.directory(), "logs"@),
    {
        join_path(self.run_dir.as_str(), "logs")
    }

    /// Queues tasks, in order, behind one barrier.
    fn enqueue(&mut self, tasks: Vec<TaskDef>, barrier: &NameSet)
        ensures
            final(self)@ == old(self)@.with_tasks(tasks@, barrier@),
            final(self).directory() == old(self).directory(),
    {
        let ghost before = self@;
        proof {
            assert(before =~= before.with_tasks(tasks@.take(0), barrier@));
        }
        for task in it: tasks
            invariant
                it.seq() == tasks@,
                self@ == before.with_tasks(tasks@.take(it.index() as int), barrier@),
                self.directory() == old(self).directory(),
        {
            let ghost so_far = tasks@.take(it.index() as int);
            let ghost def = task;
            let ghost queue = self@.pending;
            self.accepted.insert(task.name.clone());
            self.pending.push_back(PendingTask { def: task, barrier: barrier.duplicate() });
            proof {
                let more = tasks@.take(it.index() + 1);
                assert(more =~= so_far.push(def));
                assert(task::task_names(more) =~= task::task_names(so_far).push(def.name@));
                task::task_names(so_far).lemma_push_to_set_commute(def.name@);
                assert(self@.accepted =~= before.with_tasks(more, barrier@).accepted);
                assert(run_state::queued(more, barrier@) =~= run_state::queued(
                    so_far,
                    barrier@,
                ).push(QueuedTask { def, barrier: barrier@ }));
                assert(self@.pending =~= queue.push(QueuedTask { def, barrier: barrier@ }));
                assert(self@.pending =~= before.with_tasks(more, barrier@).pending);
            }
        }
        proof {
            assert(tasks@.take(tasks@.len() as int) =~= tasks@);
        }
    }

    /// Accepts the tasks that the run begins with. They wait for their dependencies alone.
    pub fn accept_initial(&mut self, initial_tasks: Vec<TaskDef>)
        ensures
            final(self)@ == old(self)@.with_tasks(initial_tasks@, Set::empty()),
            final(self).directory() == old(self).directory(),
    {
        let no_barrier = NameSet::new();
        self.enqueue(initial_tasks, &no_barrier);
    }

    /// Whether the workers in flight can be counted even if every queued task starts.
    pub fn has_room(&self) -> (room: bool)
        ensures
            room == (self@.in_flight + self@.pending.len() <= usize::MAX),
    {
        self.pending.len() <= usize::MAX - self.in_flight
    }

    /// Takes the tasks that may start off the queue, oldest first, unless the run is cancelled.
    /// The caller starts a worker for each.
    pub fn spawn_ready_tasks(&mut self, cancelled: bool) -> (started: Vec<TaskDef>)
        requires
            old(self)@.in_flight + old(self)@.pending.len() <= usize::MAX,
        ensures
            started@ == old(self)@.starting(cancelled),
            final(self)@ == old(self)@.after_start(cancelled),
            final(self).directory() == old(self).directory(),
            cancelled ==> started@.len() == 0,
            forall|k: int, d: int|
                0 <= k < started@.len() && 0 <= d < started@[k].depends_on@.len() ==> old(
                    self,
                )@.completed.contains(#[trigger] started@[k].depends_on@[d]@),
    {
        let mut started: Vec<TaskDef> = Vec::new();
        proof {
            run_laws::law_every_listed_name_is_completed_before_a_task_starts(self@, cancelled);
        }
        if cancelled {
            return started;
        }
        let ghost before = self@;
        let ghost queue = self@.pending;
        let ghost done = self@.completed;
        let pending_count = self.pending.len();
        let mut i: usize = 0;
        proof {
            run_state::lemma_divide_empty(done);
            assert(queue.take(0) =~= Seq::<QueuedTask>::empty());
            assert(queue.skip(0) + Seq::<QueuedTask>::empty() =~= queue);
            assert(run_state::queue_defs(Seq::empty()) =~= Seq::<TaskDef>::empty());
            assert(run_state::queue_names(Seq::empty()).to_set() =~= Set::<Seq<char>>::empty());
            assert(before.running.union(Set::<Seq<char>>::empty()) =~= before.running);
        }
        while i < pending_count
            invariant
                pending_count == queue.len(),
                i <= pending_count,
                queue == before.pending,
                done == before.completed,
                before.in_flight + queue.len() <= usize::MAX,
                self.directory() == old(self).directory(),
                self@.pending == queue.skip(i as int) + run_state::blocked_in(
                    queue.take(i as int),
                    done,
                ),
                started@ == run_state::queue_defs(
                    run_state::ready_in(queue.take(i as int), done),
                ),
                started@.len() <= i,
                self@ == (RunState {
                    pending: self@.pending,
                    running: before.running.union(
                        run_state::queue_names(
                            run_state::ready_in(queue.take(i as int), done),
                        ).to_set(),
                    ),
                    in_flight: before.in_flight + started@.len(),
                    ..before
                }),
            decreases pending_count - i,
        {
            let ghost front = queue[i as int];
            let ghost seen = queue.take(i as int);
            let ghost now = self@;
            proof {
                assert(now.pending[0] == front);
                assert(queue.take(i + 1) =~= seen.push(front));
                run_state::lemma_divide_push(seen, front, done);
            }
            if let Some(task) = self.pending.pop_front() {
                proof {
                    assert(task@ == now.pending[0]);
                    assert(self@.pending =~= now.pending.skip(1));
                    assert(now.pending.skip(1) =~= queue.skip(i + 1) + run_state::blocked_in(
                        seen,
                        done,
                    ));
                }
                if task.is_unblocked(&self.completed) {
                    let name = task.def.name.clone();
                    started.push(task.def);
                    self.running.insert(name);
                    self.in_flight += 1;
                    proof {
                        let ready = run_state::ready_in(seen, done);
                        assert(run_state::queue_defs(ready.push(front)) =~= run_state::queue_defs(
                            ready,
                        ).push(front.def));
                        assert(run_state::queue_names(ready.push(front))
                            =~= run_state::queue_names(ready).push(front.def.name@));
                        run_state::queue_names(ready).lemma_push_to_set_commute(front.def.name@);
                        assert(self@.running =~= before.running.union(
                            run_state::queue_names(ready.push(front)).to_set(),
                        ));
                    }
                } else {
                    let ghost kept = self@.pending;
                    self.pending.push_back(task);
                    proof {
                        assert(self@.pending =~= kept.push(front));
                        assert(self@.pending =~= queue.skip(i + 1) + run_state::blocked_in(
                            seen,
                            done,
                        ).push(front));
                    }
                }
            }
            i += 1;
        }
        proof {
            assert(queue.take(queue.len() as int) =~= queue);
            assert(queue.skip(queue.len() as int) =~= Seq::<QueuedTask>::empty());
            assert(self@ =~= before.after_start(false));
        }
        started
    }

    /// Whether the run is over, and if not, what to wait for.
    pub fn next_step(&self) -> (step: NextStep)
        ensures
            step == self@.next_step(),
            step == if self@.in_flight == 0 && self@.pending.len() == 0 && self@.sealed {
                NextStep::Finish(self@.all_ok)
            } else {
                NextStep::Wait { for_worker: self@.in_flight > 0, for_request: !self@.sealed }
            },
    {
        if self.in_flight == 0 && self.pending.len() == 0 && self.sealed {
            NextStep::Finish(self.all_ok)
        } else {
            NextStep::Wait { for_worker: self.in_flight > 0, for_request: !self.sealed }
        }
    }

    /// Takes in an event and says what it asks for.
    pub fn handle(&mut self, event: RunEvent) -> (reaction: Reaction)
        ensures
            final(self)@ == old(self)@.after_event(event),
            final(self).directory() == old(self).directory(),
            reaction.cancel_run == event.is_failure(),
            reaction.close_dispatch == event.closes_dispatch(),
            reaction.dropped@ == old(self)@.dropped_by(event),
            match event {
                RunEvent::Reported(report) => {
                    &&& reaction.cancel_run == (report.status == TaskStatus::Failed)
                    &&& final(self)@.all_ok == (old(self)@.all_ok && report.status
                        != TaskStatus::Failed && report.status != TaskStatus::Cancelled)
                    &&& final(self)@.completed == old(self)@.completed.insert(report.name@)
                    &&& final(self)@.running == old(self)@.running.remove(report.name@)
                },
                RunEvent::Crashed => reaction.cancel_run && !final(self)@.all_ok,
                RunEvent::Cancelled => {
                    &&& !reaction.cancel_run
                    &&& !final(self)@.all_ok
                    &&& final(self)@.pending.len() == 0
                    &&& reaction.dropped@.len() == old(self)@.pending.len()
                    &&& forall|i: int|
                        0 <= i < old(self)@.pending.len() ==> #[trigger] reaction.dropped@[i]
                            == old(self)@.pending[i].def
                },
                _ => !reaction.cancel_run && final(self)@.all_ok == old(self)@.all_ok,
            },
            final(self)@.sealed == (old(self)@.sealed || reaction.close_dispatch),
            reaction.close_dispatch <==> match event {
                RunEvent::Dispatched(DispatchRequest::Seal) => true,
                RunEvent::DispatchClosed => true,
                RunEvent::Cancelled => true,
                _ => false,
            },
    {
        let mut reaction = Reaction {
            cancel_run: false,
            close_dispatch: false,
            dropped: Vec::new(),
        };
        match event {
            RunEvent::Reported(report) => {
                self.join_one();
                self.running.remove(report.name.as_str());
                self.completed.insert(report.name);
                match report.status {
                    TaskStatus::Failed => {
                        self.all_ok = false;
                        reaction.cancel_run = true;
                    },
                    TaskStatus::Cancelled => {
                        self.all_ok = false;
                    },
                    _ => {},
                }
            },
            RunEvent::Crashed => {
                self.join_one();
                self.all_ok = false;
                reaction.cancel_run = true;
            },
            RunEvent::NoWorker => {},
            RunEvent::Dispatched(DispatchRequest::Task(task)) => {
                let barrier = if task.depends_on.len() == 0 {
                    self.snapshot()
                } else {
                    NameSet::new()
                };
                let ghost def = task;
                let mut tasks: Vec<TaskDef> = Vec::new();
                tasks.push(task);
                proof {
                    assert(tasks@ =~= seq![def]);
                }
                self.enqueue(tasks, &barrier);
            },
            RunEvent::Dispatched(DispatchRequest::Wave(tasks)) => {
                let barrier = self.snapshot();
                self.enqueue(tasks, &barrier);
            },
            RunEvent::Dispatched(DispatchRequest::Seal) => {
                self.sealed = true;
                reaction.close_dispatch = true;
            },
            RunEvent::DispatchClosed => {
                self.sealed = true;
                reaction.close_dispatch = true;
            },
            RunEvent::Cancelled => {
                reaction.dropped = self.drop_pending();
                reaction.close_dispatch = true;
                self.all_ok = false;
                self.sealed = true;
            },
        }
        reaction
    }

    /// Counts one worker less.
    fn join_one(&mut self)
        ensures
            final(self)@ == (RunState { in_flight: old(self)@.one_joined(), ..old(self)@ }),
            final(self).directory() == old(self).directory(),
    {
        if self.in_flight > 0 {
            self.in_flight -= 1;
        }
    }

    /// The names that run or are queued now.
    fn snapshot(&self) -> (barrier: NameSet)
        ensures
            barrier@ == self@.snapshot(),
    {
        let queued = pending_names(&self.pending);
        build_barrier(&self.running, queued.as_slice())
    }

    /// Empties the queue.
    fn drop_pending(&mut self) -> (dropped: Vec<TaskDef>)
        ensures
            dropped@ == run_state::queue_defs(old(self)@.pending),
            final(self)@ == (RunState { pending: Seq::empty(), ..old(self)@ }),
            final(self).directory() == old(self).directory(),
    {
        let ghost before = self@;
        let ghost queue = self@.pending;
        let mut dropped: Vec<TaskDef> = Vec::new();
        proof {
            assert(queue.skip(0) =~= queue);
        }
        while self.pending.len() > 0
            invariant
                dropped@.len() <= queue.len(),
                queue == before.pending,
                dropped@ =~= run_state::queue_defs(queue.take(dropped@.len() as int)),
                self@ == (RunState { pending: queue.skip(dropped@.len() as int), ..before }),
                self.directory() == old(self).directory(),
            decreases self.pending@.len(),
        {
            let ghost n = dropped@.len() as int;
            let ghost now = self@.pending;
            if let Some(task) = self.pending.pop_front() {
                proof {
                    assert(task@ == now[0]);
                    assert(self@.pending =~= now.skip(1));
                    assert(now.skip(1) =~= queue.skip(n + 1));
                    assert(queue.take(n + 1) =~= queue.take(n).push(queue[n]));
                }
                dropped.push(task.def);
            }
        }
        proof {
            assert(self@.pending.len() == 0);
            assert(queue.take(queue.len() as int) =~= queue);
            assert(self@.pending =~= Seq::empty());
        }
        dropped
    }
}

/// The names in a queue, in order.
pub fn pending_names(pending: &VecDeque<PendingTask>) -> (names: Vec<String>)
    ensures
        names::texts(names@) == run_state::queue_names(queue_view(pending@)),
        names@.len() == pending@.len(),
        forall|i: int|
            0 <= i < pending@.len() ==> #[trigger] names@[i]@ == pending@[i].def.name@,
{
    let mut names: Vec<String> = Vec::new();
    let mut i: usize = 0;
    while i < pending.len()
        invariant
            i <= pending@.len(),
            names@.len() == i,
            forall|j: int| 0 <= j < i ==> names@[j]@ == pending@[j].def.name@,
        decreases pending@.len() - i,
    {
        names.push(pending[i].def.name.clone());
        i += 1;
    }
    proof {
        assert(names::texts(names@) =~= run_state::queue_names(queue_view(pending@)));
    }
    names
}

/// The names that run and the names that are queued, in one set.
pub fn build_barrier(running: &NameSet, pending_names: &[String]) -> (barrier: NameSet)
    ensures
        barrier@ == running@.union(names::texts(pending_names@).to_set()),
        forall|name: Seq<char>| #[trigger]
            barrier@.contains(name) <==> running@.contains(name) || exists|i: int|
                0 <= i < pending_names@.len() && #[trigger] pending_names@[i]@ == name,
{
    let mut barrier = running.duplicate();
    barrier.insert_all(pending_names);
    barrier
}

/// Why a request is turned down.
#[derive(Debug)]
pub enum DispatchError {
    /// The name cannot be a task name.
    IllegalName(String),
    /// The run has a task of that name.
    DuplicateName(String),
    /// A dependency names no accepted task.
    UnknownDependency(String),
}

impl DispatchError {
    /// What the error says.
    pub open spec fn text(self) -> Seq<char> {
        match self {
            DispatchError::IllegalName(name) => "invalid task name '"@ + name@
                + "'; use letters, digits, '.', '_' and '-'"@,
            DispatchError::DuplicateName(name) => "task name '"@ + name@
                + "' is already in this run"@,
            DispatchError::UnknownDependency(name) => "depends_on references unknown task '"@
                + name@ + "'; only already-accepted tasks are allowed"@,
        }
    }

    /// The error as a text.
    pub fn message(&self) -> (message: String)
        ensures
            message@ == self.text(),
    {
        match self {
            DispatchError::IllegalName(name) => concat3(
                "invalid task name '",
                name.as_str(),
                "'; use letters, digits, '.', '_' and '-'",
            ),
            DispatchError::DuplicateName(name) => concat3(
                "task name '",
                name.as_str(),
                "' is already in this run",
            ),
            DispatchError::UnknownDependency(name) => concat3(
                "depends_on references unknown task '",
                name.as_str(),
                "'; only already-accepted tasks are allowed",
            ),
        }
    }
}

/// Checks that a new task may have this name.
pub fn validate_dispatch_name(name: &str, accepted: &NameSet) -> (result: Result<
    (),
    DispatchError,
>)
    ensures
        match result {
            Ok(_) => names::legal_name(name@) && !accepted@.contains(name@),
            Err(DispatchError::IllegalName(shown)) => !names::legal_name(name@) && shown@ == name@,
            Err(DispatchError::DuplicateName(shown)) => names::legal_name(name@)
                && accepted@.contains(name@) && shown@ == name@,
            Err(DispatchError::UnknownDependency(_)) => false,
        },
        result is Ok <==> {
            &&& !accepted@.contains(name@)
            &&& name@.len() >= 1
            &&& !(name@.len() == 1 && name@[0] == '.')
            &&& !(name@.len() == 2 && name@[0] == '.' && name@[1] == '.')
            &&& forall|i: int|
                0 <= i < name@.len() ==> ('a' <= #[trigger] name@[i] <= 'z') || ('A' <= name@[i]
                    <= 'Z') || ('0' <= name@[i] <= '9') || name@[i] == '.' || name@[i] == '_'
                    || name@[i] == '-'
        },
{
    if !is_legal_name(name) {
        return Err(DispatchError::IllegalName(name.to_owned()));
    }
    if accepted.contains(name) {
        return Err(DispatchError::DuplicateName(name.to_owned()));
    }
    Ok(())
}

/// Checks that a new task depends on accepted tasks only. The first dependency that is not
/// accepted is the one named.
pub fn validate_dispatch_deps(depends_on: &[String], accepted: &NameSet) -> (result: Result<
    (),
    DispatchError,
>)
    ensures
        match result {
            Ok(_) => names::texts(depends_on@).to_set().subset_of(accepted@),
            Err(DispatchError::UnknownDependency(shown)) => exists|i: int|
                {
                    &&& 0 <= i < depends_on@.len()
                    &&& #[trigger] depends_on@[i]@ == shown@
                    &&& !accepted@.contains(shown@)
                    &&& forall|j: int| 0 <= j < i ==> accepted@.contains(#[trigger] depends_on@[j]@)
                },
            Err(_) => false,
        },
        result is Ok <==> forall|i: int|
            0 <= i < depends_on@.len() ==> accepted@.contains(#[trigger] depends_on@[i]@),
{
    let mut i: usize = 0;
    while i < depends_on.len()
        invariant
            i <= depends_on@.len(),
            forall|j: int| 0 <= j < i ==> accepted@.contains(#[trigger] depends_on@[j]@),
        decreases depends_on@.len() - i,
    {
        if !accepted.contains(depends_on[i].as_str()) {
            return Err(DispatchError::UnknownDependency(depends_on[i].clone()));
        }
        i += 1;
    }
    proof {
        let deps = names::texts(depends_on@);
        assert forall|n: Seq<char>| deps.to_set().contains(n) implies accepted@.contains(n) by {
            let k = deps.index_of(n);
            assert(accepted@.contains(depends_on@[k]@));
        }
    }
    Ok(())
}

/// The record to write for a task that will never start. It ends now.
pub fn write_cancelled_meta(
    recorded: Option<TaskMeta>,
    task: &TaskDef,
    reason: &str,
) -> (meta: TaskMeta)
    ensures
        exists|now: Seq<char>|
            clock::is_timestamp(now) && meta@ == #[trigger] MetaRecord::cancelled(
                task::optional_record(recorded),
                *task,
                reason@,
                now,
            ),
        meta.status == TaskStatus::Cancelled,
        meta.error matches Some(error) && error@ == reason@,
        meta.end_time is Some,
        match recorded {
            Some(record) => {
                &&& meta.name@ == record.name@
                &&& meta.cwd@ == record.cwd@
                &&& meta.prompt@ == record.prompt@
                &&& meta.wave == record.wave
                &&& meta.other@ == record.other@
                &&& record.agent_id@.len() > 0 ==> meta.agent_id@ == record.agent_id@
                &&& record.thread_id@.len() > 0 ==> meta.thread_id@ == record.thread_id@
            },
            None => {
                &&& meta.name@ == task.name@
                &&& meta.cwd@ == task.cwd@
                &&& meta.prompt@ == task.prompt@
                &&& meta.wave is None
                &&& meta.other@.len() == 0
            },
        },
        recorded is None || recorded->0.agent_id@.len() == 0 ==> meta.agent_id@
            == match task.agent_id {
            Some(label) => label@,
            None => task.name@,
        },
        recorded is None || recorded->0.thread_id@.len() == 0 ==> meta.thread_id@
            == match task.thread_id {
            Some(label) => label@,
            None => task.name@,
        },
{
    let now = local_now();
    TaskMeta::cancelled_at(recorded, task, reason, now)
}

/// The record to write for a task that a cancellation took off the queue.
pub fn dropped_meta(recorded: Option<TaskMeta>, task: &TaskDef) -> (meta: TaskMeta)
    ensures
        exists|now: Seq<char>|
            clock::is_timestamp(now) && meta@ == #[trigger] MetaRecord::cancelled(
                task::optional_record(recorded),
                *task,
                "run cancelled before task started"@,
                now,
            ),
        meta.status == TaskStatus::Cancelled,
        meta.error matches Some(error) && error@ == "run cancelled before task started"@,
        meta.end_time is Some,
        match recorded {
            Some(record) => {
                &&& meta.name@ == record.name@
                &&& meta.cwd@ == record.cwd@
                &&& meta.prompt@ == record.prompt@
                &&& meta.wave == record.wave
                &&& meta.other@ == record.other@
                &&& record.agent_id@.len() > 0 ==> meta.agent_id@ == record.agent_id@
                &&& record.thread_id@.len() > 0 ==> meta.thread_id@ == record.thread_id@
            },
            None => {
                &&& meta.name@ == task.name@
                &&& meta.cwd@ == task.cwd@
                &&& meta.prompt@ == task.prompt@
                &&& meta.wave is None
                &&& meta.other@.len() == 0
            },
        },
        recorded is None || recorded->0.agent_id@.len() == 0 ==> meta.agent_id@
            == match task.agent_id {
            Some(label) => label@,
            None => task.name@,
        },
        recorded is None || recorded->0.thread_id@.len() == 0 ==> meta.thread_id@
            == match task.thread_id {
            Some(label) => label@,
            None => task.name@,
        },
{
    write_cancelled_meta(recorded, task, "run cancelled before task started")
}

} // verus!
