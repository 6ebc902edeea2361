//! What each step of a run does to the run: starting tasks, and taking in one event.

use crate::coordinator;
use crate::coordinator::{
    DispatchError, DispatchRequest, NextStep, PendingTask, QueuedTask, RunEvent,
};
use crate::name_laws;
use crate::run_laws;
use crate::run_laws::Turn;
use crate::run_state;
use crate::run_state::RunState;
use crate::sequences;
use crate::task;
use crate::task::{TaskDef, TaskRunReport, TaskStatus};
use vstd::prelude::*;

verus! {

/// A queued task is the task that was accepted, behind its barrier.
pub proof fn law_a_queue_shows_each_of_its_tasks(queue: Seq<PendingTask>)
    ensures
        coordinator::queue_view(queue).len() == queue.len(),
        forall|i: int|
            0 <= i < queue.len() ==> {
                &&& (#[trigger] coordinator::queue_view(queue)[i]).def == queue[i].def
                &&& coordinator::queue_view(queue)[i].barrier == queue[i].barrier@
            },
{
}

/// The names and the definitions of a queue are those of its tasks, each at its place.
pub proof fn law_a_queue_gives_names_and_definitions(queue: Seq<QueuedTask>)
    ensures
        run_state::queue_names(queue).len() == queue.len(),
        run_state::queue_defs(queue).len() == queue.len(),
        forall|i: int|
            0 <= i < queue.len() ==> #[trigger] run_state::queue_names(queue)[i]
                == queue[i].def.name@,
        forall|i: int|
            0 <= i < queue.len() ==> #[trigger] run_state::queue_defs(queue)[i] == queue[i].def,
{
}

/// A task may start just if every name of its barrier and every name that it lists is
/// completed.
pub proof fn law_a_task_waits_for_its_barrier_and_its_list(
    waiting: QueuedTask,
    completed: Set<Seq<char>>,
)
    ensures
        waiting.unblocked(completed) <==> {
            &&& forall|name: Seq<char>| #[trigger]
                waiting.barrier.contains(name) ==> completed.contains(name)
            &&& forall|i: int|
                0 <= i < waiting.def.depends_on@.len() ==> completed.contains(
                    #[trigger] waiting.def.depends_on@[i]@,
                )
        },
{
    let deps = waiting.def.depends_on@;
    name_laws::law_a_list_shows_each_of_its_strings(deps);
    if waiting.unblocked(completed) {
        assert forall|i: int| 0 <= i < deps.len() implies completed.contains(
            #[trigger] deps[i]@,
        ) by {
            assert(crate::names::texts(deps).to_set().contains(deps[i]@));
            assert(waiting.needs().contains(deps[i]@));
        }
        assert forall|name: Seq<char>| #[trigger] waiting.barrier.contains(
            name,
        ) implies completed.contains(name) by {
            assert(waiting.needs().contains(name));
        }
    }
    if (forall|name: Seq<char>| #[trigger]
        waiting.barrier.contains(name) ==> completed.contains(name)) && (forall|i: int|
        0 <= i < deps.len() ==> completed.contains(#[trigger] deps[i]@)) {
        assert forall|name: Seq<char>| waiting.needs().contains(name) implies completed.contains(
            name,
        ) by {
            if !waiting.barrier.contains(name) {
                assert(crate::names::texts(deps).to_set().contains(name));
            }
        }
    }
}

/// The more is completed, the more may start.
pub proof fn law_completing_more_blocks_nothing(
    waiting: QueuedTask,
    fewer: Set<Seq<char>>,
    more: Set<Seq<char>>,
)
    requires
        waiting.unblocked(fewer),
        fewer.subset_of(more),
    ensures
        waiting.unblocked(more),
{
    law_a_task_waits_for_its_barrier_and_its_list(waiting, fewer);
    law_a_task_waits_for_its_barrier_and_its_list(waiting, more);
}

/// A task whose barrier and list are all completed starts, and only such a task does; what does
/// not start stays queued.
pub proof fn law_every_task_starts_or_stays(state: RunState, i: int)
    requires
        0 <= i < state.pending.len(),
    ensures
        ({
            let waiting = state.pending[i];
            let free = (forall|name: Seq<char>| #[trigger]
                waiting.barrier.contains(name) ==> state.completed.contains(name)) && (forall|
                d: int,
            |
                0 <= d < waiting.def.depends_on@.len() ==> state.completed.contains(
                    #[trigger] waiting.def.depends_on@[d]@,
                ));
            &&& free ==> state.starting(false).contains(waiting.def)
            &&& !free ==> state.after_start(false).pending.contains(waiting)
            &&& state.after_start(false).pending.contains(waiting) ==> !free
        }),
{
    let waiting = state.pending[i];
    let open = |task: QueuedTask| task.unblocked(state.completed);
    let shut = |task: QueuedTask| !task.unblocked(state.completed);
    law_a_task_waits_for_its_barrier_and_its_list(waiting, state.completed);
    assert(state.pending.contains(waiting));
    sequences::lemma_filter_members(state.pending, open, waiting);
    sequences::lemma_filter_members(state.pending, shut, waiting);
    if open(waiting) {
        let a = state.ready().index_of(waiting);
        assert(state.starting(false)[a] == waiting.def);
    }
}

/// Tasks that do not start keep their order in the queue.
pub proof fn law_waiting_tasks_keep_their_order(state: RunState, a: int, b: int)
    requires
        0 <= a < b < state.after_start(false).pending.len(),
    ensures
        exists|i: int, j: int|
            0 <= i < j < state.pending.len() && #[trigger] state.pending[i] == state.after_start(
                false,
            ).pending[a] && #[trigger] state.pending[j] == state.after_start(false).pending[b],
{
    let shut = |task: QueuedTask| !task.unblocked(state.completed);
    let at = sequences::lemma_filter_keeps_order(state.pending, shut, a, b);
    assert(state.pending[at.0] == state.after_start(false).pending[a]);
    assert(state.pending[at.1] == state.after_start(false).pending[b]);
}

/// Starting tasks makes them run and counts a worker for each; nothing else changes, and nothing
/// at all where the run is cancelled.
pub proof fn law_starting_counts_every_worker(state: RunState, cancelled: bool)
    ensures
        ({
            let started = state.starting(cancelled);
            let after = state.after_start(cancelled);
            &&& after.in_flight == state.in_flight + started.len()
            &&& after.pending.len() == state.pending.len() - started.len()
            &&& forall|name: Seq<char>| #[trigger]
                after.running.contains(name) <==> state.running.contains(name) || exists|k: int|
                    0 <= k < started.len() && #[trigger] started[k].name@ == name
            &&& after.completed == state.completed
            &&& after.accepted == state.accepted
            &&& after.all_ok == state.all_ok
            &&& after.sealed == state.sealed
            &&& cancelled ==> started.len() == 0 && after == state
        }),
{
    let started = state.starting(cancelled);
    let after = state.after_start(cancelled);
    run_laws::law_starting_takes_tasks_off_the_queue(state, cancelled);
    if !cancelled {
        let names = run_state::queue_names(state.ready());
        assert forall|name: Seq<char>| #[trigger]
            after.running.contains(name) <==> state.running.contains(name) || exists|k: int|
                0 <= k < started.len() && #[trigger] started[k].name@ == name by {
            if names.contains(name) {
                let k = names.index_of(name);
                assert(started[k].name@ == name);
            }
            if exists|k: int| 0 <= k < started.len() && #[trigger] started[k].name@ == name {
                let k = choose|k: int|
                    0 <= k < started.len() && #[trigger] started[k].name@ == name;
                assert(names[k] == name);
            }
        }
    }
}

/// A report makes its task completed and no longer running, and counts one worker less. The
/// verdict turns bad just if the task failed or was cancelled, and the run is cancelled just if
/// the task failed, whatever else the report says.
pub proof fn law_a_report_completes_its_task(state: RunState, report: TaskRunReport)
    ensures
        ({
            let event = RunEvent::Reported(report);
            let after = state.after_event(event);
            &&& event.is_failure() == (report.status == TaskStatus::Failed)
            &&& report.status == TaskStatus::Failed ==> !after.all_ok
            &&& report.status == TaskStatus::Cancelled ==> !after.all_ok
            &&& report.status != TaskStatus::Failed && report.status != TaskStatus::Cancelled
                ==> after.all_ok == state.all_ok
            &&& forall|name: Seq<char>| #[trigger]
                after.completed.contains(name) <==> state.completed.contains(name) || name
                    == report.name@
            &&& forall|name: Seq<char>| #[trigger]
                after.running.contains(name) <==> state.running.contains(name) && name
                    != report.name@
            &&& state.in_flight > 0 ==> after.in_flight == state.in_flight - 1
            &&& state.in_flight == 0 ==> after.in_flight == 0
            &&& after.pending == state.pending
            &&& after.accepted == state.accepted
            &&& after.sealed == state.sealed
            &&& !event.closes_dispatch()
            &&& state.dropped_by(event).len() == 0
            &&& event.brings().len() == 0
        }),
{
}

/// A crash counts one worker less, makes the verdict bad and cancels the run; nothing else
/// changes.
pub proof fn law_a_crash_cancels_the_run(state: RunState)
    ensures
        ({
            let after = state.after_event(RunEvent::Crashed);
            &&& RunEvent::Crashed.is_failure()
            &&& !after.all_ok
            &&& state.in_flight > 0 ==> after.in_flight == state.in_flight - 1
            &&& state.in_flight == 0 ==> after.in_flight == 0
            &&& after.pending == state.pending
            &&& after.accepted == state.accepted
            &&& after.running == state.running
            &&& after.completed == state.completed
            &&& after.sealed == state.sealed
            &&& !RunEvent::Crashed.closes_dispatch()
            &&& state.dropped_by(RunEvent::Crashed).len() == 0
            &&& RunEvent::Crashed.brings().len() == 0
        }),
{
}

/// That there was no worker to wait for changes nothing and asks for nothing.
pub proof fn law_no_worker_changes_nothing(state: RunState)
    ensures
        state.after_event(RunEvent::NoWorker) == state,
        !RunEvent::NoWorker.is_failure(),
        !RunEvent::NoWorker.closes_dispatch(),
        state.dropped_by(RunEvent::NoWorker).len() == 0,
        RunEvent::NoWorker.brings().len() == 0,
{
}

/// A request for one task puts it at the end of the queue and makes its name accepted. Without
/// listed names it waits for all that runs or is queued; with some it has no barrier. Nothing
/// else changes.
pub proof fn law_a_requested_task_is_queued_last(state: RunState, def: TaskDef)
    ensures
        ({
            let event = RunEvent::Dispatched(DispatchRequest::Task(def));
            let after = state.after_event(event);
            let last = after.pending[after.pending.len() - 1];
            &&& after.pending.len() == state.pending.len() + 1
            &&& after.pending.take(state.pending.len() as int) == state.pending
            &&& last.def == def
            &&& forall|name: Seq<char>| #[trigger]
                last.barrier.contains(name) <==> def.depends_on@.len() == 0 && (
                state.running.contains(name) || exists|i: int|
                    0 <= i < state.pending.len() && (#[trigger] state.pending[i]).def.name@ == name)
            &&& forall|name: Seq<char>| #[trigger]
                after.accepted.contains(name) <==> state.accepted.contains(name) || name
                    == def.name@
            &&& after.running == state.running
            &&& after.completed == state.completed
            &&& after.in_flight == state.in_flight
            &&& after.all_ok == state.all_ok
            &&& after.sealed == state.sealed
            &&& !event.is_failure()
            &&& !event.closes_dispatch()
            &&& state.dropped_by(event).len() == 0
            &&& event.brings() == seq![def]
        }),
{
    let event = RunEvent::Dispatched(DispatchRequest::Task(def));
    let after = state.after_event(event);
    let last = after.pending[after.pending.len() - 1];
    assert(after.pending.take(state.pending.len() as int) =~= state.pending);
    assert forall|name: Seq<char>| #[trigger]
        last.barrier.contains(name) <==> def.depends_on@.len() == 0 && (state.running.contains(name)
            || exists|i: int|
            0 <= i < state.pending.len() && (#[trigger] state.pending[i]).def.name@ == name) by {
        lemma_queued_names(state.pending, name);
    }
    let names = task::task_names(seq![def]);
    assert forall|name: Seq<char>| #[trigger]
        after.accepted.contains(name) <==> state.accepted.contains(name) || name == def.name@ by {
        assert(names[0] == def.name@);
        if names.contains(name) {
            assert(names.index_of(name) == 0);
        }
        if name == def.name@ {
            assert(names.contains(name));
        }
    }
}

/// A name is one of a queue just if some task there has it.
proof fn lemma_queued_names(queue: Seq<QueuedTask>, name: Seq<char>)
    ensures
        run_state::queue_names(queue).contains(name) <==> exists|i: int|
            0 <= i < queue.len() && (#[trigger] queue[i]).def.name@ == name,
{
    let names = run_state::queue_names(queue);
    if names.contains(name) {
        let i = names.index_of(name);
        assert(queue[i].def.name@ == name);
    }
    if exists|i: int| 0 <= i < queue.len() && (#[trigger] queue[i]).def.name@ == name {
        let i = choose|i: int| 0 <= i < queue.len() && (#[trigger] queue[i]).def.name@ == name;
        assert(names[i] == name);
    }
}

/// A request for a batch puts its tasks at the end of the queue, in order, and makes their names
/// accepted. Each waits for all that runs or is queued when the batch comes. Nothing else
/// changes.
pub proof fn law_a_requested_batch_is_queued_last(state: RunState, defs: Vec<TaskDef>)
    ensures
        ({
            let event = RunEvent::Dispatched(DispatchRequest::Wave(defs));
            let after = state.after_event(event);
            &&& after.pending.len() == state.pending.len() + defs@.len()
            &&& after.pending.take(state.pending.len() as int) == state.pending
            &&& forall|k: int|
                0 <= k < defs@.len() ==> (#[trigger] after.pending[state.pending.len() + k]).def
                    == defs@[k]
            &&& forall|k: int, name: Seq<char>|
                0 <= k < defs@.len() ==> (#[trigger] after.pending[state.pending.len()
                    + k].barrier.contains(name) <==> state.running.contains(name) || exists|i: int|
                    0 <= i < state.pending.len() && (#[trigger] state.pending[i]).def.name@ == name)
            &&& forall|name: Seq<char>| #[trigger]
                after.accepted.contains(name) <==> state.accepted.contains(name) || exists|k: int|
                    0 <= k < defs@.len() && (#[trigger] defs@[k]).name@ == name
            &&& after.running == state.running
            &&& after.completed == state.completed
            &&& after.in_flight == state.in_flight
            &&& after.all_ok == state.all_ok
            &&& after.sealed == state.sealed
            &&& !event.is_failure()
            &&& !event.closes_dispatch()
            &&& state.dropped_by(event).len() == 0
            &&& event.brings() == defs@
        }),
{
    let event = RunEvent::Dispatched(DispatchRequest::Wave(defs));
    let after = state.after_event(event);
    assert(after.pending.take(state.pending.len() as int) =~= state.pending);
    assert forall|k: int, name: Seq<char>| 0 <= k < defs@.len() implies (
    #[trigger] after.pending[state.pending.len() + k].barrier.contains(name)
        <==> state.running.contains(name) || exists|i: int|
        0 <= i < state.pending.len() && (#[trigger] state.pending[i]).def.name@ == name) by {
        lemma_queued_names(state.pending, name);
    }
    let names = task::task_names(defs@);
    assert forall|name: Seq<char>| #[trigger]
        after.accepted.contains(name) <==> state.accepted.contains(name) || exists|k: int|
            0 <= k < defs@.len() && (#[trigger] defs@[k]).name@ == name by {
        if names.contains(name) {
            let k = names.index_of(name);
            assert(defs@[k].name@ == name);
        }
        if exists|k: int| 0 <= k < defs@.len() && (#[trigger] defs@[k]).name@ == name {
            let k = choose|k: int| 0 <= k < defs@.len() && (#[trigger] defs@[k]).name@ == name;
            assert(names[k] == name);
        }
    }
}

/// The tasks that a run begins with are queued in order, behind no barrier, and their names are
/// accepted; all else is as it was.
pub proof fn law_first_tasks_have_no_barrier(state: RunState, tasks: Seq<TaskDef>)
    ensures
        ({
            let after = state.with_tasks(tasks, Set::empty());
            &&& after.pending.len() == state.pending.len() + tasks.len()
            &&& after.pending.take(state.pending.len() as int) == state.pending
            &&& forall|k: int|
                0 <= k < tasks.len() ==> (#[trigger] after.pending[state.pending.len() + k])
                    == (QueuedTask { def: tasks[k], barrier: Set::empty() })
            &&& forall|name: Seq<char>| #[trigger]
                after.accepted.contains(name) <==> state.accepted.contains(name) || exists|k: int|
                    0 <= k < tasks.len() && (#[trigger] tasks[k]).name@ == name
            &&& after.running == state.running
            &&& after.completed == state.completed
            &&& after.in_flight == state.in_flight
            &&& after.all_ok == state.all_ok
            &&& after.sealed == state.sealed
        }),
{
    let after = state.with_tasks(tasks, Set::empty());
    assert(after.pending.take(state.pending.len() as int) =~= state.pending);
    let names = task::task_names(tasks);
    assert forall|name: Seq<char>| #[trigger]
        after.accepted.contains(name) <==> state.accepted.contains(name) || exists|k: int|
            0 <= k < tasks.len() && (#[trigger] tasks[k]).name@ == name by {
        if names.contains(name) {
            let k = names.index_of(name);
            assert(tasks[k].name@ == name);
        }
        if exists|k: int| 0 <= k < tasks.len() && (#[trigger] tasks[k]).name@ == name {
            let k = choose|k: int| 0 <= k < tasks.len() && (#[trigger] tasks[k]).name@ == name;
            assert(names[k] == name);
        }
    }
}

/// A run that has not begun has nothing, a good verdict, and takes requests.
pub proof fn law_a_new_run_has_nothing(name: Seq<char>)
    ensures
        RunState::fresh().pending.len() == 0,
        !RunState::fresh().accepted.contains(name),
        !RunState::fresh().running.contains(name),
        !RunState::fresh().completed.contains(name),
        RunState::fresh().in_flight == 0,
        RunState::fresh().all_ok,
        !RunState::fresh().sealed,
{
}

/// Sealing, and the loss of the senders, close dispatch and seal the run; nothing else changes.
pub proof fn law_closing_seals_the_run(state: RunState)
    ensures
        state.after_event(RunEvent::Dispatched(DispatchRequest::Seal)) == (RunState {
            sealed: true,
            ..state
        }),
        state.after_event(RunEvent::DispatchClosed) == (RunState { sealed: true, ..state }),
        RunEvent::Dispatched(DispatchRequest::Seal).closes_dispatch(),
        RunEvent::DispatchClosed.closes_dispatch(),
        !RunEvent::Dispatched(DispatchRequest::Seal).is_failure(),
        !RunEvent::DispatchClosed.is_failure(),
        state.dropped_by(RunEvent::Dispatched(DispatchRequest::Seal)).len() == 0,
        state.dropped_by(RunEvent::DispatchClosed).len() == 0,
        RunEvent::Dispatched(DispatchRequest::Seal).brings().len() == 0,
        RunEvent::DispatchClosed.brings().len() == 0,
{
}

/// A cancellation drops every queued task, in order, makes the verdict bad, and closes dispatch;
/// what runs goes on running.
pub proof fn law_a_cancellation_drops_the_queue(state: RunState)
    ensures
        ({
            let after = state.after_event(RunEvent::Cancelled);
            let dropped = state.dropped_by(RunEvent::Cancelled);
            &&& dropped.len() == state.pending.len()
            &&& forall|i: int|
                0 <= i < state.pending.len() ==> #[trigger] dropped[i] == state.pending[i].def
            &&& after.pending.len() == 0
            &&& !after.all_ok
            &&& after.sealed
            &&& after.accepted == state.accepted
            &&& after.running == state.running
            &&& after.completed == state.completed
            &&& after.in_flight == state.in_flight
            &&& RunEvent::Cancelled.closes_dispatch()
            &&& !RunEvent::Cancelled.is_failure()
            &&& RunEvent::Cancelled.brings().len() == 0
        }),
{
}

/// A run is over just when it is sealed and has neither workers nor queued tasks, and then its
/// verdict is the one it has; else it waits for workers where there are any, and for requests
/// while it is not sealed.
pub proof fn law_a_run_ends_when_nothing_is_left(state: RunState)
    ensures
        match state.next_step() {
            NextStep::Finish(good) => {
                &&& state.in_flight == 0
                &&& state.pending.len() == 0
                &&& state.sealed
                &&& good == state.all_ok
            },
            NextStep::Wait { for_worker, for_request } => {
                &&& state.in_flight > 0 || state.pending.len() > 0 || !state.sealed
                &&& for_worker == (state.in_flight > 0)
                &&& for_request == !state.sealed
            },
        },
{
}

/// Over a run, the completed names are those that were completed and those that were reported.
pub proof fn law_completed_names_are_those_reported(
    state: RunState,
    turns: Seq<Turn>,
    name: Seq<char>,
)
    ensures
        state.after_turns(turns).completed.contains(name) <==> state.completed.contains(name)
            || exists|i: int|
            0 <= i < turns.len() && (#[trigger] turns[i]).event is Reported
                && turns[i].event->Reported_0.name@ == name,
    decreases turns.len(),
{
    if turns.len() > 0 {
        let next = state.after_turn(turns[0]);
        let rest = turns.skip(1);
        law_completed_names_are_those_reported(next, rest, name);
        assert(next.completed.contains(name) <==> state.completed.contains(name) || (
        turns[0].event matches RunEvent::Reported(report) && report.name@ == name));
        if exists|i: int|
            0 <= i < rest.len() && (#[trigger] rest[i]).event is Reported
                && rest[i].event->Reported_0.name@ == name {
            let i = choose|i: int|
                0 <= i < rest.len() && (#[trigger] rest[i]).event is Reported
                && rest[i].event->Reported_0.name@ == name;
            assert(turns[i + 1] == rest[i]);
        }
        if exists|i: int|
            0 <= i < turns.len() && (#[trigger] turns[i]).event is Reported
                && turns[i].event->Reported_0.name@ == name {
            let i = choose|i: int|
                0 <= i < turns.len() && (#[trigger] turns[i]).event is Reported
                && turns[i].event->Reported_0.name@ == name;
            if i > 0 {
                assert(rest[i - 1] == turns[i]);
            }
        }
    }
}

/// Over a whole run, a task starts only after every name that it lists was reported, or was
/// completed when the run began.
pub proof fn law_every_listed_name_is_reported_before_a_task_starts(
    state: RunState,
    turns: Seq<Turn>,
    k: int,
    t: TaskDef,
    d: int,
)
    requires
        0 <= k < turns.len(),
        state.after_turns(turns.take(k)).starting(turns[k].cancelled).contains(t),
        0 <= d < t.depends_on@.len(),
    ensures
        state.completed.contains(t.depends_on@[d]@) || exists|i: int|
            0 <= i < k && (#[trigger] turns[i]).event is Reported
                && turns[i].event->Reported_0.name@ == t.depends_on@[d]@,
{
    let before = turns.take(k);
    let then_state = state.after_turns(before);
    let name = t.depends_on@[d]@;
    run_laws::law_every_listed_name_is_completed_before_a_task_starts(
        then_state,
        turns[k].cancelled,
    );
    let started = then_state.starting(turns[k].cancelled);
    let at = started.index_of(t);
    assert(then_state.completed.contains(started[at].depends_on@[d]@));
    law_completed_names_are_those_reported(state, before, name);
    if !state.completed.contains(name) {
        let i = choose|i: int|
            0 <= i < before.len() && (#[trigger] before[i]).event is Reported
                && before[i].event->Reported_0.name@ == name;
        assert(turns[i] == before[i]);
    }
}

/// Over a run, the verdict is good just if it was, no task was reported as failed or cancelled,
/// no worker crashed, and the run was not cancelled.
pub proof fn law_the_verdict_is_good_just_without_failures(state: RunState, turns: Seq<Turn>)
    ensures
        state.after_turns(turns).all_ok <==> state.all_ok && forall|i: int|
            0 <= i < turns.len() ==> match (#[trigger] turns[i]).event {
                RunEvent::Reported(report) => report.status == TaskStatus::Done || report.status
                    == TaskStatus::Pending || report.status == TaskStatus::Running,
                RunEvent::Crashed => false,
                RunEvent::Cancelled => false,
                _ => true,
            },
    decreases turns.len(),
{
    if turns.len() > 0 {
        let next = state.after_turn(turns[0]);
        let rest = turns.skip(1);
        law_the_verdict_is_good_just_without_failures(next, rest);
        assert(next.all_ok <==> state.all_ok && match turns[0].event {
            RunEvent::Reported(report) => report.status == TaskStatus::Done || report.status
                == TaskStatus::Pending || report.status == TaskStatus::Running,
            RunEvent::Crashed => false,
            RunEvent::Cancelled => false,
            _ => true,
        });
        assert(forall|i: int| 0 <= i < rest.len() ==> #[trigger] rest[i] == turns[i + 1]);
        assert(forall|i: int| 1 <= i < turns.len() ==> #[trigger] turns[i] == rest[i - 1]);
    }
}

/// A refused name or dependency is named in the message.
pub proof fn law_refusals_name_what_they_refuse(name: String)
    ensures
        DispatchError::IllegalName(name).text() == "invalid task name '"@ + name@
            + "'; use letters, digits, '.', '_' and '-'"@,
        DispatchError::DuplicateName(name).text() == "task name '"@ + name@
            + "' is already in this run"@,
        DispatchError::UnknownDependency(name).text() == "depends_on references unknown task '"@
            + name@ + "'; only already-accepted tasks are allowed"@,
{
}

} // verus!
