//! What holds of every run, whatever its workers, its requests and its cancellation do.

use crate::coordinator::{DispatchRequest, NextStep, QueuedTask, RunEvent};
use crate::name_laws;
use crate::run_state;
use crate::run_state::RunState;
use crate::sequences;
use crate::task;
use crate::task::{MetaRecord, TaskDef, TaskStatus};
use vstd::multiset::Multiset;
use vstd::prelude::*;

verus! {

/// One turn of a run's loop: whether the run is cancelled when tasks are started, and the event
/// that the loop then wakes up to.
pub struct Turn {
    pub cancelled: bool,
    pub event: RunEvent,
}

impl RunState {
    /// The state after one turn.
    pub open spec fn after_turn(self, turn: Turn) -> RunState {
        self.after_start(turn.cancelled).after_event(turn.event)
    }

    /// The state after some turns.
    pub open spec fn after_turns(self, turns: Seq<Turn>) -> RunState
        decreases turns.len(),
    {
        if turns.len() == 0 {
            self
        } else {
            self.after_turn(turns[0]).after_turns(turns.skip(1))
        }
    }

    /// The tasks started over some turns.
    pub open spec fn started_over(self, turns: Seq<Turn>) -> Seq<TaskDef>
        decreases turns.len(),
    {
        if turns.len() == 0 {
            Seq::empty()
        } else {
            self.starting(turns[0].cancelled) + self.after_turn(turns[0]).started_over(
                turns.skip(1),
            )
        }
    }

    /// The tasks dropped over some turns.
    pub open spec fn dropped_over(self, turns: Seq<Turn>) -> Seq<TaskDef>
        decreases turns.len(),
    {
        if turns.len() == 0 {
            Seq::empty()
        } else {
            self.after_start(turns[0].cancelled).dropped_by(turns[0].event) + self.after_turn(
                turns[0],
            ).dropped_over(turns.skip(1))
        }
    }

    /// The queue as an unordered collection of task definitions.
    pub open spec fn queued_defs(self) -> Multiset<TaskDef> {
        run_state::queue_defs(self.pending).to_multiset()
    }

    /// The workers still to come in: those in flight and those of queued tasks.
    pub open spec fn work_left(self) -> nat {
        self.in_flight + self.pending.len()
    }
}

/// The tasks brought over some turns.
pub open spec fn brought_over(turns: Seq<Turn>) -> Seq<TaskDef>
    decreases turns.len(),
{
    if turns.len() == 0 {
        Seq::empty()
    } else {
        turns[0].event.brings() + brought_over(turns.skip(1))
    }
}

/// A task starts only when everything that it needs is completed, and then it does start,
/// unless the run is cancelled.
pub proof fn law_a_task_starts_just_when_its_needs_are_met(state: RunState, def: TaskDef)
    ensures
        state.starting(false).contains(def) <==> exists|i: int|
            {
                &&& 0 <= i < state.pending.len()
                &&& (#[trigger] state.pending[i]).def == def
                &&& state.pending[i].needs().subset_of(state.completed)
            },
        !state.starting(true).contains(def),
{
    let open = |task: QueuedTask| task.unblocked(state.completed);
    let ready = state.ready();
    if state.starting(false).contains(def) {
        let a = state.starting(false).index_of(def);
        sequences::lemma_filter_members(state.pending, open, ready[a]);
        assert(ready.contains(ready[a]));
        let i = state.pending.index_of(ready[a]);
        assert(state.pending[i].def == def);
    }
    if exists|i: int|
        {
            &&& 0 <= i < state.pending.len()
            &&& (#[trigger] state.pending[i]).def == def
            &&& state.pending[i].needs().subset_of(state.completed)
        } {
        let i = choose|i: int|
            {
                &&& 0 <= i < state.pending.len()
                &&& (#[trigger] state.pending[i]).def == def
                &&& state.pending[i].needs().subset_of(state.completed)
            };
        sequences::lemma_filter_members(state.pending, open, state.pending[i]);
        assert(state.pending.contains(state.pending[i]));
        let a = ready.index_of(state.pending[i]);
        assert(state.starting(false)[a] == def);
    }
}

/// A task that starts has all its dependencies completed.
pub proof fn law_dependencies_complete_before_a_task_starts(
    state: RunState,
    cancelled: bool,
    def: TaskDef,
)
    requires
        state.starting(cancelled).contains(def),
    ensures
        task::dependencies(def).subset_of(state.completed),
{
    law_a_task_starts_just_when_its_needs_are_met(state, def);
    let i = choose|i: int|
        {
            &&& 0 <= i < state.pending.len()
            &&& (#[trigger] state.pending[i]).def == def
            &&& state.pending[i].needs().subset_of(state.completed)
        };
    assert forall|dep: Seq<char>| task::dependencies(def).contains(
        dep,
    ) implies state.completed.contains(dep) by {
        assert(state.pending[i].needs().contains(dep));
    }
}

/// Every name that a starting task lists is completed.
pub proof fn law_every_listed_name_is_completed_before_a_task_starts(
    state: RunState,
    cancelled: bool,
)
    ensures
        forall|k: int, d: int|
            0 <= k < state.starting(cancelled).len() && 0 <= d < state.starting(
                cancelled,
            )[k].depends_on@.len() ==> state.completed.contains(
                #[trigger] state.starting(cancelled)[k].depends_on@[d]@,
            ),
{
    let started = state.starting(cancelled);
    assert forall|k: int, d: int|
        0 <= k < started.len() && 0 <= d < started[k].depends_on@.len() implies
        state.completed.contains(#[trigger] started[k].depends_on@[d]@) by {
        assert(started.contains(started[k]));
        law_dependencies_complete_before_a_task_starts(state, cancelled, started[k]);
        name_laws::law_every_listed_name_is_a_dependency(
            started[k],
            started[k].depends_on@[d]@,
        );
    }
}

/// Tasks start in the order in which they were queued.
pub proof fn law_tasks_start_in_queue_order(state: RunState, a: int, b: int)
    requires
        0 <= a < b < state.starting(false).len(),
    ensures
        exists|i: int, j: int|
            0 <= i < j < state.pending.len() && (#[trigger] state.pending[i]).def
                == state.starting(false)[a] && (#[trigger] state.pending[j]).def
                == state.starting(false)[b],
{
    let open = |task: QueuedTask| task.unblocked(state.completed);
    let at = sequences::lemma_filter_keeps_order(state.pending, open, a, b);
    assert(state.pending[at.0].def == state.starting(false)[a]);
    assert(state.pending[at.1].def == state.starting(false)[b]);
}

/// The definitions of a queue that is divided are divided.
proof fn lemma_defs_divide(queue: Seq<QueuedTask>, completed: Set<Seq<char>>)
    ensures
        run_state::queue_defs(queue).to_multiset() == run_state::queue_defs(
            run_state::ready_in(queue, completed),
        ).to_multiset().add(
            run_state::queue_defs(run_state::blocked_in(queue, completed)).to_multiset(),
        ),
        run_state::ready_in(queue, completed).len() + run_state::blocked_in(queue, completed).len()
            == queue.len(),
    decreases queue.len(),
{
    broadcast use vstd::multiset::group_multiset_axioms;

    if queue.len() == 0 {
        assert(queue =~= Seq::empty());
        run_state::lemma_divide_empty(completed);
        run_state::queue_defs(queue).to_multiset_ensures();
        assert(run_state::queue_defs(queue).to_multiset().add(
            run_state::queue_defs(queue).to_multiset(),
        ) =~= run_state::queue_defs(queue).to_multiset());
    } else {
        let front = queue.drop_last();
        let last = queue.last();
        let ready = run_state::ready_in(front, completed);
        let blocked = run_state::blocked_in(front, completed);
        lemma_defs_divide(front, completed);
        assert(queue =~= front.push(last));
        run_state::lemma_divide_push(front, last, completed);
        assert(run_state::queue_defs(queue) =~= run_state::queue_defs(front).push(last.def));
        assert(run_state::queue_defs(ready.push(last)) =~= run_state::queue_defs(ready).push(
            last.def,
        ));
        assert(run_state::queue_defs(blocked.push(last)) =~= run_state::queue_defs(blocked).push(
            last.def,
        ));
        run_state::queue_defs(front).to_multiset_ensures();
        run_state::queue_defs(ready).to_multiset_ensures();
        run_state::queue_defs(blocked).to_multiset_ensures();
        assert(run_state::queue_defs(queue).to_multiset() =~= run_state::queue_defs(
            run_state::ready_in(queue, completed),
        ).to_multiset().add(
            run_state::queue_defs(run_state::blocked_in(queue, completed)).to_multiset(),
        ));
    }
}

/// A task leaves the queue by starting, and in no other way while tasks are started.
pub proof fn law_starting_takes_tasks_off_the_queue(state: RunState, cancelled: bool)
    ensures
        state.queued_defs() == state.starting(cancelled).to_multiset().add(
            state.after_start(cancelled).queued_defs(),
        ),
        state.after_start(cancelled).work_left() == state.work_left(),
{
    broadcast use vstd::multiset::group_multiset_axioms;

    if cancelled {
        Seq::<TaskDef>::empty().to_multiset_ensures();
        assert(state.queued_defs() =~= Seq::<TaskDef>::empty().to_multiset().add(
            state.queued_defs(),
        ));
    } else {
        lemma_defs_divide(state.pending, state.completed);
    }
}

/// What an event brings is queued, what it drops leaves the queue, and nothing else changes
/// there.
pub proof fn law_events_change_the_queue_as_they_say(state: RunState, event: RunEvent)
    ensures
        state.queued_defs().add(event.brings().to_multiset()) == state.dropped_by(
            event,
        ).to_multiset().add(state.after_event(event).queued_defs()),
{
    broadcast use vstd::multiset::group_multiset_axioms;

    let none = Seq::<TaskDef>::empty();
    none.to_multiset_ensures();
    let before = run_state::queue_defs(state.pending);
    let brings = event.brings();
    match event {
        RunEvent::Dispatched(DispatchRequest::Seal) => {
            assert(before.to_multiset().add(none.to_multiset()) =~= none.to_multiset().add(
                before.to_multiset(),
            ));
        },
        RunEvent::Dispatched(request) => {
            let after = run_state::queue_defs(state.after_event(event).pending);
            assert(after =~= before + brings);
            vstd::seq_lib::lemma_multiset_commutative(before, brings);
            assert(none.to_multiset().add(after.to_multiset()) =~= before.to_multiset().add(
                brings.to_multiset(),
            ));
        },
        RunEvent::Cancelled => {
            let after = run_state::queue_defs(state.after_event(event).pending);
            assert(after =~= none);
        },
        _ => {
            assert(before.to_multiset().add(none.to_multiset()) =~= none.to_multiset().add(
                before.to_multiset(),
            ));
        },
    }
}

/// No task is lost and none is doubled: what was queued and what was brought is what started,
/// what was dropped and what is queued still.
pub proof fn law_no_task_is_lost(state: RunState, turns: Seq<Turn>)
    ensures
        state.queued_defs().add(brought_over(turns).to_multiset()) == state.started_over(
            turns,
        ).to_multiset().add(state.dropped_over(turns).to_multiset()).add(
            state.after_turns(turns).queued_defs(),
        ),
    decreases turns.len(),
{
    broadcast use vstd::multiset::group_multiset_axioms;

    if turns.len() == 0 {
        let none = Seq::<TaskDef>::empty();
        none.to_multiset_ensures();
        assert(state.queued_defs().add(none.to_multiset()) =~= none.to_multiset().add(
            none.to_multiset(),
        ).add(state.queued_defs()));
    } else {
        let turn = turns[0];
        let rest = turns.skip(1);
        let begun = state.after_start(turn.cancelled);
        let next = state.after_turn(turn);
        law_starting_takes_tasks_off_the_queue(state, turn.cancelled);
        law_events_change_the_queue_as_they_say(begun, turn.event);
        law_no_task_is_lost(next, rest);
        vstd::seq_lib::lemma_multiset_commutative(turn.event.brings(), brought_over(rest));
        vstd::seq_lib::lemma_multiset_commutative(
            state.starting(turn.cancelled),
            next.started_over(rest),
        );
        vstd::seq_lib::lemma_multiset_commutative(
            begun.dropped_by(turn.event),
            next.dropped_over(rest),
        );
        let left = state.queued_defs().add(brought_over(turns).to_multiset());
        let right = state.started_over(turns).to_multiset().add(
            state.dropped_over(turns).to_multiset(),
        ).add(state.after_turns(turns).queued_defs());
        assert forall|def: TaskDef| left.count(def) == right.count(def) by {
            assert(begun.queued_defs().add(turn.event.brings().to_multiset()).count(def)
                == begun.dropped_by(turn.event).to_multiset().add(next.queued_defs()).count(def));
            assert(next.queued_defs().add(brought_over(rest).to_multiset()).count(def)
                == next.started_over(rest).to_multiset().add(
                next.dropped_over(rest).to_multiset(),
            ).add(next.after_turns(rest).queued_defs()).count(def));
        }
        assert(left =~= right);
    }
}

/// A run's verdict is good just if it was and no setback came.
pub proof fn law_verdict_counts_every_setback(state: RunState, turns: Seq<Turn>)
    ensures
        state.after_turns(turns).all_ok == (state.all_ok && forall|i: int|
            0 <= i < turns.len() ==> !(#[trigger] turns[i]).event.is_setback()),
    decreases turns.len(),
{
    if turns.len() > 0 {
        let next = state.after_turn(turns[0]);
        let rest = turns.skip(1);
        law_verdict_counts_every_setback(next, rest);
        assert(next.all_ok == (state.all_ok && !turns[0].event.is_setback()));
        assert(forall|i: int| 0 <= i < rest.len() ==> #[trigger] rest[i] == turns[i + 1]);
        assert(forall|i: int| 1 <= i < turns.len() ==> #[trigger] turns[i] == rest[i - 1]);
    }
}

/// Over a run names are only added to the accepted and the completed ones, a bad verdict stays
/// bad, and a sealed run stays sealed.
pub proof fn law_progress_is_never_undone(state: RunState, turns: Seq<Turn>)
    ensures
        state.accepted.subset_of(state.after_turns(turns).accepted),
        state.completed.subset_of(state.after_turns(turns).completed),
        state.after_turns(turns).all_ok ==> state.all_ok,
        state.sealed ==> state.after_turns(turns).sealed,
    decreases turns.len(),
{
    if turns.len() > 0 {
        let begun = state.after_start(turns[0].cancelled);
        let next = state.after_turn(turns[0]);
        assert(state.accepted.subset_of(next.accepted));
        assert(state.completed.subset_of(next.completed));
        law_progress_is_never_undone(next, turns.skip(1));
    }
}

/// A sealed run waits for no request, so that none can reach it.
pub proof fn law_a_sealed_run_takes_no_request(state: RunState)
    requires
        state.sealed,
    ensures
        match state.next_step() {
            NextStep::Finish(_) => true,
            NextStep::Wait { for_worker, for_request } => !for_request,
        },
{
}

/// A run that still takes requests does not end.
pub proof fn law_an_open_run_does_not_end(state: RunState)
    requires
        !state.sealed,
    ensures
        state.next_step() == (NextStep::Wait {
            for_worker: state.in_flight > 0,
            for_request: true,
        }),
{
}

/// A run that took requests ends only after one of its events closed dispatch. The loss of the
/// senders is such an event, and it comes when every request that they sent has been taken.
pub proof fn law_a_run_ends_only_once_dispatch_is_closed(state: RunState, turns: Seq<Turn>)
    requires
        !state.sealed,
        state.after_turns(turns).next_step() is Finish,
    ensures
        exists|i: int| 0 <= i < turns.len() && (#[trigger] turns[i]).event.closes_dispatch(),
    decreases turns.len(),
{
    if turns.len() > 0 && !turns[0].event.closes_dispatch() {
        let rest = turns.skip(1);
        law_a_run_ends_only_once_dispatch_is_closed(state.after_turn(turns[0]), rest);
        let i = choose|i: int|
            0 <= i < rest.len() && (#[trigger] rest[i]).event.closes_dispatch();
        assert(turns[i + 1] == rest[i]);
    }
}

/// Sealing a sealed run, or losing the senders of one, changes nothing.
pub proof fn law_sealing_again_changes_nothing(state: RunState)
    requires
        state.sealed,
    ensures
        state.after_event(RunEvent::Dispatched(DispatchRequest::Seal)) == state,
        state.after_event(RunEvent::DispatchClosed) == state,
{
}

/// While a run is cancelled nothing starts.
pub proof fn law_a_cancelled_run_starts_nothing(state: RunState, turns: Seq<Turn>)
    requires
        forall|i: int| 0 <= i < turns.len() ==> (#[trigger] turns[i]).cancelled,
    ensures
        state.started_over(turns) == Seq::<TaskDef>::empty(),
    decreases turns.len(),
{
    if turns.len() > 0 {
        let rest = turns.skip(1);
        assert forall|i: int| 0 <= i < rest.len() implies (#[trigger] rest[i]).cancelled by {
            assert(rest[i] == turns[i + 1]);
        }
        law_a_cancelled_run_starts_nothing(state.after_turn(turns[0]), rest);
        assert(turns[0].cancelled);
        assert(state.starting(true) + Seq::<TaskDef>::empty() =~= Seq::<TaskDef>::empty());
    }
}

/// Cancellation drops all that is queued and seals the run; the run then ends, with a bad
/// verdict, when the last worker in flight comes in, and not before.
pub proof fn law_a_cancelled_run_ends_with_its_workers(state: RunState, turns: Seq<Turn>)
    requires
        forall|i: int| 0 <= i < turns.len() ==> (#[trigger] turns[i]).event.joins_worker(),
        turns.len() <= state.in_flight,
    ensures
        ({
            let after = state.after_event(RunEvent::Cancelled).after_turns(turns);
            if turns.len() == state.in_flight {
                after.next_step() == NextStep::Finish(false)
            } else {
                after.next_step() == (NextStep::Wait {
                    for_worker: true,
                    for_request: false,
                })
            }
        }),
{
    let stopped = state.after_event(RunEvent::Cancelled);
    lemma_stopped_run(stopped, turns);
}

/// How a stopped run counts down.
proof fn lemma_stopped_run(state: RunState, turns: Seq<Turn>)
    requires
        state.pending.len() == 0,
        state.sealed,
        !state.all_ok,
        forall|i: int| 0 <= i < turns.len() ==> (#[trigger] turns[i]).event.joins_worker(),
        turns.len() <= state.in_flight,
    ensures
        state.after_turns(turns).pending.len() == 0,
        state.after_turns(turns).sealed,
        !state.after_turns(turns).all_ok,
        state.after_turns(turns).in_flight == state.in_flight - turns.len(),
    decreases turns.len(),
{
    if turns.len() > 0 {
        let rest = turns.skip(1);
        assert forall|i: int| 0 <= i < rest.len() implies (
        #[trigger] rest[i]).event.joins_worker() by {
            assert(rest[i] == turns[i + 1]);
        }
        assert(turns[0].event.joins_worker());
        lemma_defs_divide(state.pending, state.completed);
        let begun = state.after_start(turns[0].cancelled);
        assert(begun.in_flight == state.in_flight);
        assert(begun.pending.len() == 0);
        lemma_stopped_run(state.after_turn(turns[0]), rest);
    }
}

/// Once a task failed or a worker crashed, the run is cancelled in every later turn.
pub open spec fn heeds_failures(turns: Seq<Turn>) -> bool {
    forall|i: int, j: int|
        0 <= i < j < turns.len() && (#[trigger] turns[i]).event.is_failure() ==> (
        #[trigger] turns[j]).cancelled
}

/// The first failure stops a run that heeds it: no task starts after it, and the verdict is bad.
pub proof fn law_a_failure_stops_the_run(state: RunState, turns: Seq<Turn>, failure: int)
    requires
        heeds_failures(turns),
        0 <= failure < turns.len(),
        turns[failure].event.is_failure(),
    ensures
        state.after_turns(turns.take(failure + 1)).started_over(turns.skip(failure + 1)) == Seq::<
            TaskDef,
        >::empty(),
        !state.after_turns(turns).all_ok,
{
    let later = turns.skip(failure + 1);
    assert forall|k: int| 0 <= k < later.len() implies (#[trigger] later[k]).cancelled by {
        assert(later[k] == turns[failure + 1 + k]);
    }
    law_a_cancelled_run_starts_nothing(state.after_turns(turns.take(failure + 1)), later);
    law_verdict_counts_every_setback(state, turns);
    assert(turns[failure].event.is_setback());
}

/// The accepted names are those accepted before and those of the tasks brought since.
pub proof fn law_accepted_names_are_those_brought(state: RunState, turns: Seq<Turn>)
    ensures
        state.after_turns(turns).accepted == state.accepted.union(
            task::task_names(brought_over(turns)).to_set(),
        ),
    decreases turns.len(),
{
    let brought = task::task_names(brought_over(turns));
    if turns.len() == 0 {
        assert(brought =~= Seq::empty());
        assert(state.accepted =~= state.accepted.union(brought.to_set()));
    } else {
        let event = turns[0].event;
        let next = state.after_turn(turns[0]);
        let rest = turns.skip(1);
        law_accepted_names_are_those_brought(next, rest);
        let now = task::task_names(event.brings());
        let then_on = task::task_names(brought_over(rest));
        assert(brought =~= now + then_on);
        assert(next.accepted =~= state.accepted.union(now.to_set()));
        assert forall|name: Seq<char>| brought.to_set().contains(name) == (now.contains(name)
            || then_on.contains(name)) by {
            if now.contains(name) {
                assert(brought[now.index_of(name)] == name);
            }
            if then_on.contains(name) {
                assert(brought[now.len() + then_on.index_of(name)] == name);
            }
        }
        assert(state.after_turns(turns).accepted =~= state.accepted.union(brought.to_set()));
    }
}

/// A task dispatched without dependencies waits for everything that runs or is queued; with
/// dependencies it waits for these alone.
pub proof fn law_a_dispatched_task_waits(state: RunState, def: TaskDef)
    ensures
        ({
            let after = state.after_event(RunEvent::Dispatched(DispatchRequest::Task(def)));
            let needs = after.pending.last().needs();
            &&& after.pending.len() == state.pending.len() + 1
            &&& after.pending.last().def == def
            &&& def.depends_on@.len() > 0 ==> needs == task::dependencies(def)
            &&& def.depends_on@.len() == 0 ==> needs == state.running.union(
                run_state::queue_names(state.pending).to_set(),
            )
        }),
{
    let after = state.after_event(RunEvent::Dispatched(DispatchRequest::Task(def)));
    let needs = after.pending.last().needs();
    if def.depends_on@.len() == 0 {
        assert(crate::names::texts(def.depends_on@) =~= Seq::empty());
        assert(needs =~= state.snapshot());
    } else {
        assert(needs =~= task::dependencies(def));
    }
}

/// Each task of a dispatched batch waits for everything that runs or is queued when the batch
/// comes, and for its own dependencies; the tasks of a batch do not wait for each other
/// otherwise.
pub proof fn law_a_dispatched_wave_waits(state: RunState, defs: Vec<TaskDef>, i: int)
    requires
        0 <= i < defs@.len(),
    ensures
        ({
            let after = state.after_event(RunEvent::Dispatched(DispatchRequest::Wave(defs)));
            let task = after.pending[state.pending.len() + i];
            &&& after.pending.len() == state.pending.len() + defs@.len()
            &&& task.def == defs@[i]
            &&& task.needs() == state.running.union(
                run_state::queue_names(state.pending).to_set(),
            ).union(task::dependencies(defs@[i]))
        }),
{
}

/// Recording that a task will never start keeps all that was recorded of it but its status, its
/// error and its end, and the labels that were missing.
pub proof fn law_a_dropped_task_keeps_its_record(
    record: MetaRecord,
    def: TaskDef,
    reason: Seq<char>,
    now: Seq<char>,
)
    ensures
        ({
            let after = MetaRecord::cancelled(Some(record), def, reason, now);
            &&& after == (MetaRecord {
                agent_id: after.agent_id,
                thread_id: after.thread_id,
                status: TaskStatus::Cancelled,
                error: Some(reason),
                end_time: Some(now),
                ..record
            })
            &&& record.agent_id.len() > 0 ==> after.agent_id == record.agent_id
            &&& record.thread_id.len() > 0 ==> after.thread_id == record.thread_id
        }),
{
}

} // verus!
