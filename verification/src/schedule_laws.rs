//! Why a run whose requests were validated neither mixes up its tasks nor stops half way.

use crate::commands::run;
use crate::config;
use crate::coordinator::{DispatchRequest, NextStep, QueuedTask, RunEvent};
use crate::run_laws;
use crate::run_laws::Turn;
use crate::run_state;
use crate::run_state::RunState;
use crate::sequences;
use crate::task;
use crate::task::TaskDef;
use crate::wave_laws;
use vstd::prelude::*;

verus! {

impl RunState {
    /// Every accepted name stands in one place at most, and no worker is counted twice.
    pub open spec fn consistent(self) -> bool {
        &&& run_state::queue_names(self.pending).no_duplicates()
        &&& forall|i: int|
            0 <= i < self.pending.len() ==> {
                let name = (#[trigger] self.pending[i]).def.name@;
                self.accepted.contains(name) && !self.running.contains(name)
                    && !self.completed.contains(name)
            }
        &&& self.running.disjoint(self.completed)
        &&& self.running.subset_of(self.accepted)
        &&& self.completed.subset_of(self.accepted)
        &&& self.running.finite()
        &&& self.in_flight <= self.running.len()
    }

    /// Every accepted name is completed, runs or is queued, and every running task has its
    /// worker.
    pub open spec fn accounted(self) -> bool {
        &&& self.consistent()
        &&& self.in_flight == self.running.len()
        &&& self.accepted.subset_of(self.completed.union(self.snapshot()))
    }

    /// The event can come: a report is one of a running task, and new tasks have new names.
    pub open spec fn expects(self, event: RunEvent) -> bool {
        match event {
            RunEvent::Reported(report) => self.in_flight > 0 && self.running.contains(
                report.name@,
            ),
            RunEvent::Crashed => self.in_flight > 0,
            RunEvent::Dispatched(_) => {
                &&& task::task_names(event.brings()).no_duplicates()
                &&& forall|i: int|
                    0 <= i < event.brings().len() ==> !self.accepted.contains(
                        (#[trigger] event.brings()[i]).name@,
                    )
            },
            _ => true,
        }
    }

    /// Each turn begins with an event that can come.
    pub open spec fn expects_all(self, turns: Seq<Turn>) -> bool
        decreases turns.len(),
    {
        turns.len() > 0 ==> self.after_start(turns[0].cancelled).expects(turns[0].event)
            && self.after_turn(turns[0]).expects_all(turns.skip(1))
    }

    /// What the tasks that the event brings depend on is accepted, or comes with them and has a
    /// lower place among them.
    pub open spec fn knows_needs_of(
        self,
        event: RunEvent,
        place: spec_fn(Seq<char>) -> nat,
    ) -> bool {
        forall|i: int, dep: Seq<char>|
            0 <= i < event.brings().len() && #[trigger] task::dependencies(
                event.brings()[i],
            ).contains(dep) ==> self.accepted.contains(dep) || (task::task_names(
                event.brings(),
            ).contains(dep) && place(dep) < place(event.brings()[i].name@))
    }

    /// What a queued task needs is completed, runs, or is queued with a lower rank: no tasks
    /// wait for each other in a circle.
    pub open spec fn sequenced(self, rank: spec_fn(Seq<char>) -> nat) -> bool {
        forall|i: int, need: Seq<char>|
            0 <= i < self.pending.len() && #[trigger] self.pending[i].needs().contains(need)
                ==> self.completed.contains(need) || self.running.contains(need) || (
            run_state::queue_names(self.pending).contains(need) && rank(need) < rank(
                self.pending[i].def.name@,
            ))
    }
}

/// The names in the two parts of a divided queue.
proof fn lemma_names_divide(queue: Seq<QueuedTask>, completed: Set<Seq<char>>, name: Seq<char>)
    ensures
        run_state::queue_names(queue).contains(name) == (run_state::queue_names(
            run_state::ready_in(queue, completed),
        ).contains(name) || run_state::queue_names(
            run_state::blocked_in(queue, completed),
        ).contains(name)),
{
    let open = |task: QueuedTask| task.unblocked(completed);
    let shut = |task: QueuedTask| !task.unblocked(completed);
    let ready = run_state::ready_in(queue, completed);
    let blocked = run_state::blocked_in(queue, completed);
    if run_state::queue_names(queue).contains(name) {
        let i = run_state::queue_names(queue).index_of(name);
        assert(queue.contains(queue[i]));
        sequences::lemma_filter_members(queue, open, queue[i]);
        sequences::lemma_filter_members(queue, shut, queue[i]);
        if open(queue[i]) {
            let a = ready.index_of(queue[i]);
            assert(run_state::queue_names(ready)[a] == name);
        } else {
            let a = blocked.index_of(queue[i]);
            assert(run_state::queue_names(blocked)[a] == name);
        }
    }
    if run_state::queue_names(ready).contains(name) {
        let a = run_state::queue_names(ready).index_of(name);
        assert(ready.contains(ready[a]));
        sequences::lemma_filter_members(queue, open, ready[a]);
        let i = queue.index_of(ready[a]);
        assert(run_state::queue_names(queue)[i] == name);
    }
    if run_state::queue_names(blocked).contains(name) {
        let a = run_state::queue_names(blocked).index_of(name);
        assert(blocked.contains(blocked[a]));
        sequences::lemma_filter_members(queue, shut, blocked[a]);
        let i = queue.index_of(blocked[a]);
        assert(run_state::queue_names(queue)[i] == name);
    }
}

/// Where the names in a queue are unique, so are those that a filter picks.
proof fn lemma_filter_unique(queue: Seq<QueuedTask>, pred: spec_fn(QueuedTask) -> bool)
    requires
        run_state::queue_names(queue).no_duplicates(),
    ensures
        run_state::queue_names(queue.filter(pred)).no_duplicates(),
{
    let picked = queue.filter(pred);
    let names = run_state::queue_names(picked);
    assert forall|a: int, b: int|
        0 <= a < names.len() && 0 <= b < names.len() && a != b implies names[a] != names[b] by {
        let (x, y) = if a < b {
            (a, b)
        } else {
            (b, a)
        };
        let at = sequences::lemma_filter_keeps_order(queue, pred, x, y);
        assert(run_state::queue_names(queue)[at.0] == names[x]);
        assert(run_state::queue_names(queue)[at.1] == names[y]);
    }
}

/// A name among the ready tasks is that of no blocked one.
proof fn lemma_ready_not_blocked(queue: Seq<QueuedTask>, completed: Set<Seq<char>>, b: int)
    requires
        run_state::queue_names(queue).no_duplicates(),
        0 <= b < run_state::blocked_in(queue, completed).len(),
    ensures
        !run_state::queue_names(run_state::ready_in(queue, completed)).contains(
            run_state::blocked_in(queue, completed)[b].def.name@,
        ),
{
    let open = |task: QueuedTask| task.unblocked(completed);
    let shut = |task: QueuedTask| !task.unblocked(completed);
    let ready = run_state::ready_in(queue, completed);
    let blocked = run_state::blocked_in(queue, completed);
    let name = blocked[b].def.name@;
    if run_state::queue_names(ready).contains(name) {
        let a = run_state::queue_names(ready).index_of(name);
        assert(ready.contains(ready[a]));
        assert(blocked.contains(blocked[b]));
        sequences::lemma_filter_members(queue, open, ready[a]);
        sequences::lemma_filter_members(queue, shut, blocked[b]);
        let i = queue.index_of(ready[a]);
        let j = queue.index_of(blocked[b]);
        assert(run_state::queue_names(queue)[i] == run_state::queue_names(queue)[j]);
        assert(i == j);
        assert(false);
    }
}

/// Starting tasks keeps a state consistent, and accounted if it was.
pub proof fn law_starting_keeps_track(state: RunState, cancelled: bool)
    requires
        state.consistent(),
    ensures
        state.after_start(cancelled).consistent(),
        state.accounted() ==> state.after_start(cancelled).accounted(),
{
    if !cancelled {
        let begun = state.after_start(false);
        let ready = run_state::queue_names(state.ready());
        let open = |task: QueuedTask| task.unblocked(state.completed);
        let shut = |task: QueuedTask| !task.unblocked(state.completed);
        lemma_filter_unique(state.pending, open);
        lemma_filter_unique(state.pending, shut);
        assert forall|b: int| 0 <= b < begun.pending.len() implies {
            let name = (#[trigger] begun.pending[b]).def.name@;
            begun.accepted.contains(name) && !begun.running.contains(name)
                && !begun.completed.contains(name)
        } by {
            lemma_ready_not_blocked(state.pending, state.completed, b);
            lemma_queued_name(state, shut, b);
        }
        assert forall|name: Seq<char>| #[trigger] ready.contains(name) implies
            state.accepted.contains(name) && !state.completed.contains(name)
            && !state.running.contains(name) by {
            lemma_queued_name(state, open, ready.index_of(name));
        }
        ready.unique_seq_to_set();
        vstd::set_lib::lemma_set_disjoint_lens(state.running, ready.to_set());
        assert(state.running.disjoint(ready.to_set()));
        assert(begun.running.len() == state.running.len() + ready.len());
        if state.accounted() {
            assert forall|name: Seq<char>| begun.accepted.contains(
                name,
            ) implies begun.completed.union(begun.snapshot()).contains(name) by {
                assert(state.completed.union(state.snapshot()).contains(name));
                lemma_names_divide(state.pending, state.completed, name);
            }
        }
    }
}

/// What consistency says of a task that a filter picks from the queue.
proof fn lemma_queued_name(state: RunState, pred: spec_fn(QueuedTask) -> bool, a: int)
    requires
        state.consistent(),
        0 <= a < state.pending.filter(pred).len(),
    ensures
        state.accepted.contains(state.pending.filter(pred)[a].def.name@),
        !state.running.contains(state.pending.filter(pred)[a].def.name@),
        !state.completed.contains(state.pending.filter(pred)[a].def.name@),
{
    let picked = state.pending.filter(pred);
    assert(picked.contains(picked[a]));
    sequences::lemma_filter_members(state.pending, pred, picked[a]);
    let i = state.pending.index_of(picked[a]);
    assert(state.pending[i] == picked[a]);
}

/// Every event that can come keeps a state consistent; unless it is a crash or a cancellation,
/// it keeps it accounted too.
pub proof fn law_events_keep_track(state: RunState, event: RunEvent)
    requires
        state.consistent(),
        state.expects(event),
    ensures
        state.after_event(event).consistent(),
        state.accounted() && event !is Crashed && event !is Cancelled ==> state.after_event(
            event,
        ).accounted(),
{
    let after = state.after_event(event);
    match event {
        RunEvent::Reported(report) => {
            let name = report.name@;
            assert forall|i: int| 0 <= i < after.pending.len() implies {
                let queued = (#[trigger] after.pending[i]).def.name@;
                after.accepted.contains(queued) && !after.running.contains(queued)
                    && !after.completed.contains(queued)
            } by {
                assert(state.pending[i] == after.pending[i]);
            }
            if state.accounted() {
                assert forall|n: Seq<char>| after.accepted.contains(n) implies
                    after.completed.union(after.snapshot()).contains(n) by {
                    assert(state.completed.union(state.snapshot()).contains(n));
                }
            }
        },
        RunEvent::Dispatched(DispatchRequest::Seal) => {
            assert(state.accounted() ==> after.accounted());
        },
        RunEvent::Dispatched(request) => {
            lemma_dispatch_keeps_track(state, event);
        },
        RunEvent::Cancelled => {
            assert(run_state::queue_names(after.pending) =~= Seq::empty());
        },
        _ => {
            assert(state.accounted() && event !is Crashed ==> after.accounted());
        },
    }
}

/// The case of new tasks.
proof fn lemma_dispatch_keeps_track(state: RunState, event: RunEvent)
    requires
        state.consistent(),
        state.expects(event),
        event is Dispatched,
        !(event->Dispatched_0 is Seal),
    ensures
        state.after_event(event).consistent(),
        state.accounted() ==> state.after_event(event).accounted(),
{
    let after = state.after_event(event);
    let brought = event.brings();
    let old_names = run_state::queue_names(state.pending);
    let new_names = run_state::queue_names(after.pending);
    let count = state.pending.len();
    assert(new_names =~= old_names + task::task_names(brought));
    assert forall|i: int| 0 <= i < after.pending.len() implies {
        let name = (#[trigger] after.pending[i]).def.name@;
        after.accepted.contains(name) && !after.running.contains(name)
            && !after.completed.contains(name)
    } by {
        if i < count {
            assert(after.pending[i] == state.pending[i]);
        } else {
            let k = i - count;
            assert(after.pending[i].def == brought[k]);
            assert(task::task_names(brought)[k] == brought[k].name@);
            assert(task::task_names(brought).contains(brought[k].name@));
        }
    }
    assert forall|i: int, j: int|
        0 <= i < new_names.len() && 0 <= j < new_names.len() && i != j implies new_names[i]
        != new_names[j] by {
        if i < count && j < count {
            assert(old_names[i] != old_names[j]);
        } else if i >= count && j >= count {
            assert(task::task_names(brought)[i - count] != task::task_names(brought)[j - count]);
        } else if i < count {
            assert(state.accepted.contains(state.pending[i].def.name@));
            assert(!state.accepted.contains(brought[j - count].name@));
        } else {
            assert(state.accepted.contains(state.pending[j].def.name@));
            assert(!state.accepted.contains(brought[i - count].name@));
        }
    }
    if state.accounted() {
        assert forall|n: Seq<char>| after.accepted.contains(n) implies after.completed.union(
            after.snapshot(),
        ).contains(n) by {
            if state.accepted.contains(n) {
                assert(state.completed.union(state.snapshot()).contains(n));
                if old_names.contains(n) {
                    let i = old_names.index_of(n);
                    assert(new_names[i] == n);
                }
            } else {
                let k = task::task_names(brought).index_of(n);
                assert(new_names[count + k] == n);
            }
        }
    }
}

/// Every run keeps a consistent state consistent, whatever comes.
pub proof fn law_runs_stay_consistent(state: RunState, turns: Seq<Turn>)
    requires
        state.consistent(),
        state.expects_all(turns),
    ensures
        state.after_turns(turns).consistent(),
        state.accounted() && (forall|i: int|
            0 <= i < turns.len() ==> (#[trigger] turns[i]).event !is Crashed && turns[i].event
                !is Cancelled) ==> state.after_turns(turns).accounted(),
    decreases turns.len(),
{
    if turns.len() > 0 {
        let rest = turns.skip(1);
        law_starting_keeps_track(state, turns[0].cancelled);
        law_events_keep_track(state.after_start(turns[0].cancelled), turns[0].event);
        law_runs_stay_consistent(state.after_turn(turns[0]), rest);
        assert(forall|i: int| 0 <= i < rest.len() ==> #[trigger] rest[i] == turns[i + 1]);
    }
}

/// A run begins accounted, if its first tasks have different names.
pub proof fn law_runs_begin_accounted(tasks: Seq<TaskDef>)
    requires
        task::task_names(tasks).no_duplicates(),
    ensures
        RunState::fresh().with_tasks(tasks, Set::empty()).accounted(),
{
    let begun = RunState::fresh().with_tasks(tasks, Set::empty());
    let names = run_state::queue_names(begun.pending);
    assert(names =~= task::task_names(tasks));
    assert forall|i: int| 0 <= i < begun.pending.len() implies begun.accepted.contains(
        (#[trigger] begun.pending[i]).def.name@,
    ) by {
        assert(names[i] == begun.pending[i].def.name@);
        assert(names.contains(names[i]));
    }
}

/// The tasks brought over turns that can come have new names, all different.
proof fn lemma_brought_names_are_new(state: RunState, turns: Seq<Turn>)
    requires
        state.expects_all(turns),
    ensures
        task::task_names(run_laws::brought_over(turns)).no_duplicates(),
        forall|name: Seq<char>| #[trigger]
            task::task_names(run_laws::brought_over(turns)).contains(name)
                ==> !state.accepted.contains(name),
    decreases turns.len(),
{
    let all = task::task_names(run_laws::brought_over(turns));
    if turns.len() == 0 {
        assert(all =~= Seq::empty());
    } else {
        let event = turns[0].event;
        let rest = turns.skip(1);
        let next = state.after_turn(turns[0]);
        let begun = state.after_start(turns[0].cancelled);
        let now = task::task_names(event.brings());
        let later = task::task_names(run_laws::brought_over(rest));
        lemma_brought_names_are_new(next, rest);
        assert(begun.accepted == state.accepted);
        assert(all =~= now + later);
        assert(now.no_duplicates());
        assert forall|a: int| 0 <= a < now.len() implies !state.accepted.contains(
            #[trigger] now[a],
        ) && next.accepted.contains(now[a]) by {
            assert(!begun.accepted.contains(event.brings()[a].name@));
            assert(now.contains(now[a]));
        }
        assert forall|b: int| 0 <= b < later.len() implies !state.accepted.contains(
            #[trigger] later[b],
        ) && !next.accepted.contains(later[b]) by {
            assert(later.contains(later[b]));
            assert(state.accepted.subset_of(next.accepted));
        }
        assert forall|name: Seq<char>| #[trigger] all.contains(
            name,
        ) implies !state.accepted.contains(name) by {
            let at = all.index_of(name);
            if at < now.len() {
                assert(now[at] == name);
            } else {
                assert(later[at - now.len()] == name);
            }
        }
        assert forall|a: int, b: int|
            0 <= a < all.len() && 0 <= b < all.len() && a != b implies all[a] != all[b] by {
            if a < now.len() && b < now.len() {
                assert(now[a] != now[b]);
            } else if a >= now.len() && b >= now.len() {
                assert(later[a - now.len()] != later[b - now.len()]);
            } else if a < now.len() {
                assert(next.accepted.contains(now[a]));
                assert(!next.accepted.contains(later[b - now.len()]));
            } else {
                assert(next.accepted.contains(now[b]));
                assert(!next.accepted.contains(later[a - now.len()]));
            }
        }
    }
}

/// No task of a run starts twice.
pub proof fn law_no_task_starts_twice(tasks: Seq<TaskDef>, turns: Seq<Turn>)
    requires
        task::task_names(tasks).no_duplicates(),
        RunState::fresh().with_tasks(tasks, Set::empty()).expects_all(turns),
    ensures
        task::task_names(
            RunState::fresh().with_tasks(tasks, Set::empty()).started_over(turns),
        ).no_duplicates(),
{
    broadcast use vstd::multiset::group_multiset_axioms;

    let begun = RunState::fresh().with_tasks(tasks, Set::empty());
    let brought = run_laws::brought_over(turns);
    let all = tasks + brought;
    let names = task::task_names(all);
    let started = begun.started_over(turns);
    lemma_brought_names_are_new(begun, turns);
    assert(begun.accepted =~= task::task_names(tasks).to_set());
    assert(names =~= task::task_names(tasks) + task::task_names(brought));
    assert forall|a: int, b: int|
        0 <= a < names.len() && 0 <= b < names.len() && a != b implies names[a] != names[b] by {
        let count = tasks.len();
        if a < count && b < count {
            assert(task::task_names(tasks)[a] != task::task_names(tasks)[b]);
        } else if a >= count && b >= count {
            assert(task::task_names(brought)[a - count] != task::task_names(brought)[b - count]);
        } else {
            let (old_at, new_at) = if a < count {
                (a, b - count)
            } else {
                (b, a - count)
            };
            assert(task::task_names(tasks).contains(task::task_names(tasks)[old_at]));
            assert(task::task_names(brought).contains(task::task_names(brought)[new_at]));
        }
    }
    assert forall|a: int, b: int|
        0 <= a < all.len() && 0 <= b < all.len() && a != b implies all[a] != all[b] by {
        assert(names[a] != names[b]);
    }
    run_laws::law_no_task_is_lost(begun, turns);
    assert(run_state::queue_defs(begun.pending) =~= tasks);
    vstd::seq_lib::lemma_multiset_commutative(tasks, brought);
    all.lemma_multiset_has_no_duplicates();
    let left = started.to_multiset().add(begun.dropped_over(turns).to_multiset()).add(
        begun.after_turns(turns).queued_defs(),
    );
    assert(all.to_multiset() == left);
    assert forall|t: TaskDef| started.to_multiset().contains(t) implies #[trigger]
        started.to_multiset().count(t) == 1 by {
        assert(left.count(t) >= started.to_multiset().count(t));
        assert(all.to_multiset().contains(t));
    }
    assert forall|t: TaskDef| #[trigger] started.contains(t) implies all.contains(t) by {
        vstd::seq_lib::to_multiset_contains(started, t);
        vstd::seq_lib::to_multiset_contains(all, t);
        assert(left.count(t) >= started.to_multiset().count(t));
    }
    started.lemma_multiset_has_no_duplicates_conv();
    let shown = task::task_names(started);
    assert forall|a: int, b: int|
        0 <= a < shown.len() && 0 <= b < shown.len() && a != b implies shown[a] != shown[b] by {
        assert(started[a] != started[b]);
        assert(started.contains(started[a]) && started.contains(started[b]));
        let x = all.index_of(started[a]);
        let y = all.index_of(started[b]);
        assert(names[x] == shown[a]);
        assert(names[y] == shown[b]);
    }
}

/// A run that ends with a good verdict has completed every task that it accepted.
pub proof fn law_success_means_all_completed(tasks: Seq<TaskDef>, turns: Seq<Turn>)
    requires
        task::task_names(tasks).no_duplicates(),
        RunState::fresh().with_tasks(tasks, Set::empty()).expects_all(turns),
        RunState::fresh().with_tasks(tasks, Set::empty()).after_turns(turns).next_step()
            == NextStep::Finish(true),
    ensures
        ({
            let end = RunState::fresh().with_tasks(tasks, Set::empty()).after_turns(turns);
            &&& end.completed == end.accepted
            &&& end.running == Set::<Seq<char>>::empty()
            &&& task::task_names(tasks).to_set().subset_of(end.completed)
        }),
{
    let begun = RunState::fresh().with_tasks(tasks, Set::empty());
    let end = begun.after_turns(turns);
    law_runs_begin_accounted(tasks);
    run_laws::law_verdict_counts_every_setback(begun, turns);
    assert forall|i: int| 0 <= i < turns.len() implies (#[trigger] turns[i]).event !is Crashed
        && turns[i].event !is Cancelled by {
        assert(!turns[i].event.is_setback());
    }
    law_runs_stay_consistent(begun, turns);
    end.running.lemma_len0_is_empty();
    assert(run_state::queue_names(end.pending) =~= Seq::empty());
    assert(end.completed =~= end.accepted);
    run_laws::law_progress_is_never_undone(begun, turns);
    assert(begun.accepted =~= task::task_names(tasks).to_set());
}

/// A task whose name and dependencies were found valid can be dispatched.
pub proof fn law_a_validated_task_can_be_dispatched(
    state: RunState,
    def: TaskDef,
    place: spec_fn(Seq<char>) -> nat,
)
    requires
        !state.accepted.contains(def.name@),
        task::dependencies(def).subset_of(state.accepted),
    ensures
        state.expects(RunEvent::Dispatched(DispatchRequest::Task(def))),
        state.knows_needs_of(RunEvent::Dispatched(DispatchRequest::Task(def)), place),
{
}

/// A queued task of least rank.
proof fn lemma_least(queue: Seq<QueuedTask>, rank: spec_fn(Seq<char>) -> nat) -> (least: int)
    requires
        queue.len() > 0,
    ensures
        0 <= least < queue.len(),
        forall|i: int|
            0 <= i < queue.len() ==> rank(queue[least].def.name@) <= rank(
                (#[trigger] queue[i]).def.name@,
            ),
    decreases queue.len(),
{
    if queue.len() == 1 {
        0
    } else {
        let front = queue.drop_last();
        let last = queue.len() - 1;
        let least = lemma_least(front, rank);
        assert(forall|i: int| 0 <= i < front.len() ==> front[i] == #[trigger] queue[i]);
        if rank(queue[last].def.name@) < rank(queue[least].def.name@) {
            last
        } else {
            least
        }
    }
}

/// A run never waits for nothing: unless it is cancelled, a task starts whenever tasks are
/// queued and no worker is in flight.
pub proof fn law_no_deadlock(state: RunState, rank: spec_fn(Seq<char>) -> nat)
    requires
        state.accounted(),
        state.sequenced(rank),
        state.in_flight == 0,
        state.pending.len() > 0,
    ensures
        state.starting(false).len() > 0,
        state.after_start(false).in_flight > 0,
{
    state.running.lemma_len0_is_empty();
    let least = lemma_least(state.pending, rank);
    let first = state.pending[least];
    assert forall|need: Seq<char>| first.needs().contains(need) implies state.completed.contains(
        need,
    ) by {
        assert(state.pending[least].needs().contains(need));
        if run_state::queue_names(state.pending).contains(need) && rank(need) < rank(
            first.def.name@,
        ) {
            let i = run_state::queue_names(state.pending).index_of(need);
            assert(rank(first.def.name@) <= rank(state.pending[i].def.name@));
        }
    }
    run_laws::law_a_task_starts_just_when_its_needs_are_met(state, first.def);
    assert(state.pending[least].def == first.def);
    assert(state.starting(false).contains(first.def));
}

/// Starting tasks makes no tasks wait for each other in a circle.
pub proof fn law_starting_keeps_sequence(
    state: RunState,
    cancelled: bool,
    rank: spec_fn(Seq<char>) -> nat,
)
    requires
        state.sequenced(rank),
    ensures
        state.after_start(cancelled).sequenced(rank),
{
    if !cancelled {
        let begun = state.after_start(false);
        let shut = |task: QueuedTask| !task.unblocked(state.completed);
        assert forall|b: int, need: Seq<char>|
            0 <= b < begun.pending.len() && #[trigger] begun.pending[b].needs().contains(
                need,
            ) implies begun.completed.contains(need) || begun.running.contains(need) || (
        run_state::queue_names(begun.pending).contains(need) && rank(need) < rank(
            begun.pending[b].def.name@,
        )) by {
            let waiting = begun.pending[b];
            assert(begun.pending.contains(waiting));
            sequences::lemma_filter_members(state.pending, shut, waiting);
            let i = state.pending.index_of(waiting);
            assert(state.pending[i].needs().contains(need));
            lemma_names_divide(state.pending, state.completed, need);
        }
    }
}

/// The least number above the ranks of all queued tasks.
pub open spec fn rank_above(queue: Seq<QueuedTask>, rank: spec_fn(Seq<char>) -> nat) -> nat
    decreases queue.len(),
{
    if queue.len() == 0 {
        0
    } else {
        let front = rank_above(queue.drop_last(), rank);
        let last = rank(queue.last().def.name@) + 1;
        if last > front {
            last
        } else {
            front
        }
    }
}

/// It is above them.
proof fn lemma_rank_above(queue: Seq<QueuedTask>, rank: spec_fn(Seq<char>) -> nat, i: int)
    requires
        0 <= i < queue.len(),
    ensures
        rank(queue[i].def.name@) < rank_above(queue, rank),
    decreases queue.len(),
{
    if i < queue.len() - 1 {
        assert(queue.drop_last()[i] == queue[i]);
        lemma_rank_above(queue.drop_last(), rank, i);
    }
}

/// The ranks with new tasks above all others, in the order of their places.
pub open spec fn rank_with(
    state: RunState,
    event: RunEvent,
    rank: spec_fn(Seq<char>) -> nat,
    place: spec_fn(Seq<char>) -> nat,
) -> spec_fn(Seq<char>) -> nat {
    |name: Seq<char>|
        if task::task_names(event.brings()).contains(name) {
            rank_above(state.pending, rank) + place(name)
        } else {
            rank(name)
        }
}

/// No event that can come makes tasks wait for each other in a circle, if new tasks depend on
/// accepted ones and on each other in no circle.
pub proof fn law_events_keep_sequence(
    state: RunState,
    event: RunEvent,
    rank: spec_fn(Seq<char>) -> nat,
    place: spec_fn(Seq<char>) -> nat,
)
    requires
        state.accounted(),
        state.expects(event),
        state.knows_needs_of(event, place),
        state.sequenced(rank),
    ensures
        state.after_event(event).sequenced(rank_with(state, event, rank, place)),
{
    let after = state.after_event(event);
    let more = rank_with(state, event, rank, place);
    let brought = event.brings();
    let fresh = task::task_names(brought);
    let old_names = run_state::queue_names(state.pending);
    let new_names = run_state::queue_names(after.pending);
    let count = state.pending.len();
    assert forall|name: Seq<char>| fresh.contains(name) implies !state.accepted.contains(
        name,
    ) by {
        let k = fresh.index_of(name);
        assert(!state.accepted.contains(brought[k].name@));
    }
    assert forall|i: int, need: Seq<char>|
        0 <= i < after.pending.len() && #[trigger] after.pending[i].needs().contains(
            need,
        ) implies after.completed.contains(need) || after.running.contains(need) || (
    new_names.contains(need) && more(need) < more(after.pending[i].def.name@)) by {
        if i < count {
            assert(after.pending[i] == state.pending[i]);
            assert(state.pending[i].needs().contains(need));
            assert(state.accepted.contains(state.pending[i].def.name@));
            if old_names.contains(need) {
                let j = old_names.index_of(need);
                assert(state.accepted.contains(state.pending[j].def.name@));
                assert(after.pending[j] == state.pending[j]);
                assert(new_names[j] == need);
            }
        } else {
            let k = i - count;
            assert(after.pending[i].def == brought[k]);
            assert(fresh[k] == after.pending[i].def.name@);
            assert(fresh.contains(fresh[k]));
            if fresh.contains(need) {
                let j = fresh.index_of(need);
                assert(new_names[count + j] == need);
                assert(!state.snapshot().contains(need)) by {
                    if old_names.contains(need) {
                        let q = old_names.index_of(need);
                        assert(state.accepted.contains(state.pending[q].def.name@));
                    }
                }
                assert(task::dependencies(brought[k]).contains(need));
            } else {
                if task::dependencies(brought[k]).contains(need) {
                    assert(state.accepted.contains(need));
                    assert(state.completed.union(state.snapshot()).contains(need));
                }
                assert(state.completed.contains(need) || state.running.contains(need)
                    || old_names.contains(need));
            }
            if old_names.contains(need) {
                let j = old_names.index_of(need);
                assert(state.accepted.contains(state.pending[j].def.name@));
                lemma_rank_above(state.pending, rank, j);
                assert(new_names[j] == need);
            }
        }
    }
}

/// Tasks that were put into waves can be run: a run that begins with them, wave after wave, is
/// accounted, and its tasks do not wait for each other in a circle.
pub proof fn law_waves_can_be_run(tasks: Seq<TaskDef>, waves: Seq<Vec<TaskDef>>)
    requires
        config::are_waves(tasks, waves),
        task::task_names(tasks).no_duplicates(),
    ensures
        RunState::fresh().with_tasks(run::all_tasks(waves), Set::empty()).accounted(),
        exists|rank: spec_fn(Seq<char>) -> nat| #[trigger]
            RunState::fresh().with_tasks(run::all_tasks(waves), Set::empty()).sequenced(rank),
{
    let flat = run::all_tasks(waves);
    let rank = |name: Seq<char>| wave_of(tasks, name);
    let begun = RunState::fresh().with_tasks(flat, Set::empty());
    let names = run_state::queue_names(begun.pending);
    wave_laws::law_waves_hold_every_task_once(tasks, waves);
    lemma_same_tasks(tasks, flat);
    law_runs_begin_accounted(flat);
    assert forall|i: int, need: Seq<char>|
        0 <= i < begun.pending.len() && #[trigger] begun.pending[i].needs().contains(
            need,
        ) implies names.contains(need) && rank(need) < rank(begun.pending[i].def.name@) by {
        let def = flat[i];
        assert(begun.pending[i].def == def);
        assert(task::dependencies(def).contains(need));
        assert(flat.contains(def));
        let at = tasks.index_of(def);
        lemma_within_all(tasks, waves.len(), at);
        lemma_wave_of(tasks, at, waves.len());
        let k = wave_of(tasks, def.name@);
        let j = choose|j: int|
            {
                &&& 0 <= j < tasks.len()
                &&& #[trigger] tasks[j].name@ == need
                &&& config::within(tasks, tasks[j], k)
            };
        lemma_wave_of(tasks, j, k);
        assert(tasks.contains(tasks[j]));
        assert(flat.contains(tasks[j]));
        let q = flat.index_of(tasks[j]);
        assert(names[q] == need);
    }
    assert(begun.sequenced(rank));
}

/// The same tasks in another order have different names too.
proof fn lemma_same_tasks(tasks: Seq<TaskDef>, other: Seq<TaskDef>)
    requires
        task::task_names(tasks).no_duplicates(),
        tasks.to_multiset() == other.to_multiset(),
    ensures
        task::task_names(other).no_duplicates(),
        forall|t: TaskDef| tasks.contains(t) == #[trigger] other.contains(t),
{
    assert forall|t: TaskDef| tasks.contains(t) == #[trigger] other.contains(t) by {
        vstd::seq_lib::to_multiset_contains(tasks, t);
        vstd::seq_lib::to_multiset_contains(other, t);
    }
    assert forall|i: int, j: int|
        0 <= i < tasks.len() && 0 <= j < tasks.len() && i != j implies tasks[i] != tasks[j] by {
        assert(task::task_names(tasks)[i] != task::task_names(tasks)[j]);
    }
    tasks.lemma_multiset_has_no_duplicates();
    other.lemma_multiset_has_no_duplicates_conv();
    let names = task::task_names(other);
    assert forall|i: int, j: int|
        0 <= i < names.len() && 0 <= j < names.len() && i != j implies names[i] != names[j] by {
        assert(other.contains(other[i]));
        assert(other.contains(other[j]));
        let a = tasks.index_of(other[i]);
        let b = tasks.index_of(other[j]);
        assert(other[i] != other[j]);
        assert(task::task_names(tasks)[a] == names[i]);
        assert(task::task_names(tasks)[b] == names[j]);
    }
}

/// The wave in which the task of this name is.
spec fn wave_of(tasks: Seq<TaskDef>, name: Seq<char>) -> nat {
    let at = task::task_names(tasks).index_of(name);
    choose|k: nat|
        config::within(tasks, tasks[at], k + 1) && !#[trigger] config::within(tasks, tasks[at], k)
}

/// What is beyond no wave is within them.
proof fn lemma_within_all(tasks: Seq<TaskDef>, waves: nat, i: int)
    requires
        config::beyond(tasks, waves).len() == 0,
        0 <= i < tasks.len(),
    ensures
        config::within(tasks, tasks[i], waves),
{
    let out = |task: TaskDef| !config::within(tasks, task, waves);
    sequences::lemma_filter_members(tasks, out, tasks[i]);
    assert(tasks.contains(tasks[i]));
}

/// A task within some waves is in one of these.
proof fn lemma_wave_of(tasks: Seq<TaskDef>, i: int, waves: nat)
    requires
        task::task_names(tasks).no_duplicates(),
        0 <= i < tasks.len(),
        config::within(tasks, tasks[i], waves),
    ensures
        wave_of(tasks, tasks[i].name@) < waves,
        config::within(tasks, tasks[i], wave_of(tasks, tasks[i].name@) + 1),
{
    let names = task::task_names(tasks);
    assert(names[i] == tasks[i].name@);
    assert(names.contains(names[i]));
    let at = names.index_of(names[i]);
    assert(at == i);
    lemma_first_wave(tasks, tasks[i], waves);
    let k = wave_of(tasks, tasks[i].name@);
    if k >= waves {
        config::lemma_within_grows(tasks, tasks[i], waves, k);
    }
}

/// Some wave is the first within which a task is.
proof fn lemma_first_wave(tasks: Seq<TaskDef>, t: TaskDef, waves: nat)
    requires
        config::within(tasks, t, waves),
    ensures
        exists|k: nat|
            config::within(tasks, t, k + 1) && !#[trigger] config::within(tasks, t, k),
    decreases waves,
{
    let fewer = (waves - 1) as nat;
    if config::within(tasks, t, fewer) {
        lemma_first_wave(tasks, t, fewer);
    } else {
        assert(config::within(tasks, t, fewer + 1) && !config::within(tasks, t, fewer));
    }
}

/// Every turn of these is an uncancelled one in which a running task reports.
pub open spec fn only_reports(turns: Seq<Turn>) -> bool {
    forall|i: int|
        0 <= i < turns.len() ==> !(#[trigger] turns[i]).cancelled && turns[i].event is Reported
}

/// A sealed run ends, with everything completed, after as many reports as tasks were left, and
/// before that it always has a worker to wait for.
pub proof fn law_a_sealed_run_completes(
    state: RunState,
    rank: spec_fn(Seq<char>) -> nat,
    turns: Seq<Turn>,
)
    requires
        state.accounted(),
        state.sequenced(rank),
        state.sealed,
        only_reports(turns),
        state.expects_all(turns),
        turns.len() <= state.work_left(),
    ensures
        ({
            let end = state.after_turns(turns);
            if turns.len() == state.work_left() {
                &&& end.next_step() == NextStep::Finish(end.all_ok)
                &&& end.completed == end.accepted
                &&& end.accepted == state.accepted
            } else {
                end.after_start(false).next_step() == (NextStep::Wait {
                    for_worker: true,
                    for_request: false,
                })
            }
        }),
    decreases turns.len(),
{
    if turns.len() == 0 {
        if state.work_left() == 0 {
            state.running.lemma_len0_is_empty();
            assert(run_state::queue_names(state.pending) =~= Seq::empty());
            assert(state.completed =~= state.accepted);
        } else {
            run_laws::law_starting_takes_tasks_off_the_queue(state, false);
            if state.in_flight == 0 {
                law_no_deadlock(state, rank);
            }
        }
    } else {
        let turn = turns[0];
        let rest = turns.skip(1);
        let begun = state.after_start(false);
        let next = state.after_turn(turn);
        assert(!turns[0].cancelled && turns[0].event is Reported);
        assert forall|i: int| 0 <= i < rest.len() implies !(#[trigger] rest[i]).cancelled
            && rest[i].event is Reported by {
            assert(rest[i] == turns[i + 1]);
        }
        run_laws::law_starting_takes_tasks_off_the_queue(state, false);
        law_starting_keeps_track(state, false);
        law_starting_keeps_sequence(state, false, rank);
        law_events_keep_track(begun, turn.event);
        law_events_keep_sequence(begun, turn.event, rank, rank);
        assert(next.work_left() == state.work_left() - 1);
        law_a_sealed_run_completes(
            next,
            rank_with(begun, turn.event, rank, rank),
            rest,
        );
    }
}

} // verus!
