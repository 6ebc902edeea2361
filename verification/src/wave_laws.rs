//! What holds of the waves into which tasks are put.

use crate::commands::run;
use crate::config;
use crate::sequences;
use crate::task;
use crate::task::TaskDef;
use vstd::prelude::*;

verus! {

/// A task is in a wave just if that is the first of which it is within.
pub proof fn lemma_wave_members(tasks: Seq<TaskDef>, k: nat, t: TaskDef)
    ensures
        config::wave(tasks, k).contains(t) == (tasks.contains(t) && config::within(tasks, t, k + 1)
            && !config::within(tasks, t, k)),
{
    let next = |task: TaskDef|
        config::within(tasks, task, k + 1) && !config::within(tasks, task, k);
    sequences::lemma_filter_members(tasks, next, t);
}

/// The first waves and what is beyond them are all the tasks.
proof fn lemma_waves_and_rest(tasks: Seq<TaskDef>, waves: Seq<Vec<TaskDef>>)
    requires
        forall|k: int|
            0 <= k < waves.len() ==> #[trigger] waves[k]@ == config::wave(tasks, k as nat),
    ensures
        run::all_tasks(waves).to_multiset().add(
            config::beyond(tasks, waves.len()).to_multiset(),
        ) == tasks.to_multiset(),
    decreases waves.len(),
{
    broadcast use vstd::multiset::group_multiset_axioms;

    if waves.len() == 0 {
        let out = |task: TaskDef| !config::within(tasks, task, 0);
        sequences::lemma_filter_all(tasks, out);
        Seq::<TaskDef>::empty().to_multiset_ensures();
        assert(run::all_tasks(waves).to_multiset().add(tasks.to_multiset())
            =~= tasks.to_multiset());
    } else {
        let n = (waves.len() - 1) as nat;
        let front = waves.drop_last();
        assert forall|k: int| 0 <= k < front.len() implies #[trigger] front[k]@ == config::wave(
            tasks,
            k as nat,
        ) by {
            assert(front[k] == waves[k]);
        }
        lemma_waves_and_rest(tasks, front);
        assert(waves[n as int]@ == config::wave(tasks, n));
        lemma_beyond_divides(tasks, n);
        vstd::seq_lib::lemma_multiset_commutative(run::all_tasks(front), waves.last()@);
        assert(run::all_tasks(waves).to_multiset().add(
            config::beyond(tasks, n + 1).to_multiset(),
        ) =~= run::all_tasks(front).to_multiset().add(config::beyond(tasks, n).to_multiset()));
    }
}

/// What is beyond the first waves is the next wave and what is beyond that.
proof fn lemma_beyond_divides(tasks: Seq<TaskDef>, n: nat)
    ensures
        config::wave(tasks, n).to_multiset().add(config::beyond(tasks, n + 1).to_multiset())
            == config::beyond(tasks, n).to_multiset(),
{
    let out = |task: TaskDef| !config::within(tasks, task, n);
    let soon = |task: TaskDef| config::within(tasks, task, n + 1);
    let next = |task: TaskDef|
        config::within(tasks, task, n + 1) && !config::within(tasks, task, n);
    let later = |task: TaskDef| !config::within(tasks, task, n + 1);
    assert forall|i: int| 0 <= i < tasks.len() implies #[trigger] later(tasks[i]) == (out(
        tasks[i],
    ) && later(tasks[i])) by {
        if config::within(tasks, tasks[i], n) {
            config::lemma_within_grows(tasks, tasks[i], n, n + 1);
        }
    }
    sequences::lemma_filter_twice(tasks, out, soon, next);
    sequences::lemma_filter_twice(tasks, out, later, later);
    sequences::lemma_filter_divides(config::beyond(tasks, n), soon, later);
}

/// The waves hold every task once.
pub proof fn law_waves_hold_every_task_once(tasks: Seq<TaskDef>, waves: Seq<Vec<TaskDef>>)
    requires
        config::are_waves(tasks, waves),
    ensures
        run::all_tasks(waves).to_multiset() == tasks.to_multiset(),
{
    broadcast use vstd::multiset::group_multiset_axioms;

    lemma_waves_and_rest(tasks, waves);
    let rest = config::beyond(tasks, waves.len());
    assert(rest =~= Seq::empty());
    rest.to_multiset_ensures();
    assert(run::all_tasks(waves).to_multiset().add(rest.to_multiset()) =~= run::all_tasks(
        waves,
    ).to_multiset());
}

/// No task is in two waves.
pub proof fn law_one_wave_per_task(
    tasks: Seq<TaskDef>,
    waves: Seq<Vec<TaskDef>>,
    i: int,
    j: int,
    t: TaskDef,
)
    requires
        config::are_waves(tasks, waves),
        0 <= i < waves.len(),
        0 <= j < waves.len(),
        waves[i]@.contains(t),
        waves[j]@.contains(t),
    ensures
        i == j,
{
    lemma_wave_members(tasks, i as nat, t);
    lemma_wave_members(tasks, j as nat, t);
    if i < j {
        config::lemma_within_grows(tasks, t, (i + 1) as nat, j as nat);
    }
    if j < i {
        config::lemma_within_grows(tasks, t, (j + 1) as nat, i as nat);
    }
}

/// All that a task depends on is in earlier waves.
pub proof fn law_dependencies_run_earlier(
    tasks: Seq<TaskDef>,
    waves: Seq<Vec<TaskDef>>,
    k: int,
    t: TaskDef,
    dep: Seq<char>,
)
    requires
        config::are_waves(tasks, waves),
        0 <= k < waves.len(),
        waves[k]@.contains(t),
        task::dependencies(t).contains(dep),
    ensures
        exists|i: int, a: int|
            0 <= i < k && 0 <= a < waves[i]@.len() && #[trigger] waves[i]@[a].name@ == dep,
{
    lemma_wave_members(tasks, k as nat, t);
    let j = choose|j: int|
        {
            &&& 0 <= j < tasks.len()
            &&& #[trigger] tasks[j].name@ == dep
            &&& config::within(tasks, tasks[j], k as nat)
        };
    let i = lemma_some_wave(tasks, tasks[j], k as nat);
    assert(waves[i as int]@ == config::wave(tasks, i));
    assert(tasks.contains(tasks[j]));
    lemma_wave_members(tasks, i, tasks[j]);
    let a = waves[i as int]@.index_of(tasks[j]);
    assert(waves[i as int]@[a].name@ == dep);
}

/// A task within the first waves is in one of them.
pub proof fn lemma_some_wave(tasks: Seq<TaskDef>, t: TaskDef, waves: nat) -> (k: nat)
    requires
        config::within(tasks, t, waves),
    ensures
        k < waves,
        config::within(tasks, t, k + 1),
        !config::within(tasks, t, k),
    decreases waves,
{
    let fewer = (waves - 1) as nat;
    if config::within(tasks, t, fewer) {
        lemma_some_wave(tasks, t, fewer)
    } else {
        fewer
    }
}

/// A task of the first wave depends on nothing.
pub proof fn law_first_wave_depends_on_nothing(
    tasks: Seq<TaskDef>,
    waves: Seq<Vec<TaskDef>>,
    t: TaskDef,
)
    requires
        config::are_waves(tasks, waves),
        tasks.contains(t),
        waves.len() > 0,
    ensures
        waves[0]@.contains(t) == (t.depends_on@.len() == 0),
{
    reveal_with_fuel(config::within, 2);
    assert(waves[0]@ == config::wave(tasks, 0));
    lemma_wave_members(tasks, 0, t);
    if t.depends_on@.len() > 0 {
        let names = crate::names::texts(t.depends_on@);
        assert(names.contains(names[0]));
        assert(task::dependencies(t).contains(names[0]));
    }
}

/// A task of a later wave depends on one of the wave just before: it runs as early as it can.
pub proof fn law_tasks_run_as_early_as_they_can(
    tasks: Seq<TaskDef>,
    waves: Seq<Vec<TaskDef>>,
    k: int,
    t: TaskDef,
)
    requires
        config::are_waves(tasks, waves),
        0 < k < waves.len(),
        waves[k]@.contains(t),
    ensures
        exists|a: int|
            0 <= a < waves[k - 1]@.len() && task::dependencies(t).contains(
                (#[trigger] waves[k - 1]@[a]).name@,
            ),
{
    lemma_wave_members(tasks, k as nat, t);
    let missing = choose|dep: Seq<char>|
        #![trigger task::dependencies(t).contains(dep)]
        task::dependencies(t).contains(dep) && !(exists|j: int|
            {
                &&& 0 <= j < tasks.len()
                &&& #[trigger] tasks[j].name@ == dep
                &&& config::within(tasks, tasks[j], (k - 1) as nat)
            });
    let j = choose|j: int|
        {
            &&& 0 <= j < tasks.len()
            &&& #[trigger] tasks[j].name@ == missing
            &&& config::within(tasks, tasks[j], k as nat)
        };
    assert(tasks.contains(tasks[j]));
    lemma_wave_members(tasks, (k - 1) as nat, tasks[j]);
    assert(waves[k - 1]@ == config::wave(tasks, (k - 1) as nat));
    let a = waves[k - 1]@.index_of(tasks[j]);
    assert(waves[k - 1]@[a].name@ == missing);
}

/// Within a wave tasks stand in the order in which they were given.
pub proof fn law_waves_keep_order(
    tasks: Seq<TaskDef>,
    waves: Seq<Vec<TaskDef>>,
    k: int,
    a: int,
    b: int,
)
    requires
        config::are_waves(tasks, waves),
        task::task_names(tasks).no_duplicates(),
        0 <= k < waves.len(),
        0 <= a < b < waves[k]@.len(),
    ensures
        tasks.index_of(waves[k]@[a]) < tasks.index_of(waves[k]@[b]),
{
    let n = k as nat;
    let next = |task: TaskDef|
        config::within(tasks, task, n + 1) && !config::within(tasks, task, n);
    assert(waves[k]@ == config::wave(tasks, n));
    let at = sequences::lemma_filter_keeps_order(tasks, next, a, b);
    lemma_index_is_unique(tasks, at.0);
    lemma_index_is_unique(tasks, at.1);
}

/// Where names are unique, a task stands at one place.
proof fn lemma_index_is_unique(tasks: Seq<TaskDef>, i: int)
    requires
        task::task_names(tasks).no_duplicates(),
        0 <= i < tasks.len(),
    ensures
        tasks.index_of(tasks[i]) == i,
{
    assert(tasks.contains(tasks[i]));
    let j = tasks.index_of(tasks[i]);
    assert(tasks[j] == tasks[i]);
    assert(task::task_names(tasks)[i] == task::task_names(tasks)[j]);
}

/// A task of this name is within the first waves.
spec fn reached(tasks: Seq<TaskDef>, name: Seq<char>, waves: nat) -> bool {
    exists|j: int|
        {
            &&& 0 <= j < tasks.len()
            &&& #[trigger] tasks[j].name@ == name
            &&& config::within(tasks, tasks[j], waves)
        }
}

/// A task of this name is in a wave.
spec fn is_reached(tasks: Seq<TaskDef>, name: Seq<char>) -> bool {
    exists|waves: nat| reached(tasks, name, waves)
}

/// Where each of these names is reached, some number of waves reaches them all.
proof fn lemma_common_bound(tasks: Seq<TaskDef>, deps: Seq<Seq<char>>) -> (waves: nat)
    requires
        forall|d: int|
            0 <= d < deps.len() ==> is_reached(tasks, #[trigger] deps[d]),
    ensures
        forall|d: int| 0 <= d < deps.len() ==> reached(tasks, #[trigger] deps[d], waves),
    decreases deps.len(),
{
    if deps.len() == 0 {
        0
    } else {
        let front = deps.drop_last();
        assert forall|d: int| 0 <= d < front.len() implies is_reached(
            tasks,
            #[trigger] front[d],
        ) by {
            assert(front[d] == deps[d]);
        }
        let bound = lemma_common_bound(tasks, front);
        let last = deps[deps.len() - 1];
        let w = choose|w: nat| reached(tasks, last, w);
        let waves: nat = if bound > w {
            bound
        } else {
            w
        };
        assert forall|d: int| 0 <= d < deps.len() implies reached(
            tasks,
            #[trigger] deps[d],
            waves,
        ) by {
            if d < front.len() {
                assert(front[d] == deps[d]);
                lemma_reached_grows(tasks, deps[d], bound, waves);
            } else {
                lemma_reached_grows(tasks, last, w, waves);
            }
        }
        waves
    }
}

/// More waves reach what fewer do.
proof fn lemma_reached_grows(tasks: Seq<TaskDef>, name: Seq<char>, fewer: nat, more: nat)
    requires
        reached(tasks, name, fewer),
        fewer <= more,
    ensures
        reached(tasks, name, more),
{
    let j = choose|j: int|
        {
            &&& 0 <= j < tasks.len()
            &&& #[trigger] tasks[j].name@ == name
            &&& config::within(tasks, tasks[j], fewer)
        };
    config::lemma_within_grows(tasks, tasks[j], fewer, more);
    assert(tasks[j].name@ == name);
}

/// A task that is in no wave depends on another such task, so that following dependencies from
/// it never ends.
pub proof fn law_stuck_tasks_wait_for_stuck_tasks(tasks: Seq<TaskDef>, t: TaskDef)
    requires
        config::all_known(tasks),
        config::stuck(tasks).contains(t),
    ensures
        exists|a: int|
            0 <= a < config::stuck(tasks).len() && task::dependencies(t).contains(
                (#[trigger] config::stuck(tasks)[a]).name@,
            ),
{
    let never = |task: TaskDef| forall|waves: nat| !config::within(tasks, task, waves);
    sequences::lemma_filter_members(tasks, never, t);
    if !(exists|a: int|
        0 <= a < config::stuck(tasks).len() && task::dependencies(t).contains(
            (#[trigger] config::stuck(tasks)[a]).name@,
        )) {
        let deps = crate::names::texts(t.depends_on@);
        assert forall|d: int| 0 <= d < deps.len() implies is_reached(
            tasks,
            #[trigger] deps[d],
        ) by {
            assert(deps.contains(deps[d]));
            assert(task::dependencies(t).contains(deps[d]));
            let at = tasks.index_of(t);
            assert(task::dependencies(tasks[at]).subset_of(task::task_names(tasks).to_set()));
            assert(task::task_names(tasks).contains(deps[d]));
            let j = task::task_names(tasks).index_of(deps[d]);
            assert(tasks[j].name@ == deps[d]);
            if never(tasks[j]) {
                sequences::lemma_filter_members(tasks, never, tasks[j]);
                assert(tasks.contains(tasks[j]));
                let a = config::stuck(tasks).index_of(tasks[j]);
                assert(config::stuck(tasks)[a].name@ == deps[d]);
                assert(false);
            }
            let w = choose|w: nat| config::within(tasks, tasks[j], w);
            assert(reached(tasks, deps[d], w));
        }
        let bound = lemma_common_bound(tasks, deps);
        assert forall|dep: Seq<char>| #[trigger]
            task::dependencies(t).contains(dep) implies exists|j: int|
            {
                &&& 0 <= j < tasks.len()
                &&& #[trigger] tasks[j].name@ == dep
                &&& config::within(tasks, tasks[j], bound)
            } by {
            let d = deps.index_of(dep);
            assert(reached(tasks, deps[d], bound));
        }
        assert(config::within(tasks, t, bound + 1));
    }
}

} // verus!
