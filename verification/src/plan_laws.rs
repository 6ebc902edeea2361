//! What holds of tasks that are put into waves, said of each task and each name that it lists.

use crate::commands::run;
use crate::config;
use crate::config::{ConfigError, TasksConfig};
use crate::name_laws;
use crate::names;
use crate::sequences;
use crate::task;
use crate::task::TaskDef;
use crate::text;
use crate::wave_laws;
use vstd::prelude::*;

verus! {

/// Every name that a task of a wave lists is the name of a task in an earlier wave.
pub proof fn law_every_listed_name_runs_earlier(
    tasks: Seq<TaskDef>,
    waves: Seq<Vec<TaskDef>>,
    k: int,
    a: int,
    d: int,
)
    requires
        config::are_waves(tasks, waves),
        0 <= k < waves.len(),
        0 <= a < waves[k]@.len(),
        0 <= d < waves[k]@[a].depends_on@.len(),
    ensures
        exists|w: int, b: int|
            0 <= w < k && 0 <= b < waves[w]@.len() && #[trigger] waves[w]@[b].name@
                == waves[k]@[a].depends_on@[d]@,
{
    let t = waves[k]@[a];
    let name = t.depends_on@[d]@;
    assert(waves[k]@.contains(t));
    name_laws::law_every_listed_name_is_a_dependency(t, name);
    wave_laws::law_dependencies_run_earlier(tasks, waves, k, t, name);
}

/// A task of a later wave lists a name of the wave just before.
pub proof fn law_a_later_task_lists_a_name_of_the_wave_before(
    tasks: Seq<TaskDef>,
    waves: Seq<Vec<TaskDef>>,
    k: int,
    a: int,
)
    requires
        config::are_waves(tasks, waves),
        0 < k < waves.len(),
        0 <= a < waves[k]@.len(),
    ensures
        exists|d: int, b: int|
            0 <= d < waves[k]@[a].depends_on@.len() && 0 <= b < waves[k - 1]@.len()
                && #[trigger] waves[k]@[a].depends_on@[d]@ == #[trigger] waves[k - 1]@[b].name@,
{
    let t = waves[k]@[a];
    assert(waves[k]@.contains(t));
    wave_laws::law_tasks_run_as_early_as_they_can(tasks, waves, k, t);
    let b = choose|b: int|
        0 <= b < waves[k - 1]@.len() && task::dependencies(t).contains(
            (#[trigger] waves[k - 1]@[b]).name@,
        );
    let name = waves[k - 1]@[b].name@;
    name_laws::law_every_listed_name_is_a_dependency(t, name);
    let d = choose|d: int| 0 <= d < t.depends_on@.len() && #[trigger] t.depends_on@[d]@ == name;
    assert(waves[k]@[a].depends_on@[d]@ == waves[k - 1]@[b].name@);
}

/// Every given task is in a wave, what is in a wave was given, and no wave is empty.
pub proof fn law_waves_hold_the_given_tasks(
    tasks: Seq<TaskDef>,
    waves: Seq<Vec<TaskDef>>,
    t: TaskDef,
)
    requires
        config::are_waves(tasks, waves),
    ensures
        tasks.contains(t) <==> exists|k: int, a: int|
            0 <= k < waves.len() && 0 <= a < waves[k]@.len() && #[trigger] waves[k]@[a] == t,
        forall|k: int| 0 <= k < waves.len() ==> (#[trigger] waves[k])@.len() > 0,
{
    if tasks.contains(t) {
        let out = |task: TaskDef| !config::within(tasks, task, waves.len());
        sequences::lemma_filter_members(tasks, out, t);
        if !config::within(tasks, t, waves.len()) {
            assert(config::beyond(tasks, waves.len()).contains(t));
        }
        let k = wave_laws::lemma_some_wave(tasks, t, waves.len());
        wave_laws::lemma_wave_members(tasks, k, t);
        assert(waves[k as int]@ == config::wave(tasks, k));
        let a = waves[k as int]@.index_of(t);
        assert(waves[k as int]@[a] == t);
    }
    if exists|k: int, a: int|
        0 <= k < waves.len() && 0 <= a < waves[k]@.len() && #[trigger] waves[k]@[a] == t {
        let (k, a) = choose|k: int, a: int|
            0 <= k < waves.len() && 0 <= a < waves[k]@.len() && #[trigger] waves[k]@[a] == t;
        assert(waves[k]@.contains(t));
        wave_laws::lemma_wave_members(tasks, k as nat, t);
        assert(waves[k]@ == config::wave(tasks, k as nat));
    }
    assert forall|k: int| 0 <= k < waves.len() implies (#[trigger] waves[k])@.len() > 0 by {
        assert(waves[k]@ == config::wave(tasks, k as nat));
    }
}

/// There are as many tasks in the waves as were given.
pub proof fn law_waves_hold_as_many_tasks(tasks: Seq<TaskDef>, waves: Seq<Vec<TaskDef>>)
    requires
        config::are_waves(tasks, waves),
    ensures
        run::all_tasks(waves).len() == tasks.len(),
{
    wave_laws::law_waves_hold_every_task_once(tasks, waves);
    vstd::seq_lib::to_multiset_len(tasks);
    vstd::seq_lib::to_multiset_len(run::all_tasks(waves));
}

/// All listed names are known just if each is the name of a given task.
pub proof fn law_known_names_are_names_of_tasks(tasks: Seq<TaskDef>)
    ensures
        config::all_known(tasks) <==> forall|i: int, d: int|
            0 <= i < tasks.len() && 0 <= d < tasks[i].depends_on@.len() ==> has_task(
                tasks,
                #[trigger] tasks[i].depends_on@[d]@,
            ),
{
    let all = task::task_names(tasks);
    if config::all_known(tasks) {
        assert forall|i: int, d: int|
            0 <= i < tasks.len() && 0 <= d < tasks[i].depends_on@.len() implies has_task(
            tasks,
            #[trigger] tasks[i].depends_on@[d]@,
        ) by {
            let name = tasks[i].depends_on@[d]@;
            name_laws::law_every_listed_name_is_a_dependency(tasks[i], name);
            assert(task::dependencies(tasks[i]).subset_of(all.to_set()));
            assert(all.contains(name));
            let j = all.index_of(name);
            assert(tasks[j].name@ == name);
        }
    }
    if forall|i: int, d: int|
        0 <= i < tasks.len() && 0 <= d < tasks[i].depends_on@.len() ==> has_task(
            tasks,
            #[trigger] tasks[i].depends_on@[d]@,
        ) {
        assert forall|i: int| 0 <= i < tasks.len() implies task::dependencies(
            #[trigger] tasks[i],
        ).subset_of(all.to_set()) by {
            assert forall|name: Seq<char>| task::dependencies(tasks[i]).contains(
                name,
            ) implies all.to_set().contains(name) by {
                name_laws::law_every_listed_name_is_a_dependency(tasks[i], name);
                let d = choose|d: int|
                    0 <= d < tasks[i].depends_on@.len() && #[trigger] tasks[i].depends_on@[d]@
                        == name;
                assert(has_task(tasks, tasks[i].depends_on@[d]@));
                let j = choose|j: int| 0 <= j < tasks.len() && (#[trigger] tasks[j]).name@ == name;
                assert(all[j] == name);
            }
        }
    }
}

/// A task has this name.
pub open spec fn has_task(tasks: Seq<TaskDef>, name: Seq<char>) -> bool {
    exists|j: int| 0 <= j < tasks.len() && (#[trigger] tasks[j]).name@ == name
}

/// The duplicate that is named is a name that two tasks have, and no name before the second of
/// them is repeated.
pub proof fn law_the_named_duplicate_is_the_first(config: TasksConfig, name: Seq<char>)
    requires
        config.first_duplicate(name),
    ensures
        exists|i: int, j: int|
            {
                &&& 0 <= i < j < config.tasks@.len()
                &&& (#[trigger] config.tasks@[i]).name@ == name
                &&& (#[trigger] config.tasks@[j]).name@ == name
                &&& forall|a: int, b: int|
                    0 <= a < b < j ==> (#[trigger] config.tasks@[a]).name@ != (
                    #[trigger] config.tasks@[b]).name@
            },
{
    let tasks = config.tasks@;
    let j = choose|j: int|
        {
            &&& 0 <= j < tasks.len()
            &&& #[trigger] tasks[j].name@ == name
            &&& task::task_names(tasks.take(j)).contains(name)
            &&& task::task_names(tasks.take(j)).no_duplicates()
        };
    let before = task::task_names(tasks.take(j));
    let i = before.index_of(name);
    assert(tasks[i].name@ == name);
    assert forall|a: int, b: int| 0 <= a < b < j implies (#[trigger] tasks[a]).name@ != (
    #[trigger] tasks[b]).name@ by {
        assert(before[a] == tasks[a].name@);
        assert(before[b] == tasks[b].name@);
    }
}

/// Where a name is repeated, a first duplicate can be named; where none is, none can.
pub proof fn law_a_duplicate_is_named_just_if_there_is_one(config: TasksConfig)
    ensures
        (exists|name: Seq<char>| #[trigger] config.first_duplicate(name)) <==> exists|
            i: int,
            j: int,
        |
            0 <= i < j < config.tasks@.len() && (#[trigger] config.tasks@[i]).name@ == (
            #[trigger] config.tasks@[j]).name@,
        task::task_names(config.tasks@).no_duplicates() <==> !(exists|i: int, j: int|
            0 <= i < j < config.tasks@.len() && (#[trigger] config.tasks@[i]).name@ == (
            #[trigger] config.tasks@[j]).name@),
{
    let tasks = config.tasks@;
    let all = task::task_names(tasks);
    if exists|name: Seq<char>| #[trigger] config.first_duplicate(name) {
        let name = choose|name: Seq<char>| #[trigger] config.first_duplicate(name);
        law_the_named_duplicate_is_the_first(config, name);
    }
    if exists|i: int, j: int|
        0 <= i < j < tasks.len() && (#[trigger] tasks[i]).name@ == (#[trigger] tasks[j]).name@ {
        let (i, j) = choose|i: int, j: int|
            0 <= i < j < tasks.len() && (#[trigger] tasks[i]).name@ == (#[trigger] tasks[j]).name@;
        lemma_some_duplicate(config, i, j);
        assert(all[i] == all[j]);
    } else {
        assert forall|a: int, b: int|
            0 <= a < all.len() && 0 <= b < all.len() && a != b implies all[a] != all[b] by {
            if a < b {
                assert(tasks[a].name@ != tasks[b].name@);
            } else {
                assert(tasks[b].name@ != tasks[a].name@);
            }
        }
    }
}

/// The first of the places at which a name is repeated.
proof fn lemma_some_duplicate(config: TasksConfig, i: int, j: int)
    requires
        0 <= i < j < config.tasks@.len(),
        config.tasks@[i].name@ == config.tasks@[j].name@,
    ensures
        exists|name: Seq<char>| #[trigger] config.first_duplicate(name),
    decreases j,
{
    let tasks = config.tasks@;
    let before = task::task_names(tasks.take(j));
    if before.no_duplicates() {
        assert(before[i] == tasks[j].name@);
        assert(before.contains(tasks[j].name@));
        assert(tasks[j].name@ == tasks[j].name@);
        assert(config.first_duplicate(tasks[j].name@));
    } else {
        let (a, b) = choose|a: int, b: int|
            0 <= a < before.len() && 0 <= b < before.len() && a != b && before[a] == before[b];
        if a < b {
            assert(before[a] == tasks[a].name@ && before[b] == tasks[b].name@);
            lemma_some_duplicate(config, a, b);
        } else {
            assert(before[a] == tasks[a].name@ && before[b] == tasks[b].name@);
            lemma_some_duplicate(config, b, a);
        }
    }
}

/// The unknown name that is named is one that its task lists and no task has, and every name
/// listed before it is known.
pub proof fn law_the_named_unknown_is_the_first(
    config: TasksConfig,
    task: Seq<char>,
    dependency: Seq<char>,
)
    requires
        config.first_unknown(task, dependency),
    ensures
        !has_task(config.tasks@, dependency),
        exists|i: int, d: int|
            {
                &&& 0 <= i < config.tasks@.len()
                &&& 0 <= d < config.tasks@[i].depends_on@.len()
                &&& config.tasks@[i].name@ == task
                &&& #[trigger] config.tasks@[i].depends_on@[d]@ == dependency
                &&& forall|c: int|
                    0 <= c < d ==> has_task(
                        config.tasks@,
                        #[trigger] config.tasks@[i].depends_on@[c]@,
                    )
                &&& forall|a: int, c: int|
                    0 <= a < i && 0 <= c < config.tasks@[a].depends_on@.len() ==> has_task(
                        config.tasks@,
                        #[trigger] config.tasks@[a].depends_on@[c]@,
                    )
            },
{
    let tasks = config.tasks@;
    let all = task::task_names(tasks);
    let (i, d) = choose|i: int, d: int|
        {
            &&& 0 <= i < tasks.len()
            &&& 0 <= d < tasks[i].depends_on@.len()
            &&& tasks[i].name@ == task
            &&& #[trigger] tasks[i].depends_on@[d]@ == dependency
            &&& !all.contains(dependency)
            &&& forall|b: int| 0 <= b < d ==> all.contains(#[trigger] tasks[i].depends_on@[b]@)
            &&& forall|a: int|
                0 <= a < i ==> task::dependencies(#[trigger] tasks[a]).subset_of(all.to_set())
        };
    assert forall|name: Seq<char>| #[trigger] all.contains(name) == has_task(tasks, name) by {
        if all.contains(name) {
            let j = all.index_of(name);
            assert(tasks[j].name@ == name);
        }
        if has_task(tasks, name) {
            let j = choose|j: int| 0 <= j < tasks.len() && (#[trigger] tasks[j]).name@ == name;
            assert(all[j] == name);
        }
    }
    assert(!all.contains(dependency));
    assert forall|c: int| 0 <= c < d implies has_task(
        tasks,
        #[trigger] tasks[i].depends_on@[c]@,
    ) by {
        assert(all.contains(tasks[i].depends_on@[c]@));
    }
    assert forall|a: int, c: int|
        0 <= a < i && 0 <= c < tasks[a].depends_on@.len() implies has_task(
        tasks,
        #[trigger] tasks[a].depends_on@[c]@,
    ) by {
        let name = tasks[a].depends_on@[c]@;
        name_laws::law_every_listed_name_is_a_dependency(tasks[a], name);
        assert(task::dependencies(tasks[a]).subset_of(all.to_set()));
        assert(all.contains(name));
    }
    assert(tasks[i].depends_on@[d]@ == dependency);
}

/// A stuck task lists the name of a stuck task.
pub proof fn law_a_stuck_task_lists_a_stuck_task(tasks: Seq<TaskDef>, a: int)
    requires
        config::all_known(tasks),
        0 <= a < config::stuck(tasks).len(),
    ensures
        exists|d: int, b: int|
            {
                &&& 0 <= d < config::stuck(tasks)[a].depends_on@.len()
                &&& 0 <= b < config::stuck(tasks).len()
                &&& #[trigger] config::stuck(tasks)[a].depends_on@[d]@
                    == #[trigger] config::stuck(tasks)[b].name@
            },
{
    let stuck = config::stuck(tasks);
    let t = stuck[a];
    assert(stuck.contains(t));
    wave_laws::law_stuck_tasks_wait_for_stuck_tasks(tasks, t);
    let b = choose|b: int|
        0 <= b < stuck.len() && task::dependencies(t).contains((#[trigger] stuck[b]).name@);
    let name = stuck[b].name@;
    name_laws::law_every_listed_name_is_a_dependency(t, name);
    let d = choose|d: int| 0 <= d < t.depends_on@.len() && #[trigger] t.depends_on@[d]@ == name;
    assert(stuck[a].depends_on@[d]@ == stuck[b].name@);
}

/// Every task of this group lists a name of the group.
pub open spec fn wait_for_each_other(tasks: Seq<TaskDef>, group: Set<Seq<char>>) -> bool {
    forall|i: int|
        0 <= i < tasks.len() && group.contains((#[trigger] tasks[i]).name@) ==> exists|d: int|
            0 <= d < tasks[i].depends_on@.len() && group.contains(
                #[trigger] tasks[i].depends_on@[d]@,
            )
}

/// Tasks that wait for each other are stuck: whatever group of names is such that each of its
/// tasks lists one of the group, all its tasks are among the stuck ones.
pub proof fn law_tasks_that_wait_for_each_other_are_stuck(
    tasks: Seq<TaskDef>,
    group: Set<Seq<char>>,
    i: int,
)
    requires
        wait_for_each_other(tasks, group),
        0 <= i < tasks.len(),
        group.contains(tasks[i].name@),
    ensures
        config::stuck(tasks).contains(tasks[i]),
{
    assert forall|waves: nat| !config::within(tasks, tasks[i], waves) by {
        lemma_never_within(tasks, group, i, waves);
    }
    let never = |task: TaskDef| forall|waves: nat| !config::within(tasks, task, waves);
    sequences::lemma_filter_members(tasks, never, tasks[i]);
    assert(tasks.contains(tasks[i]));
}

/// Such a task is within no number of waves.
proof fn lemma_never_within(tasks: Seq<TaskDef>, group: Set<Seq<char>>, i: int, waves: nat)
    requires
        wait_for_each_other(tasks, group),
        0 <= i < tasks.len(),
        group.contains(tasks[i].name@),
    ensures
        !config::within(tasks, tasks[i], waves),
    decreases waves,
{
    if config::within(tasks, tasks[i], waves) {
        let d = choose|d: int|
            0 <= d < tasks[i].depends_on@.len() && group.contains(
                #[trigger] tasks[i].depends_on@[d]@,
            );
        let name = tasks[i].depends_on@[d]@;
        name_laws::law_every_listed_name_is_a_dependency(tasks[i], name);
        assert(task::dependencies(tasks[i]).contains(name));
        let j = choose|j: int|
            {
                &&& 0 <= j < tasks.len()
                &&& #[trigger] tasks[j].name@ == name
                &&& config::within(tasks, tasks[j], (waves - 1) as nat)
            };
        lemma_never_within(tasks, group, j, (waves - 1) as nat);
    }
}

/// Tasks that list only names of lower rank are never stuck: where no tasks wait for each other
/// in a circle, there are waves.
pub proof fn law_tasks_without_circles_have_waves(
    tasks: Seq<TaskDef>,
    rank: spec_fn(Seq<char>) -> nat,
)
    requires
        config::all_known(tasks),
        forall|i: int, d: int|
            0 <= i < tasks.len() && 0 <= d < tasks[i].depends_on@.len() ==> rank(
                #[trigger] tasks[i].depends_on@[d]@,
            ) < rank(tasks[i].name@),
    ensures
        config::stuck(tasks).len() == 0,
{
    lemma_no_stuck_task(tasks, rank, 0);
}

/// No task stands at this place among the stuck ones: from it one would come to a stuck task of
/// lower rank, again and again.
proof fn lemma_no_stuck_task(tasks: Seq<TaskDef>, rank: spec_fn(Seq<char>) -> nat, a: int)
    requires
        config::all_known(tasks),
        forall|i: int, d: int|
            0 <= i < tasks.len() && 0 <= d < tasks[i].depends_on@.len() ==> rank(
                #[trigger] tasks[i].depends_on@[d]@,
            ) < rank(tasks[i].name@),
    ensures
        !(0 <= a < config::stuck(tasks).len()),
    decreases rank(config::stuck(tasks)[a].name@),
{
    let stuck = config::stuck(tasks);
    if 0 <= a < stuck.len() {
        law_a_stuck_task_lists_a_stuck_task(tasks, a);
        let (d, b) = choose|d: int, b: int|
            {
                &&& 0 <= d < stuck[a].depends_on@.len()
                &&& 0 <= b < stuck.len()
                &&& #[trigger] stuck[a].depends_on@[d]@ == #[trigger] stuck[b].name@
            };
        let never = |task: TaskDef| forall|waves: nat| !config::within(tasks, task, waves);
        assert(stuck.contains(stuck[a]));
        sequences::lemma_filter_members(tasks, never, stuck[a]);
        let i = tasks.index_of(stuck[a]);
        assert(rank(tasks[i].depends_on@[d]@) < rank(tasks[i].name@));
        lemma_no_stuck_task(tasks, rank, b);
    }
}

/// Stuck tasks are given tasks, and stand in the order in which they were given.
pub proof fn law_stuck_tasks_keep_order(tasks: Seq<TaskDef>, a: int, b: int)
    requires
        0 <= a < b < config::stuck(tasks).len(),
    ensures
        exists|i: int, j: int|
            0 <= i < j < tasks.len() && #[trigger] tasks[i] == config::stuck(tasks)[a]
                && #[trigger] tasks[j] == config::stuck(tasks)[b],
{
    let never = |task: TaskDef| forall|waves: nat| !config::within(tasks, task, waves);
    let at = sequences::lemma_filter_keeps_order(tasks, never, a, b);
    assert(tasks[at.0] == config::stuck(tasks)[a]);
    assert(tasks[at.1] == config::stuck(tasks)[b]);
}

/// Errors name what is wrong.
pub proof fn law_errors_name_what_is_wrong(name: String, dependency: String, stuck: Vec<String>)
    ensures
        ConfigError::DuplicateName(name).text() == "duplicate task name: "@ + name@,
        (ConfigError::UnknownDependency { task: name, dependency }).text() == "task '"@ + name@
            + "' depends on unknown task '"@ + dependency@ + "'"@,
        ConfigError::CircularDependency(stuck).text() == config::circular_text(
            config::shown_names(names::texts(stuck@)),
        ),
        config::shown_names(names::texts(stuck@)).len() == stuck@.len(),
        forall|i: int|
            0 <= i < stuck@.len() ==> #[trigger] config::shown_names(names::texts(stuck@))[i]
                == text::debug_text(stuck@[i]@),
{
}

/// A circle is told of by its names, listed in brackets.
pub proof fn law_a_circle_is_listed_in_brackets(shown: Seq<Seq<char>>)
    ensures
        config::circular_text(shown) == "circular dependency detected among tasks: "@ + "["@
            + config::listed(shown) + "]"@,
{
    reveal_strlit("circular dependency detected among tasks: ");
    reveal_strlit("circular dependency detected among tasks: [");
    reveal_strlit("[");
    assert("circular dependency detected among tasks: ["@
        =~= "circular dependency detected among tasks: "@ + "["@);
}

} // verus!
