//! The tasks of a run, and the waves in which they run.

use crate::names;
use crate::names::{all_contained, NameSet};
use crate::sequences;
use crate::task;
use crate::task::TaskDef;
use crate::text;
use crate::text::{concat3, show_debug};
use vstd::prelude::*;
use vstd::string::*;

verus! {

/// The tasks that a run is made of.
pub struct TasksConfig {
    pub tasks: Vec<TaskDef>,
}

/// Why tasks cannot be put into waves.
#[derive(Debug)]
pub enum ConfigError {
    /// Two tasks have this name.
    DuplicateName(String),
    /// A task depends on a name that no task has.
    UnknownDependency { task: String, dependency: String },
    /// These tasks wait for each other.
    CircularDependency(Vec<String>),
}

/// Entries in one text, with a comma between each two.
pub open spec fn listed(entries: Seq<Seq<char>>) -> Seq<char>
    decreases entries.len(),
{
    if entries.len() == 0 {
        Seq::empty()
    } else if entries.len() == 1 {
        entries[0]
    } else {
        listed(entries.drop_last()) + ", "@ + entries.last()
    }
}

/// Names as they are shown in a list.
pub open spec fn shown_names(names: Seq<Seq<char>>) -> Seq<Seq<char>> {
    names.map_values(|name: Seq<char>| text::debug_text(name))
}

/// What is said of names that wait for each other, given as they are shown.
pub open spec fn circular_text(shown: Seq<Seq<char>>) -> Seq<char> {
    "circular dependency detected among tasks: ["@ + listed(shown) + "]"@
}

/// Says that tasks wait for each other. The names are given as they are to be shown.
pub fn circular_message(shown: &Vec<String>) -> (message: String)
    ensures
        message@ == circular_text(names::texts(shown@)),
{
    let ghost all = names::texts(shown@);
    let mut list = String::new();
    let mut i: usize = 0;
    while i < shown.len()
        invariant
            i <= shown@.len(),
            all == names::texts(shown@),
            list@ == listed(all.take(i as int)),
        decreases shown@.len() - i,
    {
        proof {
            assert(all.take(i + 1).drop_last() =~= all.take(i as int));
            assert(all.take(i + 1).last() == shown@[i as int]@);
        }
        if i > 0 {
            list.append(", ");
        }
        list.append(shown[i].as_str());
        proof {
            if i == 0 {
                assert(list@ =~= shown@[0]@);
            }
        }
        i += 1;
    }
    proof {
        assert(all.take(all.len() as int) =~= all);
    }
    concat3("circular dependency detected among tasks: [", list.as_str(), "]")
}

/// Names as they are shown in a list.
fn show_names(names: &Vec<String>) -> (shown: Vec<String>)
    ensures
        names::texts(shown@) == shown_names(names::texts(names@)),
{
    let mut shown: Vec<String> = Vec::new();
    let mut i: usize = 0;
    while i < names.len()
        invariant
            i <= names@.len(),
            shown@.len() == i,
            forall|j: int| 0 <= j < i ==> shown@[j]@ == text::debug_text(names@[j]@),
        decreases names@.len() - i,
    {
        shown.push(show_debug(names[i].as_str()));
        i += 1;
    }
    proof {
        assert(names::texts(shown@) =~= shown_names(names::texts(names@)));
    }
    shown
}

impl ConfigError {
    /// What the error says.
    pub open spec fn text(self) -> Seq<char> {
        match self {
            ConfigError::DuplicateName(name) => "duplicate task name: "@ + name@,
            ConfigError::UnknownDependency { task, dependency } => "task '"@ + task@
                + "' depends on unknown task '"@ + dependency@ + "'"@,
            ConfigError::CircularDependency(names) => circular_text(
                shown_names(names::texts(names@)),
            ),
        }
    }

    /// The error as a text.
    pub fn message(&self) -> (message: String)
        ensures
            message@ == self.text(),
    {
        match self {
            ConfigError::DuplicateName(name) => {
                let mut message = "duplicate task name: ".to_owned();
                message.append(name.as_str());
                message
            },
            ConfigError::UnknownDependency { task, dependency } => {
                let mut message = "task '".to_owned();
                message.append(task.as_str());
                message.append("' depends on unknown task '");
                message.append(dependency.as_str());
                message.append("'");
                message
            },
            ConfigError::CircularDependency(names) => circular_message(&show_names(names)),
        }
    }
}

/// The task is in one of the first `waves` waves: all that it depends on is in an earlier one.
pub open spec fn within(tasks: Seq<TaskDef>, task: TaskDef, waves: nat) -> bool
    decreases waves,
{
    waves > 0 && forall|dep: Seq<char>| #[trigger]
        task::dependencies(task).contains(dep) ==> exists|j: int|
            {
                &&& 0 <= j < tasks.len()
                &&& #[trigger] tasks[j].name@ == dep
                &&& within(tasks, tasks[j], (waves - 1) as nat)
            }
}

/// The tasks of one wave, in the order in which they were given.
pub open spec fn wave(tasks: Seq<TaskDef>, k: nat) -> Seq<TaskDef> {
    tasks.filter(|task: TaskDef| within(tasks, task, k + 1) && !within(tasks, task, k))
}

/// The tasks that are in none of the first waves.
pub open spec fn beyond(tasks: Seq<TaskDef>, waves: nat) -> Seq<TaskDef> {
    tasks.filter(|task: TaskDef| !within(tasks, task, waves))
}

/// The tasks that are in no wave.
pub open spec fn stuck(tasks: Seq<TaskDef>) -> Seq<TaskDef> {
    tasks.filter(|task: TaskDef| forall|waves: nat| !within(tasks, task, waves))
}

/// Every dependency is the name of a task.
pub open spec fn all_known(tasks: Seq<TaskDef>) -> bool {
    forall|i: int|
        0 <= i < tasks.len() ==> task::dependencies(#[trigger] tasks[i]).subset_of(
            task::task_names(tasks).to_set(),
        )
}

/// These are all the waves, none of them empty, and every task is in one.
pub open spec fn are_waves(tasks: Seq<TaskDef>, waves: Seq<Vec<TaskDef>>) -> bool {
    &&& beyond(tasks, waves.len()).len() == 0
    &&& forall|k: int|
        0 <= k < waves.len() ==> #[trigger] waves[k]@ == wave(tasks, k as nat) && waves[k]@.len()
            > 0
}

/// A task that is in one of the first waves is in one of the first more waves.
pub proof fn lemma_within_grows(tasks: Seq<TaskDef>, task: TaskDef, fewer: nat, more: nat)
    requires
        within(tasks, task, fewer),
        fewer <= more,
    ensures
        within(tasks, task, more),
    decreases fewer,
{
    assert forall|dep: Seq<char>| #[trigger] task::dependencies(task).contains(dep) implies exists|
        j: int,
    |
        {
            &&& 0 <= j < tasks.len()
            &&& #[trigger] tasks[j].name@ == dep
            &&& within(tasks, tasks[j], (more - 1) as nat)
        } by {
        let j = choose|j: int|
            {
                &&& 0 <= j < tasks.len()
                &&& #[trigger] tasks[j].name@ == dep
                &&& within(tasks, tasks[j], (fewer - 1) as nat)
            };
        lemma_within_grows(tasks, tasks[j], (fewer - 1) as nat, (more - 1) as nat);
        assert(tasks[j].name@ == dep);
    }
}

/// Where a wave is empty, nothing is ever added to the waves before it.
proof fn lemma_empty_wave_is_last(tasks: Seq<TaskDef>, k: nat, more: nat, task: TaskDef)
    requires
        forall|i: int|
            0 <= i < tasks.len() && within(tasks, tasks[i], k + 1) ==> within(
                tasks,
                #[trigger] tasks[i],
                k,
            ),
        within(tasks, task, more),
        k + 1 <= more,
    ensures
        within(tasks, task, k + 1),
    decreases more,
{
    if more > k + 1 {
        assert forall|dep: Seq<char>| #[trigger]
            task::dependencies(task).contains(dep) implies exists|j: int|
            {
                &&& 0 <= j < tasks.len()
                &&& #[trigger] tasks[j].name@ == dep
                &&& within(tasks, tasks[j], k)
            } by {
            let j = choose|j: int|
                {
                    &&& 0 <= j < tasks.len()
                    &&& #[trigger] tasks[j].name@ == dep
                    &&& within(tasks, tasks[j], (more - 1) as nat)
                };
            lemma_empty_wave_is_last(tasks, k, (more - 1) as nat, tasks[j]);
            assert(tasks[j].name@ == dep);
        }
    }
}

/// The tasks of a list whose dependencies are all placed.
pub open spec fn placeable(tasks: Seq<TaskDef>, placed: Set<Seq<char>>) -> Seq<TaskDef> {
    tasks.filter(|task: TaskDef| task::dependencies(task).subset_of(placed))
}

/// The tasks of a list with a dependency that is not placed.
pub open spec fn not_placeable(tasks: Seq<TaskDef>, placed: Set<Seq<char>>) -> Seq<TaskDef> {
    tasks.filter(|task: TaskDef| !task::dependencies(task).subset_of(placed))
}

/// These are the names of the tasks in the first waves.
pub open spec fn is_placed(tasks: Seq<TaskDef>, waves: nat, placed: Set<Seq<char>>) -> bool {
    forall|name: Seq<char>| #[trigger]
        placed.contains(name) <==> exists|j: int|
            {
                &&& 0 <= j < tasks.len()
                &&& #[trigger] tasks[j].name@ == name
                &&& within(tasks, tasks[j], waves)
            }
}

/// What can be placed next is the next wave.
proof fn lemma_next_wave(tasks: Seq<TaskDef>, k: nat, placed: Set<Seq<char>>)
    requires
        is_placed(tasks, k, placed),
    ensures
        placeable(beyond(tasks, k), placed) == wave(tasks, k),
        not_placeable(beyond(tasks, k), placed) == beyond(tasks, k + 1),
{
    assert forall|t: TaskDef| #[trigger]
        task::dependencies(t).subset_of(placed) == within(tasks, t, k + 1) by {
        if task::dependencies(t).subset_of(placed) {
            assert forall|dep: Seq<char>| #[trigger]
                task::dependencies(t).contains(dep) implies exists|j: int|
                {
                    &&& 0 <= j < tasks.len()
                    &&& #[trigger] tasks[j].name@ == dep
                    &&& within(tasks, tasks[j], k)
                } by {
                assert(placed.contains(dep));
            }
        }
        if within(tasks, t, k + 1) {
            assert forall|dep: Seq<char>| task::dependencies(t).contains(
                dep,
            ) implies placed.contains(dep) by {
                assert(task::dependencies(t).contains(dep));
                let j = choose|j: int|
                    {
                        &&& 0 <= j < tasks.len()
                        &&& #[trigger] tasks[j].name@ == dep
                        &&& within(tasks, tasks[j], k)
                    };
                assert(tasks[j].name@ == dep);
            }
        }
    }
    let out = |task: TaskDef| !within(tasks, task, k);
    let free = |task: TaskDef| task::dependencies(task).subset_of(placed);
    let waits = |task: TaskDef| !task::dependencies(task).subset_of(placed);
    let next = |task: TaskDef| within(tasks, task, k + 1) && !within(tasks, task, k);
    let later = |task: TaskDef| !within(tasks, task, k + 1);
    assert forall|i: int| 0 <= i < tasks.len() implies #[trigger] next(tasks[i]) == (out(tasks[i])
        && free(tasks[i])) by {}
    sequences::lemma_filter_twice(tasks, out, free, next);
    assert forall|i: int| 0 <= i < tasks.len() implies #[trigger] later(tasks[i]) == (out(
        tasks[i],
    ) && waits(tasks[i])) by {
        if within(tasks, tasks[i], k) {
            lemma_within_grows(tasks, tasks[i], k, k + 1);
        }
        assert(task::dependencies(tasks[i]).subset_of(placed) == within(tasks, tasks[i], k + 1));
    }
    sequences::lemma_filter_twice(tasks, out, waits, later);
}

/// The names of the first waves and of the next are the names of one wave more.
proof fn lemma_placed_grows(tasks: Seq<TaskDef>, k: nat, placed: Set<Seq<char>>)
    requires
        is_placed(tasks, k, placed),
    ensures
        is_placed(tasks, k + 1, placed.union(task::task_names(wave(tasks, k)).to_set())),
{
    let fresh = task::task_names(wave(tasks, k));
    let next = |task: TaskDef| within(tasks, task, k + 1) && !within(tasks, task, k);
    assert forall|name: Seq<char>| #[trigger]
        placed.union(fresh.to_set()).contains(name) <==> exists|j: int|
            {
                &&& 0 <= j < tasks.len()
                &&& #[trigger] tasks[j].name@ == name
                &&& within(tasks, tasks[j], k + 1)
            } by {
        if placed.contains(name) {
            let j = choose|j: int|
                {
                    &&& 0 <= j < tasks.len()
                    &&& #[trigger] tasks[j].name@ == name
                    &&& within(tasks, tasks[j], k)
                };
            lemma_within_grows(tasks, tasks[j], k, k + 1);
            assert(tasks[j].name@ == name);
        }
        if fresh.contains(name) {
            let a = fresh.index_of(name);
            let t = wave(tasks, k)[a];
            sequences::lemma_filter_members(tasks, next, t);
            assert(wave(tasks, k).contains(t));
            let j = tasks.index_of(t);
            assert(tasks[j].name@ == name);
        }
        if exists|j: int|
            {
                &&& 0 <= j < tasks.len()
                &&& #[trigger] tasks[j].name@ == name
                &&& within(tasks, tasks[j], k + 1)
            } {
            let j = choose|j: int|
                {
                    &&& 0 <= j < tasks.len()
                    &&& #[trigger] tasks[j].name@ == name
                    &&& within(tasks, tasks[j], k + 1)
                };
            if within(tasks, tasks[j], k) {
                assert(placed.contains(tasks[j].name@));
            } else {
                sequences::lemma_filter_members(tasks, next, tasks[j]);
                assert(tasks.contains(tasks[j]));
                let a = wave(tasks, k).index_of(tasks[j]);
                assert(fresh[a] == name);
                assert(fresh.contains(name));
            }
        }
    }
}

/// Where a wave is empty, what is beyond it is stuck.
proof fn lemma_stuck(tasks: Seq<TaskDef>, k: nat)
    requires
        wave(tasks, k).len() == 0,
    ensures
        beyond(tasks, k + 1) == stuck(tasks),
{
    let next = |task: TaskDef| within(tasks, task, k + 1) && !within(tasks, task, k);
    assert forall|i: int| 0 <= i < tasks.len() && within(tasks, tasks[i], k + 1) implies within(
        tasks,
        #[trigger] tasks[i],
        k,
    ) by {
        sequences::lemma_filter_members(tasks, next, tasks[i]);
        assert(tasks.contains(tasks[i]));
    }
    let later = |task: TaskDef| !within(tasks, task, k + 1);
    let never = |task: TaskDef| forall|waves: nat| !within(tasks, task, waves);
    assert forall|i: int| 0 <= i < tasks.len() implies later(#[trigger] tasks[i]) == never(
        tasks[i],
    ) by {
        if later(tasks[i]) {
            assert forall|waves: nat| !within(tasks, tasks[i], waves) by {
                if within(tasks, tasks[i], waves) {
                    if waves <= k + 1 {
                        lemma_within_grows(tasks, tasks[i], waves, k + 1);
                    } else {
                        lemma_empty_wave_is_last(tasks, k, waves, tasks[i]);
                    }
                }
            }
        }
    }
    sequences::lemma_filter_same(tasks, later, never);
}

/// Divides tasks into those whose dependencies are all placed and the others.
fn take_placeable(tasks: Vec<TaskDef>, placed: &NameSet) -> (divided: (Vec<TaskDef>, Vec<TaskDef>))
    ensures
        divided.0@ == placeable(tasks@, placed@),
        divided.1@ == not_placeable(tasks@, placed@),
        divided.0@.len() + divided.1@.len() == tasks@.len(),
{
    let mut ready: Vec<TaskDef> = Vec::new();
    let mut rest: Vec<TaskDef> = Vec::new();
    proof {
        reveal(Seq::filter);
        assert(tasks@.take(0) =~= Seq::<TaskDef>::empty());
    }
    for task in it: tasks
        invariant
            it.seq() == tasks@,
            ready@ == placeable(tasks@.take(it.index() as int), placed@),
            rest@ == not_placeable(tasks@.take(it.index() as int), placed@),
            ready@.len() + rest@.len() == it.index(),
    {
        proof {
            reveal(Seq::filter);
            assert(tasks@.take(it.index() + 1).drop_last() =~= tasks@.take(it.index() as int));
            assert(tasks@.take(it.index() + 1).last() == task);
        }
        if all_contained(task.depends_on.as_slice(), placed) {
            ready.push(task);
        } else {
            rest.push(task);
        }
    }
    proof {
        assert(tasks@.take(tasks@.len() as int) =~= tasks@);
    }
    (ready, rest)
}

/// The names of tasks.
fn names_of(tasks: &Vec<TaskDef>) -> (names: Vec<String>)
    ensures
        names::texts(names@) == task::task_names(tasks@),
{
    let mut names: Vec<String> = Vec::new();
    let mut i: usize = 0;
    while i < tasks.len()
        invariant
            i <= tasks@.len(),
            names@.len() == i,
            forall|j: int| 0 <= j < i ==> names@[j]@ == tasks@[j].name@,
        decreases tasks@.len() - i,
    {
        names.push(tasks[i].name.clone());
        i += 1;
    }
    proof {
        assert(names::texts(names@) =~= task::task_names(tasks@));
    }
    names
}

impl TasksConfig {
    /// The first name that occurs a second time.
    pub open spec fn first_duplicate(self, name: Seq<char>) -> bool {
        exists|i: int|
            {
                &&& 0 <= i < self.tasks@.len()
                &&& #[trigger] self.tasks@[i].name@ == name
                &&& task::task_names(self.tasks@.take(i)).contains(name)
                &&& task::task_names(self.tasks@.take(i)).no_duplicates()
            }
    }

    /// The first dependency, in the order of the tasks and their lists, that no task has as its
    /// name.
    pub open spec fn first_unknown(self, task: Seq<char>, dependency: Seq<char>) -> bool {
        exists|i: int, j: int|
            {
                &&& 0 <= i < self.tasks@.len()
                &&& 0 <= j < self.tasks@[i].depends_on@.len()
                &&& self.tasks@[i].name@ == task
                &&& #[trigger] self.tasks@[i].depends_on@[j]@ == dependency
                &&& !task::task_names(self.tasks@).contains(dependency)
                &&& forall|b: int|
                    0 <= b < j ==> task::task_names(self.tasks@).contains(
                        #[trigger] self.tasks@[i].depends_on@[b]@,
                    )
                &&& forall|a: int|
                    0 <= a < i ==> task::dependencies(#[trigger] self.tasks@[a]).subset_of(
                        task::task_names(self.tasks@).to_set(),
                    )
            }
    }

    /// The set of all names, unless one occurs twice.
    fn unique_names(&self) -> (result: Result<NameSet, ConfigError>)
        ensures
            match result {
                Ok(names) => task::task_names(self.tasks@).no_duplicates() && names@
                    == task::task_names(self.tasks@).to_set(),
                Err(ConfigError::DuplicateName(name)) => self.first_duplicate(name@),
                Err(_) => false,
            },
    {
        let mut names = NameSet::new();
        let mut i: usize = 0;
        proof {
            assert(names@ =~= task::task_names(self.tasks@.take(0)).to_set());
        }
        while i < self.tasks.len()
            invariant
                i <= self.tasks@.len(),
                task::task_names(self.tasks@.take(i as int)).no_duplicates(),
                names@ == task::task_names(self.tasks@.take(i as int)).to_set(),
            decreases self.tasks@.len() - i,
        {
            let ghost seen = task::task_names(self.tasks@.take(i as int));
            let name = self.tasks[i].name.clone();
            proof {
                assert(task::task_names(self.tasks@.take(i + 1)) =~= seen.push(name@));
                seen.lemma_push_to_set_commute(name@);
            }
            if !names.insert(name) {
                let again = self.tasks[i].name.clone();
                return Err(ConfigError::DuplicateName(again));
            }
            i += 1;
        }
        proof {
            assert(self.tasks@.take(self.tasks@.len() as int) =~= self.tasks@);
        }
        Ok(names)
    }

    /// Checks that every dependency is the name of a task.
    fn known_dependencies(&self, names: &NameSet) -> (result: Result<(), ConfigError>)
        requires
            names@ == task::task_names(self.tasks@).to_set(),
        ensures
            match result {
                Ok(_) => all_known(self.tasks@),
                Err(ConfigError::UnknownDependency { task, dependency }) => self.first_unknown(
                    task@,
                    dependency@,
                ),
                Err(_) => false,
            },
    {
        let mut i: usize = 0;
        while i < self.tasks.len()
            invariant
                i <= self.tasks@.len(),
                names@ == task::task_names(self.tasks@).to_set(),
                forall|a: int|
                    0 <= a < i ==> task::dependencies(#[trigger] self.tasks@[a]).subset_of(
                        names@,
                    ),
            decreases self.tasks@.len() - i,
        {
            let deps = &self.tasks[i].depends_on;
            let mut j: usize = 0;
            while j < deps.len()
                invariant
                    i < self.tasks@.len(),
                    j <= deps@.len(),
                    *deps == self.tasks@[i as int].depends_on,
                    names@ == task::task_names(self.tasks@).to_set(),
                    forall|a: int|
                        0 <= a < i ==> task::dependencies(#[trigger] self.tasks@[a]).subset_of(
                            names@,
                        ),
                    forall|b: int| 0 <= b < j ==> names@.contains(#[trigger] deps@[b]@),
                decreases deps@.len() - j,
            {
                if !names.contains(deps[j].as_str()) {
                    let task = self.tasks[i].name.clone();
                    let dependency = deps[j].clone();
                    proof {
                        assert(self.tasks@[i as int].depends_on@[j as int]@ == dependency@);
                    }
                    return Err(ConfigError::UnknownDependency { task, dependency });
                }
                j += 1;
            }
            proof {
                let listed = names::texts(deps@);
                assert forall|n: Seq<char>| listed.to_set().contains(n) implies names@.contains(
                    n,
                ) by {
                    let b = listed.index_of(n);
                    assert(names@.contains(deps@[b]@));
                }
            }
            i += 1;
        }
        Ok(())
    }

    /// Puts the tasks into waves. A task is in the first wave after all the tasks that it
    /// depends on; within a wave tasks keep their order.
    pub fn into_waves(self) -> (result: Result<Vec<Vec<TaskDef>>, ConfigError>)
        ensures
            match result {
                Ok(waves) => {
                    &&& task::task_names(self.tasks@).no_duplicates()
                    &&& all_known(self.tasks@)
                    &&& are_waves(self.tasks@, waves@)
                },
                Err(ConfigError::DuplicateName(name)) => self.first_duplicate(name@),
                Err(ConfigError::UnknownDependency { task, dependency }) => {
                    &&& task::task_names(self.tasks@).no_duplicates()
                    &&& self.first_unknown(task@, dependency@)
                },
                Err(ConfigError::CircularDependency(names)) => {
                    &&& task::task_names(self.tasks@).no_duplicates()
                    &&& all_known(self.tasks@)
                    &&& stuck(self.tasks@).len() > 0
                    &&& names::texts(names@) == task::task_names(stuck(self.tasks@))
                },
            },
    {
        let all = match self.unique_names() {
            Ok(names) => names,
            Err(error) => return Err(error),
        };
        match self.known_dependencies(&all) {
            Ok(_) => {},
            Err(error) => return Err(error),
        }
        let ghost tasks = self.tasks@;
        let mut remaining = self.tasks;
        let mut placed = NameSet::new();
        let mut waves: Vec<Vec<TaskDef>> = Vec::new();
        proof {
            let first = |task: TaskDef| !within(tasks, task, 0);
            let every = |task: TaskDef| true;
            sequences::lemma_filter_same(tasks, first, every);
            sequences::lemma_filter_all(tasks, every);
            assert(is_placed(tasks, 0, placed@));
        }
        while remaining.len() > 0
            invariant
                tasks == self.tasks@,
                task::task_names(tasks).no_duplicates(),
                all_known(tasks),
                remaining@ == beyond(tasks, waves@.len()),
                is_placed(tasks, waves@.len(), placed@),
                forall|k: int|
                    0 <= k < waves@.len() ==> #[trigger] waves@[k]@ == wave(tasks, k as nat)
                        && waves@[k]@.len() > 0,
            decreases remaining@.len(),
        {
            let ghost k = waves@.len();
            proof {
                lemma_next_wave(tasks, k, placed@);
                lemma_placed_grows(tasks, k, placed@);
            }
            let (ready, rest) = take_placeable(remaining, &placed);
            if ready.len() == 0 {
                proof {
                    lemma_stuck(tasks, k);
                }
                return Err(ConfigError::CircularDependency(names_of(&rest)));
            }
            let ready_names = names_of(&ready);
            placed.insert_all(ready_names.as_slice());
            waves.push(ready);
            remaining = rest;
        }
        Ok(waves)
    }
}

} // verus!
