//! What holds of task names and of lists of them.

use crate::names;
use crate::task;
use crate::task::TaskDef;
use vstd::prelude::*;

verus! {

/// The texts of a list are the texts of its strings, each at its place.
pub proof fn law_a_list_shows_each_of_its_strings(list: Seq<String>)
    ensures
        names::texts(list).len() == list.len(),
        forall|i: int| 0 <= i < list.len() ==> #[trigger] names::texts(list)[i] == list[i]@,
        forall|text: Seq<char>| #[trigger]
            names::texts(list).to_set().contains(text) <==> exists|i: int|
                0 <= i < list.len() && #[trigger] list[i]@ == text,
{
    let shown = names::texts(list);
    assert forall|text: Seq<char>| #[trigger]
        shown.to_set().contains(text) <==> exists|i: int|
            0 <= i < list.len() && #[trigger] list[i]@ == text by {
        if shown.contains(text) {
            let i = shown.index_of(text);
            assert(list[i]@ == text);
        }
        if exists|i: int| 0 <= i < list.len() && #[trigger] list[i]@ == text {
            let i = choose|i: int| 0 <= i < list.len() && #[trigger] list[i]@ == text;
            assert(shown[i] == text);
        }
    }
}

/// The names of tasks are their names, each at its place.
pub proof fn law_every_task_gives_its_name(tasks: Seq<TaskDef>)
    ensures
        task::task_names(tasks).len() == tasks.len(),
        forall|i: int|
            0 <= i < tasks.len() ==> #[trigger] task::task_names(tasks)[i] == tasks[i].name@,
{
}

/// A task depends on just the names that it lists.
pub proof fn law_every_listed_name_is_a_dependency(t: TaskDef, name: Seq<char>)
    ensures
        task::dependencies(t).contains(name) <==> exists|i: int|
            0 <= i < t.depends_on@.len() && #[trigger] t.depends_on@[i]@ == name,
{
    law_a_list_shows_each_of_its_strings(t.depends_on@);
}

/// Every text of letters, digits, `.`, `_` and `-`, however long, is a legal name, but for the
/// empty one, `.` and `..`; and no other text is.
pub proof fn law_legal_names_are_those_of_legal_characters(name: Seq<char>)
    ensures
        names::legal_name(name) <==> {
            &&& name.len() >= 1
            &&& !(name.len() == 1 && name[0] == '.')
            &&& !(name.len() == 2 && name[0] == '.' && name[1] == '.')
            &&& forall|i: int|
                0 <= i < name.len() ==> ('a' <= #[trigger] name[i] <= 'z') || ('A' <= name[i]
                    <= 'Z') || ('0' <= name[i] <= '9') || name[i] == '.' || name[i] == '_'
                    || name[i] == '-'
        },
{
    if name.len() == 1 && name[0] == '.' {
        assert(name =~= seq!['.']);
    }
    if name.len() == 2 && name[0] == '.' && name[1] == '.' {
        assert(name =~= seq!['.', '.']);
    }
    if names::legal_name(name) {
        assert forall|i: int| 0 <= i < name.len() implies ('a' <= #[trigger] name[i] <= 'z') || (
        'A' <= name[i] <= 'Z') || ('0' <= name[i] <= '9') || name[i] == '.' || name[i] == '_'
            || name[i] == '-' by {
            assert(names::legal_name_char(name[i]));
        }
    }
}

/// A legal name with another legal name behind it is legal.
pub proof fn law_legal_names_can_be_joined(one: Seq<char>, other: Seq<char>)
    requires
        names::legal_name(one),
        names::legal_name(other),
    ensures
        names::legal_name(one + other),
{
    let both = one + other;
    law_legal_names_are_those_of_legal_characters(one);
    law_legal_names_are_those_of_legal_characters(other);
    assert forall|i: int| 0 <= i < both.len() implies ('a' <= #[trigger] both[i] <= 'z') || ('A'
        <= both[i] <= 'Z') || ('0' <= both[i] <= '9') || both[i] == '.' || both[i] == '_' || both[i]
        == '-' by {
        if i < one.len() {
            assert(both[i] == one[i]);
        } else {
            assert(both[i] == other[i - one.len()]);
        }
    }
    if both.len() == 2 {
        assert(both[0] == one[0]);
        assert(both[1] == other[0]);
    }
    law_legal_names_are_those_of_legal_characters(both);
}

/// Whether a name is legal does not depend on the order of its characters.
pub proof fn law_legality_does_not_depend_on_order(name: Seq<char>)
    ensures
        names::legal_name(name.reverse()) == names::legal_name(name),
{
    let back = name.reverse();
    law_legal_names_are_those_of_legal_characters(name);
    law_legal_names_are_those_of_legal_characters(back);
    assert(forall|i: int| 0 <= i < name.len() ==> back[i] == #[trigger] name[name.len() - 1 - i]);
    assert forall|i: int| 0 <= i < name.len() implies #[trigger] name[i] == back[name.len() - 1
        - i] by {}
}

} // verus!
