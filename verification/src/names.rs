//! Task names: which ones are legal, and sets of them.

use crate::name_laws;
use crate::text::text_eq;
use vstd::prelude::*;
use vstd::string::*;

verus! {

/// The texts of a list of strings, in order.
pub open spec fn texts(names: Seq<String>) -> Seq<Seq<char>> {
    names.map_values(|name: String| name@)
}

/// A set of task names, each held once.
pub struct NameSet {
    names: Vec<String>,
}

impl View for NameSet {
    type V = Set<Seq<char>>;

    closed spec fn view(&self) -> Set<Seq<char>> {
        texts(self.names@).to_set()
    }
}

impl NameSet {
    #[verifier::type_invariant]
    spec fn each_once(self) -> bool {
        texts(self.names@).no_duplicates()
    }

    /// The empty set.
    pub fn new() -> (set: Self)
        ensures
            set@ == Set::<Seq<char>>::empty(),
    {
        let set = NameSet { names: Vec::new() };
        proof {
            assert(set@ =~= Set::<Seq<char>>::empty());
        }
        set
    }

    /// Where `name` stands in the list, if it does.
    fn position(&self, name: &str) -> (at: Option<usize>)
        ensures
            match at {
                Some(i) => i < self.names@.len() && self.names@[i as int]@ == name@,
                None => !self@.contains(name@),
            },
    {
        let mut i: usize = 0;
        while i < self.names.len()
            invariant
                i <= self.names@.len(),
                forall|j: int| 0 <= j < i ==> self.names@[j]@ != name@,
            decreases self.names@.len() - i,
        {
            if text_eq(self.names[i].as_str(), name) {
                return Some(i);
            }
            i += 1;
        }
        proof {
            assert forall|j: int| 0 <= j < texts(self.names@).len() implies texts(self.names@)[j]
                != name@ by {
                assert(self.names@[j]@ != name@);
            }
        }
        None
    }

    /// Whether `name` is in the set.
    pub fn contains(&self, name: &str) -> (found: bool)
        ensures
            found == self@.contains(name@),
    {
        match self.position(name) {
            Some(i) => {
                proof {
                    assert(texts(self.names@)[i as int] == name@);
                }
                true
            },
            None => false,
        }
    }

    /// Adds `name`; tells whether it is new.
    pub fn insert(&mut self, name: String) -> (added: bool)
        ensures
            final(self)@ == old(self)@.insert(name@),
            added == !old(self)@.contains(name@),
    {
        proof {
            use_type_invariant(&*self);
        }
        if self.contains(name.as_str()) {
            proof {
                assert(self@ =~= self@.insert(name@));
            }
            return false;
        }
        let ghost before = self.names@;
        let mut names = Vec::new();
        std::mem::swap(&mut names, &mut self.names);
        names.push(name);
        proof {
            assert(texts(names@) =~= texts(before).push(name@));
            assert forall|n: Seq<char>| #[trigger]
                texts(names@).contains(n) == (texts(before).contains(n) || n == name@) by {
                if texts(before).contains(n) {
                    let k = texts(before).index_of(n);
                    assert(texts(names@)[k] == n);
                }
                if n == name@ {
                    assert(texts(names@)[before.len() as int] == n);
                }
            }
            assert(texts(names@).to_set() =~= texts(before).to_set().insert(name@));
        }
        self.names = names;
        true
    }

    /// Takes `name` out; tells whether it was there.
    pub fn remove(&mut self, name: &str) -> (removed: bool)
        ensures
            final(self)@ == old(self)@.remove(name@),
            removed == old(self)@.contains(name@),
    {
        proof {
            use_type_invariant(&*self);
        }
        match self.position(name) {
            Some(i) => {
                let ghost before = self.names@;
                let mut names = Vec::new();
                std::mem::swap(&mut names, &mut self.names);
                let _ = names.remove(i);
                proof {
                    let old_texts = texts(before);
                    let new_texts = texts(names@);
                    assert(new_texts =~= old_texts.remove(i as int));
                    assert(old_texts[i as int] == name@);
                    assert forall|n: Seq<char>| #[trigger]
                        new_texts.contains(n) == (old_texts.contains(n) && n != name@) by {
                        if old_texts.contains(n) && n != name@ {
                            let k = old_texts.index_of(n);
                            if k < i {
                                assert(new_texts[k] == n);
                            } else {
                                assert(new_texts[k - 1] == n);
                            }
                        }
                        if new_texts.contains(n) {
                            let k = new_texts.index_of(n);
                            let j = if k < i { k } else { k + 1 };
                            assert(old_texts[j] == n);
                        }
                    }
                    assert(new_texts.to_set() =~= old_texts.to_set().remove(name@));
                }
                self.names = names;
                true
            },
            None => {
                proof {
                    assert(self@ =~= self@.remove(name@));
                }
                false
            },
        }
    }

    /// Adds every name of a list.
    pub fn insert_all(&mut self, names: &[String])
        ensures
            final(self)@ == old(self)@.union(texts(names@).to_set()),
            forall|name: Seq<char>| #[trigger]
                final(self)@.contains(name) <==> old(self)@.contains(name) || exists|i: int|
                    0 <= i < names@.len() && #[trigger] names@[i]@ == name,
    {
        let ghost before = self@;
        let mut i: usize = 0;
        while i < names.len()
            invariant
                i <= names@.len(),
                self@ == before.union(texts(names@.take(i as int)).to_set()),
            decreases names@.len() - i,
        {
            self.insert(names[i].clone());
            proof {
                let now = texts(names@.take(i + 1));
                let then = texts(names@.take(i as int));
                assert(now =~= then.push(names@[i as int]@));
                assert(now.to_set() =~= then.to_set().insert(names@[i as int]@)) by {
                    then.lemma_push_to_set_commute(names@[i as int]@);
                }
                assert(self@ =~= before.union(now.to_set()));
            }
            i += 1;
        }
        proof {
            assert(names@.take(names@.len() as int) =~= names@);
            name_laws::law_a_list_shows_each_of_its_strings(names@);
        }
    }

    /// Whether every name of this set is in `other`.
    pub fn is_subset(&self, other: &NameSet) -> (all: bool)
        ensures
            all == self@.subset_of(other@),
    {
        all_contained(self.names.as_slice(), other)
    }

    /// The same set once more.
    pub fn duplicate(&self) -> (copy: NameSet)
        ensures
            copy@ == self@,
    {
        let mut copy = NameSet::new();
        copy.insert_all(self.names.as_slice());
        proof {
            assert(copy@ =~= self@);
        }
        copy
    }
}

/// Whether every name of a list is in a set.
pub fn all_contained(names: &[String], set: &NameSet) -> (all: bool)
    ensures
        all == texts(names@).to_set().subset_of(set@),
        all == forall|i: int| 0 <= i < names@.len() ==> set@.contains(#[trigger] names@[i]@),
{
    let mut i: usize = 0;
    while i < names.len()
        invariant
            i <= names@.len(),
            forall|j: int| 0 <= j < i ==> set@.contains(names@[j]@),
        decreases names@.len() - i,
    {
        if !set.contains(names[i].as_str()) {
            proof {
                assert(texts(names@)[i as int] == names@[i as int]@);
                assert(texts(names@).to_set().contains(names@[i as int]@));
                assert(!set@.contains(names@[i as int]@));
            }
            return false;
        }
        i += 1;
    }
    proof {
        assert forall|n: Seq<char>| texts(names@).to_set().contains(n) implies set@.contains(n) by {
            let k = texts(names@).index_of(n);
            assert(set@.contains(names@[k]@));
        }
    }
    true
}

/// The characters that a task name may hold: ASCII letters and digits, `.`, `_` and `-`.
pub open spec fn legal_name_char(c: char) -> bool {
    ||| 'A' <= c <= 'Z'
    ||| 'a' <= c <= 'z'
    ||| '0' <= c <= '9'
    ||| c == '.'
    ||| c == '_'
    ||| c == '-'
}

/// A task name is legal when it is not empty, holds legal characters only and is neither `.`
/// nor `..`, so that it can be part of a file name.
pub open spec fn legal_name(name: Seq<char>) -> bool {
    &&& name.len() > 0
    &&& name != seq!['.']
    &&& name != seq!['.', '.']
    &&& forall|i: int| 0 <= i < name.len() ==> legal_name_char(#[trigger] name[i])
}

/// Whether a task name is legal.
pub fn is_legal_name(name: &str) -> (legal: bool)
    ensures
        legal == legal_name(name@),
        legal == {
            &&& name@.len() >= 1
            &&& !(name@.len() == 1 && name@[0] == '.')
            &&& !(name@.len() == 2 && name@[0] == '.' && name@[1] == '.')
            &&& forall|i: int|
                0 <= i < name@.len() ==> ('a' <= #[trigger] name@[i] <= 'z') || ('A' <= name@[i]
                    <= 'Z') || ('0' <= name@[i] <= '9') || name@[i] == '.' || name@[i] == '_'
                    || name@[i] == '-'
        },
{
    proof {
        name_laws::law_legal_names_are_those_of_legal_characters(name@);
    }
    if name.is_empty() {
        return false;
    }
    let mut only_dots: bool = true;
    for c in it: name.chars()
        invariant
            it.seq() == name@,
            only_dots == (forall|j: int| 0 <= j < it.index() ==> name@[j] == '.'),
            forall|j: int| 0 <= j < it.index() ==> legal_name_char(#[trigger] name@[j]),
    {
        let legal = ('A' <= c && c <= 'Z') || ('a' <= c && c <= 'z') || ('0' <= c && c <= '9') || c
            == '.' || c == '_' || c == '-';
        if !legal {
            proof {
                assert(!legal_name_char(name@[it.index() as int]));
            }
            return false;
        }
        only_dots = only_dots && c == '.';
    }
    let short = name.unicode_len() <= 2;
    proof {
        if only_dots && short {
            assert(name@ =~= seq!['.'] || name@ =~= seq!['.', '.']);
        }
        if name@ == seq!['.'] || name@ == seq!['.', '.'] {
            assert(only_dots);
        }
    }
    !(only_dots && short)
}

} // verus!
