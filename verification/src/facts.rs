//! Facts that the workers of a run share: storing them, and showing them to a worker.

use crate::clock;
use crate::clock::local_now;
use crate::fact_laws;
use crate::names;
use crate::task;
use crate::task::TaskDef;
use crate::text;
use crate::text::{concat3, join_lines, join_path, text_eq, text_precedes};
use vstd::prelude::*;
use vstd::string::*;
use vstd::utf8::*;

verus! {

/// Most bytes of a value that are kept.
pub const MAX_VALUE_BYTES: usize = 1024;

/// Most bytes that the facts in a preamble take up, line ends included.
pub const MAX_PREAMBLE_BYTES: usize = 4096;

/// Number of bytes of one character.
pub open spec fn char_bytes(c: char) -> nat {
    encode_scalar(c as u32).len()
}

/// How many characters from the start fit into `budget` bytes.
pub open spec fn fitting(text: Seq<char>, budget: int) -> nat
    decreases text.len(),
{
    if text.len() == 0 || char_bytes(text[0]) > budget {
        0
    } else {
        1 + fitting(text.drop_first(), budget - char_bytes(text[0]))
    }
}

/// The value that is stored for `value`: itself, or as many whole characters as fit, marked.
pub open spec fn truncated(value: Seq<char>) -> Seq<char> {
    if text::byte_len(value) <= MAX_VALUE_BYTES {
        value
    } else {
        value.take(fitting(value, MAX_VALUE_BYTES as int) as int) + "[truncated]"@
    }
}

/// The characters that fit are a prefix, and no more would fit.
pub proof fn lemma_fitting_is_longest(text: Seq<char>, budget: int)
    requires
        0 <= budget,
    ensures
        fitting(text, budget) <= text.len(),
        text::byte_len(text.take(fitting(text, budget) as int)) <= budget,
        fitting(text, budget) < text.len() ==> text::byte_len(
            text.take(fitting(text, budget) as int + 1),
        ) > budget,
    decreases text.len(),
{
    let n = fitting(text, budget);
    if text.len() > 0 {
        let rest = text.drop_first();
        if char_bytes(text[0]) <= budget {
            let m = fitting(rest, budget - char_bytes(text[0]));
            lemma_fitting_is_longest(rest, budget - char_bytes(text[0]));
            assert(text.take(n as int).drop_first() =~= rest.take(m as int));
            if m < rest.len() {
                assert(text.take(n as int + 1).drop_first() =~= rest.take(m as int + 1));
            }
        } else {
            assert(text.take(1).drop_first() =~= Seq::empty());
        }
    }
}

/// The last character boundary at or before `budget` is where the characters that fit end.
proof fn lemma_boundary_ends_fitting(text: Seq<char>, end: int, budget: int)
    requires
        0 <= end <= budget <= text::byte_len(text),
        is_char_boundary(encode_utf8(text), end),
        forall|j: int|
            end < j <= budget ==> !(#[trigger] is_char_boundary(encode_utf8(text), j)),
    ensures
        text::byte_len(text.take(fitting(text, budget) as int)) == end,
    decreases text.len(),
{
    let bytes = encode_utf8(text);
    encode_utf8_valid_utf8(text);
    if text.len() == 0 {
    } else {
        let rest = text.drop_first();
        let width = char_bytes(text[0]) as int;
        encode_utf8_first_scalar(text);
        encode_utf8_valid_utf8(rest);
        assert(pop_first_scalar(bytes) =~= encode_utf8(rest));
        assert(width >= 1);
        if width > budget {
            reveal_with_fuel(is_char_boundary, 2);
        } else {
            assert(is_char_boundary(bytes, width)) by {
                reveal_with_fuel(is_char_boundary, 2);
            }
            assert(end >= width);
            assert(is_char_boundary(encode_utf8(rest), end - width));
            assert forall|j: int| end - width < j <= budget - width implies !(
            #[trigger] is_char_boundary(encode_utf8(rest), j)) by {
                assert(!is_char_boundary(bytes, j + width));
            }
            lemma_boundary_ends_fitting(rest, end - width, budget - width);
            let m = fitting(rest, budget - width);
            lemma_fitting_is_longest(rest, budget - width);
            assert(text.take(m as int + 1).drop_first() =~= rest.take(m as int));
        }
    }
}

/// Shortens a value that is too long, at a character boundary, and marks it.
pub fn truncate_value(value: String) -> (stored: String)
    ensures
        stored@ == truncated(value@),
        encode_utf8(value@).len() <= 1024 ==> stored@ == value@,
        encode_utf8(value@).len() > 1024 ==> exists|n: int|
            {
                &&& 0 <= n < value@.len()
                &&& stored@ == #[trigger] value@.take(n) + "[truncated]"@
                &&& encode_utf8(value@.take(n)).len() <= 1024
                &&& encode_utf8(value@.take(n + 1)).len() > 1024
            },
{
    proof {
        fact_laws::law_stored_values_hold_all_that_fits(value@);
    }
    let shown = value.as_str();
    if text::byte_length(shown) <= MAX_VALUE_BYTES {
        return value;
    }
    let ghost bytes = encode_utf8(value@);
    proof {
        encode_utf8_valid_utf8(value@);
        is_char_boundary_start_end_of_seq(bytes);
    }
    let mut end: usize = MAX_VALUE_BYTES;
    while !shown.is_char_boundary(end)
        invariant
            bytes == encode_utf8(value@),
            bytes.len() > MAX_VALUE_BYTES,
            shown@ == value@,
            is_char_boundary(bytes, 0),
            end <= MAX_VALUE_BYTES,
            forall|j: int| end < j <= MAX_VALUE_BYTES ==> !(#[trigger] is_char_boundary(bytes, j)),
        decreases end,
    {
        end -= 1;
    }
    let (kept, _) = shown.split_at(end);
    let mut stored = kept.to_owned();
    stored.append("[truncated]");
    proof {
        let n = fitting(value@, MAX_VALUE_BYTES as int) as int;
        lemma_boundary_ends_fitting(value@, end as int, MAX_VALUE_BYTES as int);
        lemma_fitting_is_longest(value@, MAX_VALUE_BYTES as int);
        text::lemma_encode_concat(value@.take(n), value@.skip(n));
        assert(value@.take(n) + value@.skip(n) =~= value@);
        assert(encode_utf8(value@.take(n)) =~= encode_utf8(kept@));
        text::lemma_encode_injective(value@.take(n), kept@);
    }
    stored
}

/// One stored fact. The time is an RFC 3339 text.
#[derive(Debug, Clone)]
pub struct FactEntry {
    pub value: String,
    pub artifact_path: Option<String>,
    pub updated_at: String,
}

/// What a stored fact says.
#[verifier::ext_equal]
pub struct Fact {
    pub value: Seq<char>,
    pub artifact_path: Option<Seq<char>>,
    pub updated_at: Seq<char>,
}

impl View for FactEntry {
    type V = Fact;

    open spec fn view(&self) -> Fact {
        Fact {
            value: self.value@,
            artifact_path: task::optional_text(self.artifact_path),
            updated_at: self.updated_at@,
        }
    }
}

/// Facts by key, listed in the order of their keys.
pub struct FactTable {
    entries: Vec<(String, FactEntry)>,
}

/// Keys are in order, each once.
pub open spec fn sorted(rows: Seq<(Seq<char>, Fact)>) -> bool {
    forall|i: int, j: int|
        0 <= i < j < rows.len() ==> text::precedes(#[trigger] rows[i].0, #[trigger] rows[j].0)
}

/// A key is in some row.
pub open spec fn has_key(rows: Seq<(Seq<char>, Fact)>, key: Seq<char>) -> bool {
    exists|i: int| 0 <= i < rows.len() && #[trigger] rows[i].0 == key
}

/// The facts of a list of rows, by key.
pub open spec fn table_of(rows: Seq<(Seq<char>, Fact)>) -> Map<Seq<char>, Fact> {
    Map::new(
        |key: Seq<char>| has_key(rows, key),
        |key: Seq<char>| rows[choose|i: int| 0 <= i < rows.len() && #[trigger] rows[i].0 == key].1,
    )
}

/// The row of a key holds the fact of that key.
pub proof fn lemma_row_of_key(rows: Seq<(Seq<char>, Fact)>, i: int)
    requires
        sorted(rows),
        0 <= i < rows.len(),
    ensures
        table_of(rows).contains_key(rows[i].0),
        table_of(rows)[rows[i].0] == rows[i].1,
{
    let key = rows[i].0;
    let k = choose|k: int| 0 <= k < rows.len() && #[trigger] rows[k].0 == key;
    text::lemma_precedes_irreflexive(key);
    assert(k == i);
}

/// There are as many keys as rows.
pub proof fn lemma_one_row_per_key(rows: Seq<(Seq<char>, Fact)>)
    requires
        sorted(rows),
    ensures
        table_of(rows).dom().finite(),
        table_of(rows).dom().len() == rows.len(),
{
    let keys = rows.map_values(|row: (Seq<char>, Fact)| row.0);
    assert forall|i: int, j: int|
        0 <= i < keys.len() && 0 <= j < keys.len() && i != j implies keys[i] != keys[j] by {
        text::lemma_precedes_irreflexive(keys[i]);
        if i < j {
            assert(text::precedes(rows[i].0, rows[j].0));
        } else {
            assert(text::precedes(rows[j].0, rows[i].0));
        }
    }
    assert forall|key: Seq<char>| has_key(rows, key) == keys.to_set().contains(key) by {
        if has_key(rows, key) {
            let i = choose|i: int| 0 <= i < rows.len() && #[trigger] rows[i].0 == key;
            assert(keys[i] == key);
        }
        if keys.contains(key) {
            let i = keys.index_of(key);
            assert(rows[i].0 == key);
        }
    }
    assert(table_of(rows).dom() =~= keys.to_set());
    keys.unique_seq_to_set();
}

/// A row put in its place, for the row of the same key or as a new one, changes that key alone.
proof fn lemma_row_put(
    before: Seq<(Seq<char>, Fact)>,
    place: int,
    key: Seq<char>,
    fact: Fact,
    after: Seq<(Seq<char>, Fact)>,
)
    requires
        sorted(before),
        0 <= place <= before.len(),
        forall|i: int| 0 <= i < place ==> text::precedes(#[trigger] before[i].0, key),
        place < before.len() ==> !text::precedes(before[place].0, key),
        after == if place < before.len() && before[place].0 == key {
            before.update(place, (key, fact))
        } else {
            before.insert(place, (key, fact))
        },
    ensures
        sorted(after),
        table_of(after) == table_of(before).insert(key, fact),
{
    let replaces = place < before.len() && before[place].0 == key;
    // Where the row that stands at `a` afterwards stood before.
    let origin = |a: int| if a < place || replaces { a } else { a - 1 };
    assert forall|i: int, j: int| 0 <= i < j < after.len() implies text::precedes(
        #[trigger] after[i].0,
        #[trigger] after[j].0,
    ) by {
        if i == place {
            if !replaces {
                text::lemma_precedes_total(before[place].0, key);
            }
            if origin(j) > place && !replaces {
                assert(text::precedes(before[place].0, before[origin(j)].0));
                text::lemma_precedes_transitive(key, before[place].0, before[origin(j)].0);
            }
        } else if j == place {
            assert(text::precedes(before[i].0, key));
        } else {
            assert(text::precedes(before[origin(i)].0, before[origin(j)].0));
        }
    }
    assert forall|k: Seq<char>| #[trigger]
        has_key(after, k) == (has_key(before, k) || k == key) by {
        if has_key(before, k) && k != key {
            let b = choose|b: int| 0 <= b < before.len() && #[trigger] before[b].0 == k;
            let a = if b < place || replaces { b } else { b + 1 };
            assert(after[a].0 == k);
        }
        if k == key {
            assert(after[place].0 == k);
        }
        if has_key(after, k) && k != key {
            let a = choose|a: int| 0 <= a < after.len() && #[trigger] after[a].0 == k;
            assert(before[origin(a)].0 == k);
        }
    }
    assert forall|k: Seq<char>| has_key(after, k) implies #[trigger] table_of(after)[k]
        == table_of(before).insert(key, fact)[k] by {
        let a = choose|a: int| 0 <= a < after.len() && #[trigger] after[a].0 == k;
        lemma_row_of_key(after, a);
        lemma_row_of_key(after, place);
        if k != key {
            assert(before[origin(a)] == after[a]);
            lemma_row_of_key(before, origin(a));
        }
    }
    assert(table_of(after) =~= table_of(before).insert(key, fact));
}

impl View for FactTable {
    type V = Map<Seq<char>, Fact>;

    open spec fn view(&self) -> Map<Seq<char>, Fact> {
        table_of(self.rows())
    }
}

impl FactTable {
    /// Keys and facts, in the order of the keys.
    pub closed spec fn rows(self) -> Seq<(Seq<char>, Fact)> {
        self.entries@.map_values(|entry: (String, FactEntry)| (entry.0@, entry.1@))
    }

    #[verifier::type_invariant]
    spec fn in_order(self) -> bool {
        sorted(self.rows())
    }

    /// A table without facts.
    pub fn new() -> (table: FactTable)
        ensures
            table@ == Map::<Seq<char>, Fact>::empty(),
            table.rows() == Seq::<(Seq<char>, Fact)>::empty(),
            sorted(table.rows()),
    {
        let table = FactTable { entries: Vec::new() };
        proof {
            assert(table.rows() =~= Seq::<(Seq<char>, Fact)>::empty());
            assert(table@ =~= Map::<Seq<char>, Fact>::empty());
        }
        table
    }

    /// Number of facts.
    pub fn len(&self) -> (n: usize)
        ensures
            n == self.rows().len(),
            n == self@.dom().len(),
    {
        proof {
            use_type_invariant(self);
            lemma_one_row_per_key(self.rows());
        }
        self.entries.len()
    }

    /// The key at a place in the order of the keys.
    pub fn key_at(&self, place: usize) -> (key: &String)
        requires
            place < self.rows().len(),
        ensures
            key@ == self.rows()[place as int].0,
    {
        &self.entries[place].0
    }

    /// The fact at a place in the order of the keys.
    pub fn fact_at(&self, place: usize) -> (entry: &FactEntry)
        requires
            place < self.rows().len(),
        ensures
            entry@ == self.rows()[place as int].1,
    {
        &self.entries[place].1
    }

    /// How many keys come before `key`.
    fn place_of(&self, key: &str) -> (place: usize)
        ensures
            place <= self.rows().len(),
            forall|i: int|
                0 <= i < place ==> text::precedes(#[trigger] self.rows()[i].0, key@),
            place < self.rows().len() ==> !text::precedes(self.rows()[place as int].0, key@),
    {
        let mut i: usize = 0;
        while i < self.entries.len() && text_precedes(self.entries[i].0.as_str(), key)
            invariant
                i <= self.rows().len(),
                self.rows().len() == self.entries@.len(),
                forall|j: int| 0 <= j < i ==> text::precedes(#[trigger] self.rows()[j].0, key@),
            decreases self.entries@.len() - i,
        {
            i += 1;
        }
        i
    }

    /// The fact of a key.
    pub fn get(&self, key: &str) -> (found: Option<&FactEntry>)
        ensures
            match found {
                Some(entry) => self@.contains_key(key@) && self@[key@] == entry@,
                None => !self@.contains_key(key@),
            },
    {
        proof {
            use_type_invariant(self);
        }
        let i = self.place_of(key);
        if i < self.entries.len() && text_eq(self.entries[i].0.as_str(), key) {
            proof {
                lemma_row_of_key(self.rows(), i as int);
            }
            return Some(&self.entries[i].1);
        }
        proof {
            assert forall|k: int| 0 <= k < self.rows().len() implies #[trigger] self.rows()[k].0
                != key@ by {
                text::lemma_precedes_irreflexive(key@);
                if k > i && self.rows()[k].0 == key@ {
                    assert(text::precedes(self.rows()[i as int].0, self.rows()[k].0));
                }
            }
        }
        None
    }

    /// Stores a fact under a key, in place of the one that was there.
    pub fn insert(&mut self, key: String, entry: FactEntry)
        ensures
            final(self)@ == old(self)@.insert(key@, entry@),
            sorted(final(self).rows()),
    {
        proof {
            use_type_invariant(&*self);
        }
        let ghost before = self.rows();
        let i = self.place_of(key.as_str());
        let replaces = i < self.entries.len() && text_eq(self.entries[i].0.as_str(), key.as_str());
        let mut entries = Vec::new();
        std::mem::swap(&mut entries, &mut self.entries);
        if replaces {
            let _ = entries.remove(i);
        }
        entries.insert(i, (key, entry));
        proof {
            let rows = entries@.map_values(|entry: (String, FactEntry)| (entry.0@, entry.1@));
            if replaces {
                assert(rows =~= before.update(i as int, (key@, entry@)));
            } else {
                assert(rows =~= before.insert(i as int, (key@, entry@)));
            }
            lemma_row_put(before, i as int, key@, entry@, rows);
        }
        self.entries = entries;
    }
}

/// The line that shows a fact.
pub open spec fn fact_line(key: Seq<char>, fact: Fact) -> Seq<char> {
    match fact.artifact_path {
        Some(path) => key + ": "@ + fact.value + " [artifact: "@ + path + "]"@,
        None => key + ": "@ + fact.value,
    }
}

/// The lines that show facts in `budget` bytes, line ends included. Where the next fact no
/// longer fits, a line says that facts are missing.
pub open spec fn fact_block(rows: Seq<(Seq<char>, Fact)>, budget: int) -> Seq<Seq<char>>
    decreases rows.len(),
{
    if rows.len() == 0 {
        Seq::empty()
    } else {
        let line = fact_line(rows[0].0, rows[0].1);
        if text::byte_len(line) + 1 > budget {
            seq!["[additional facts truncated — see facts.json]"@]
        } else {
            seq![line] + fact_block(rows.drop_first(), budget - text::byte_len(line) - 1)
        }
    }
}

/// What a worker is shown of the facts: a heading, the facts in the order of their keys as far
/// as they fit, where to find all of them, and a closing line.
pub open spec fn preamble(rows: Seq<(Seq<char>, Fact)>, path: Seq<char>) -> Seq<char> {
    text::joined_lines(
        seq!["=== Shared Context ==="@] + fact_block(rows, MAX_PREAMBLE_BYTES as int) + seq![
            "[Full facts at: "@ + path + "]"@,
            "======================"@,
        ],
    )
}

/// Writes the line of a fact.
fn show_fact(key: &str, entry: &FactEntry) -> (line: String)
    ensures
        line@ == fact_line(key@, entry@),
        line@ == key@ + ": "@ + entry.value@ + (match entry.artifact_path {
            Some(path) => " [artifact: "@ + path@ + "]"@,
            None => Seq::empty(),
        }),
{
    let mut line = key.to_owned();
    line.append(": ");
    line.append(entry.value.as_str());
    if let Some(path) = &entry.artifact_path {
        line.append(" [artifact: ");
        line.append(path.as_str());
        line.append("]");
    }
    proof {
        let end = match &entry.artifact_path {
            Some(path) => " [artifact: "@ + path@ + "]"@,
            None => Seq::empty(),
        };
        assert(line@ =~= key@ + ": "@ + entry.value@ + end);
    }
    line
}

impl FactTable {
    /// Writes the lines that show the facts.
    fn show_facts(&self) -> (lines: Vec<String>)
        ensures
            names::texts(lines@) == fact_block(self.rows(), MAX_PREAMBLE_BYTES as int),
    {
        let ghost rows = self.rows();
        let ghost whole = fact_block(rows, MAX_PREAMBLE_BYTES as int);
        let mut lines: Vec<String> = Vec::new();
        let mut room: usize = MAX_PREAMBLE_BYTES;
        let mut i: usize = 0;
        proof {
            assert(rows.skip(0) =~= rows);
            assert(names::texts(lines@) + whole =~= whole);
        }
        while i < self.entries.len()
            invariant
                i <= rows.len(),
                rows == self.rows(),
                rows.len() == self.entries@.len(),
                whole == fact_block(rows, MAX_PREAMBLE_BYTES as int),
                whole == names::texts(lines@) + fact_block(rows.skip(i as int), room as int),
            decreases rows.len() - i,
        {
            let ghost rest = rows.skip(i as int);
            let line = show_fact(self.entries[i].0.as_str(), &self.entries[i].1);
            let size = text::byte_length(line.as_str());
            let ghost shown = names::texts(lines@);
            proof {
                assert(rest[0] == rows[i as int]);
                assert(rest.drop_first() =~= rows.skip(i + 1));
            }
            if size >= room {
                let marker = "[additional facts truncated — see facts.json]".to_owned();
                lines.push(marker);
                proof {
                    assert(names::texts(lines@) =~= shown + seq![marker@]);
                }
                return lines;
            }
            room = room - size - 1;
            lines.push(line);
            proof {
                assert(names::texts(lines@) =~= shown.push(line@));
                assert(shown + (seq![line@] + fact_block(rows.skip(i + 1), room as int))
                    =~= shown.push(line@) + fact_block(rows.skip(i + 1), room as int));
            }
            i += 1;
        }
        proof {
            assert(rows.skip(rows.len() as int).len() == 0);
            assert(whole =~= names::texts(lines@));
        }
        lines
    }
}

/// What was found where the facts are stored.
pub enum StoredFacts {
    /// Nothing: no fact was ever written.
    Missing,
    /// Facts.
    Loaded(FactTable),
    /// Something that cannot be read as facts, and why.
    Unreadable(String),
}

/// Why facts are not available.
#[derive(Debug)]
pub enum FactsError {
    /// What is stored cannot be read as facts.
    Unreadable(String),
}

impl StoredFacts {
    /// The facts, where what was found can be read.
    pub open spec fn table(self) -> Map<Seq<char>, Fact> {
        match self {
            StoredFacts::Loaded(table) => table@,
            _ => Map::empty(),
        }
    }

    /// The facts in the order of their keys.
    pub open spec fn rows(self) -> Seq<(Seq<char>, Fact)> {
        match self {
            StoredFacts::Loaded(table) => table.rows(),
            _ => Seq::empty(),
        }
    }
}

/// The facts of one run.
pub struct FactsStore {
    run_dir: String,
}

impl FactsStore {
    /// The directory of the run.
    pub closed spec fn directory(&self) -> Seq<char> {
        self.run_dir@
    }

    /// Where the facts are stored.
    pub open spec fn facts_file(&self) -> Seq<char> {
        text::joined_path(text::joined_path(self.directory(), "shared"@), "facts.json"@)
    }

    /// The facts of the run in `run_dir`.
    pub fn new(run_dir: &str) -> (store: FactsStore)
        ensures
            store.directory() == run_dir@,
    {
        FactsStore { run_dir: run_dir.to_owned() }
    }

    /// The directory that holds the facts.
    pub fn shared_dir(&self) -> (path: String)
        ensures
            path@ == text::joined_path(self.directory(), "shared"@),
    {
        join_path(self.run_dir.as_str(), "shared")
    }

    /// The file that holds the facts.
    pub fn facts_path(&self) -> (path: String)
        ensures
            path@ == self.facts_file(),
    {
        join_path(self.shared_dir().as_str(), "facts.json")
    }

    /// The file that new facts are written to before they take the place of the old ones.
    pub fn temporary_path(&self) -> (path: String)
        ensures
            path@ == text::joined_path(
                text::joined_path(self.directory(), "shared"@),
                "facts.tmp"@,
            ),
    {
        join_path(self.shared_dir().as_str(), "facts.tmp")
    }

    /// All facts.
    pub fn read_all(&self, stored: StoredFacts) -> (facts: Result<FactTable, FactsError>)
        ensures
            match facts {
                Ok(table) => {
                    &&& !(stored is Unreadable)
                    &&& table@ == stored.table()
                    &&& table.rows() == stored.rows()
                    &&& sorted(table.rows())
                },
                Err(FactsError::Unreadable(why)) => stored matches StoredFacts::Unreadable(text)
                    && why@ == text@,
            },
    {
        match stored {
            StoredFacts::Missing => Ok(FactTable::new()),
            StoredFacts::Loaded(table) => {
                proof {
                    use_type_invariant(&table);
                }
                Ok(table)
            },
            StoredFacts::Unreadable(why) => Err(FactsError::Unreadable(why)),
        }
    }

    /// The facts to store once a fact is written at the time given.
    pub fn write_fact_at(
        &self,
        stored: StoredFacts,
        key: &str,
        value: String,
        artifact_path: Option<String>,
        updated_at: String,
    ) -> (facts: Result<FactTable, FactsError>)
        ensures
            match facts {
                Ok(table) => {
                    &&& !(stored is Unreadable)
                    &&& table@ == stored.table().insert(
                        key@,
                        (Fact {
                            value: truncated(value@),
                            artifact_path: task::optional_text(artifact_path),
                            updated_at: updated_at@,
                        }),
                    )
                    &&& sorted(table.rows())
                },
                Err(FactsError::Unreadable(why)) => stored matches StoredFacts::Unreadable(text)
                    && why@ == text@,
            },
    {
        match self.read_all(stored) {
            Ok(table) => {
                let mut facts = table;
                facts.insert(
                    key.to_owned(),
                    FactEntry { value: truncate_value(value), artifact_path, updated_at },
                );
                Ok(facts)
            },
            Err(error) => Err(error),
        }
    }

    /// The facts to store once a fact is written now.
    pub fn write_fact(
        &self,
        stored: StoredFacts,
        key: &str,
        value: String,
        artifact_path: Option<String>,
    ) -> (facts: Result<FactTable, FactsError>)
        ensures
            match facts {
                Ok(table) => {
                    &&& !(stored is Unreadable)
                    &&& exists|now: Seq<char>|
                        clock::is_timestamp(now) && table@ == #[trigger] stored.table().insert(
                            key@,
                            (Fact {
                                value: truncated(value@),
                                artifact_path: task::optional_text(artifact_path),
                                updated_at: now,
                            }),
                        )
                    &&& sorted(table.rows())
                },
                Err(FactsError::Unreadable(why)) => stored matches StoredFacts::Unreadable(text)
                    && why@ == text@,
            },
    {
        let now = local_now();
        self.write_fact_at(stored, key, value, artifact_path, now)
    }

    /// What a worker is shown of the facts; nothing where there are none. `canonical` is the
    /// absolute path of the facts file, where it is known.
    pub fn build_preamble(&self, stored: StoredFacts, canonical: Option<String>) -> (shown: Result<
        Option<String>,
        FactsError,
    >)
        ensures
            match shown {
                Ok(None) => !(stored is Unreadable) && stored.rows().len() == 0,
                Ok(Some(text)) => {
                    &&& !(stored is Unreadable)
                    &&& stored.rows().len() > 0
                    &&& sorted(stored.rows())
                    &&& text@ == preamble(
                        stored.rows(),
                        match canonical {
                            Some(path) => path@,
                            None => self.facts_file(),
                        },
                    )
                },
                Err(FactsError::Unreadable(why)) => stored matches StoredFacts::Unreadable(text)
                    && why@ == text@,
            },
    {
        let facts = match self.read_all(stored) {
            Ok(table) => table,
            Err(error) => return Err(error),
        };
        if facts.len() == 0 {
            return Ok(None);
        }
        let path = match canonical {
            Some(path) => path,
            None => self.facts_path(),
        };
        let mut lines: Vec<String> = Vec::new();
        lines.push("=== Shared Context ===".to_owned());
        let ghost head = names::texts(lines@);
        let mut block = facts.show_facts();
        let ghost middle = names::texts(block@);
        lines.append(&mut block);
        let whole = concat3("[Full facts at: ", path.as_str(), "]");
        lines.push(whole);
        lines.push("======================".to_owned());
        proof {
            assert(head =~= seq!["=== Shared Context ==="@]);
            assert(names::texts(lines@) =~= head + middle + seq![
                whole@,
                "======================"@,
            ]);
        }
        Ok(Some(join_lines(&lines)))
    }

    /// The prompt to hand to a worker: its own, with the facts before it where there are any
    /// that can be read.
    pub fn shared_prompt(
        &self,
        stored: StoredFacts,
        canonical: Option<String>,
        prompt: String,
    ) -> (whole: String)
        ensures
            whole@ == if stored.rows().len() == 0 {
                prompt@
            } else {
                preamble(
                    stored.rows(),
                    match canonical {
                        Some(path) => path@,
                        None => self.facts_file(),
                    },
                ) + "\n\n"@ + prompt@
            },
    {
        match self.build_preamble(stored, canonical) {
            Ok(Some(shown)) => concat3(shown.as_str(), "\n\n", prompt.as_str()),
            _ => prompt,
        }
    }

    /// The task to hand to a worker: the facts stand before its prompt, where there are any that
    /// can be read, and all else is as it was.
    pub fn shared_task(
        &self,
        stored: StoredFacts,
        canonical: Option<String>,
        task: TaskDef,
    ) -> (handed: TaskDef)
        ensures
            handed.prompt@ == if stored.rows().len() == 0 {
                task.prompt@
            } else {
                preamble(
                    stored.rows(),
                    match canonical {
                        Some(path) => path@,
                        None => self.facts_file(),
                    },
                ) + "\n\n"@ + task.prompt@
            },
            handed == (TaskDef { prompt: handed.prompt, ..task }),
    {
        let mut handed = task;
        let mut prompt = String::new();
        std::mem::swap(&mut prompt, &mut handed.prompt);
        handed.prompt = self.shared_prompt(stored, canonical, prompt);
        handed
    }
}

} // verus!
