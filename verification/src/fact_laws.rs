//! What holds of shared facts and of the preamble that shows them.

use crate::facts;
use crate::facts::{
    Fact, FactEntry, FactTable, FactsStore, StoredFacts, MAX_PREAMBLE_BYTES, MAX_VALUE_BYTES,
};
use crate::task;
use crate::text;
use crate::text_laws;
use vstd::prelude::*;
use vstd::utf8::*;

verus! {

/// A fact that was written is read back under its key, and every other key reads as before.
pub proof fn law_a_written_fact_is_read_back(
    stored: StoredFacts,
    key: Seq<char>,
    fact: Fact,
    written: FactTable,
    other: Seq<char>,
)
    requires
        written@ == stored.table().insert(key, fact),
    ensures
        StoredFacts::Loaded(written).table().contains_key(key),
        StoredFacts::Loaded(written).table()[key] == fact,
        other != key ==> StoredFacts::Loaded(written).table().contains_key(other)
            == stored.table().contains_key(other),
        other != key && stored.table().contains_key(other) ==> StoredFacts::Loaded(
            written,
        ).table()[other] == stored.table()[other],
{
}

/// Of facts written under one key the last alone is kept.
pub proof fn law_a_later_fact_takes_the_place_of_an_earlier_one(
    stored: StoredFacts,
    key: Seq<char>,
    earlier: Fact,
    later: Fact,
    first: FactTable,
    second: FactTable,
)
    requires
        first@ == stored.table().insert(key, earlier),
        second@ == StoredFacts::Loaded(first).table().insert(key, later),
    ensures
        second@ == stored.table().insert(key, later),
        second@.dom() == first@.dom(),
{
    assert(second@ =~= stored.table().insert(key, later));
    assert(second@.dom() =~= first@.dom());
}

/// Facts written under different keys can be written in either order.
pub proof fn law_facts_of_different_keys_do_not_disturb_each_other(
    stored: StoredFacts,
    one: Seq<char>,
    other: Seq<char>,
    fact: Fact,
    another: Fact,
)
    requires
        one != other,
    ensures
        stored.table().insert(one, fact).insert(other, another) == stored.table().insert(
            other,
            another,
        ).insert(one, fact),
{
    assert(stored.table().insert(one, fact).insert(other, another) =~= stored.table().insert(
        other,
        another,
    ).insert(one, fact));
}

/// A value of at most so many bytes is stored as it is.
pub proof fn law_short_values_are_kept(value: Seq<char>)
    requires
        text::byte_len(value) <= MAX_VALUE_BYTES,
    ensures
        facts::truncated(value) == value,
{
}

/// A longer value is stored as its longest beginning of whole characters that fits, with a mark
/// behind it; no stored value has more bytes than the limit and the mark together.
pub proof fn law_long_values_are_cut(value: Seq<char>)
    ensures
        text::byte_len(facts::truncated(value)) <= MAX_VALUE_BYTES + 11,
        text::byte_len(value) > MAX_VALUE_BYTES ==> exists|n: int|
            {
                &&& 0 <= n < value.len()
                &&& facts::truncated(value) == #[trigger] value.take(n) + "[truncated]"@
                &&& text::byte_len(value.take(n)) <= MAX_VALUE_BYTES
                &&& text::byte_len(value.take(n + 1)) > MAX_VALUE_BYTES
            },
{
    if text::byte_len(value) > MAX_VALUE_BYTES {
        let n = facts::fitting(value, MAX_VALUE_BYTES as int) as int;
        facts::lemma_fitting_is_longest(value, MAX_VALUE_BYTES as int);
        if n == value.len() {
            assert(value.take(n) =~= value);
        }
        text::lemma_encode_concat(value.take(n), "[truncated]"@);
        lemma_mark_size();
        assert(facts::truncated(value) == value.take(n) + "[truncated]"@);
    }
}

/// The mark behind a cut value has eleven bytes.
proof fn lemma_mark_size()
    ensures
        text::byte_len("[truncated]"@) == 11,
{
    reveal_strlit("[truncated]");
    let mark = "[truncated]"@;
    vstd::utf8::is_ascii_chars_encode_utf8(mark);
}

/// The facts stand in the order of their keys: what is stored decides the rows.
pub proof fn law_rows_are_decided_by_the_facts(
    one: Seq<(Seq<char>, Fact)>,
    other: Seq<(Seq<char>, Fact)>,
)
    requires
        facts::sorted(one),
        facts::sorted(other),
        facts::table_of(one) == facts::table_of(other),
    ensures
        one == other,
{
    facts::lemma_one_row_per_key(one);
    facts::lemma_one_row_per_key(other);
    assert forall|i: int| 0 <= i < one.len() implies one[i] == other[i] by {
        lemma_same_row(one, other, i);
    }
    assert(one =~= other);
}

/// Rows of the same facts agree at a place.
proof fn lemma_same_row(
    one: Seq<(Seq<char>, Fact)>,
    other: Seq<(Seq<char>, Fact)>,
    i: int,
)
    requires
        facts::sorted(one),
        facts::sorted(other),
        facts::table_of(one) == facts::table_of(other),
        one.len() == other.len(),
        0 <= i < one.len(),
    ensures
        one[i] == other[i],
    decreases i,
{
    facts::lemma_row_of_key(one, i);
    facts::lemma_row_of_key(other, i);
    let a = one[i].0;
    let b = other[i].0;
    assert(facts::has_key(other, a));
    assert(facts::has_key(one, b));
    let at = choose|k: int| 0 <= k < other.len() && #[trigger] other[k].0 == a;
    let back = choose|k: int| 0 <= k < one.len() && #[trigger] one[k].0 == b;
    if a != b {
        text::lemma_precedes_irreflexive(a);
        text::lemma_precedes_irreflexive(b);
        if at < i {
            lemma_same_row(one, other, at);
            assert(text::precedes(one[at].0, one[i].0));
        } else if back < i {
            lemma_same_row(one, other, back);
            assert(text::precedes(other[back].0, other[i].0));
        } else {
            assert(text::precedes(other[i].0, other[at].0));
            assert(text::precedes(one[i].0, one[back].0));
            text::lemma_precedes_transitive(a, b, a);
        }
    }
}

/// The lines of facts.
pub open spec fn fact_lines(rows: Seq<(Seq<char>, Fact)>) -> Seq<Seq<char>> {
    rows.map_values(|row: (Seq<char>, Fact)| facts::fact_line(row.0, row.1))
}

/// The bytes of lines, line ends included.
pub open spec fn bytes_of_lines(lines: Seq<Seq<char>>) -> nat
    decreases lines.len(),
{
    if lines.len() == 0 {
        0
    } else {
        text::byte_len(lines[0]) + 1 + bytes_of_lines(lines.drop_first())
    }
}

/// How many facts are shown.
pub open spec fn shown_count(rows: Seq<(Seq<char>, Fact)>, budget: int) -> nat
    decreases rows.len(),
{
    if rows.len() == 0 {
        0
    } else {
        let size = text::byte_len(facts::fact_line(rows[0].0, rows[0].1)) + 1;
        if size > budget {
            0
        } else {
            1 + shown_count(rows.drop_first(), budget - size)
        }
    }
}

/// The facts that a block shows, and what follows them.
proof fn lemma_block(rows: Seq<(Seq<char>, Fact)>, budget: int)
    requires
        0 <= budget,
    ensures
        ({
            let n = shown_count(rows, budget) as int;
            &&& n <= rows.len()
            &&& facts::fact_block(rows, budget) == fact_lines(rows.take(n)) + (if n < rows.len() {
                seq!["[additional facts truncated — see facts.json]"@]
            } else {
                Seq::empty()
            })
            &&& bytes_of_lines(fact_lines(rows.take(n))) <= budget
            &&& n < rows.len() ==> bytes_of_lines(fact_lines(rows.take(n + 1))) > budget
        }),
    decreases rows.len(),
{
    let n = shown_count(rows, budget) as int;
    let marker = "[additional facts truncated — see facts.json]"@;
    if rows.len() == 0 {
        assert(fact_lines(rows.take(0)) + Seq::<Seq<char>>::empty() =~= Seq::<Seq<char>>::empty());
    } else {
        let line = facts::fact_line(rows[0].0, rows[0].1);
        let size = text::byte_len(line) + 1;
        let rest = rows.drop_first();
        if size > budget {
            assert(fact_lines(rows.take(0)) + seq![marker] =~= seq![marker]);
            assert(fact_lines(rows.take(1)).drop_first() =~= Seq::empty());
            assert(fact_lines(rows.take(1))[0] == line);
            assert(bytes_of_lines(Seq::<Seq<char>>::empty()) == 0);
            assert(bytes_of_lines(fact_lines(rows.take(1))) == size);
        } else {
            let m = shown_count(rest, budget - size) as int;
            lemma_block(rest, budget - size);
            assert(fact_lines(rows.take(n)) =~= seq![line] + fact_lines(rest.take(m)));
            assert(fact_lines(rows.take(n)).drop_first() =~= fact_lines(rest.take(m)));
            if m < rest.len() {
                assert(fact_lines(rows.take(n + 1)).drop_first() =~= fact_lines(
                    rest.take(m + 1),
                ));
                assert(seq![line] + (fact_lines(rest.take(m)) + seq![marker]) =~= fact_lines(
                    rows.take(n),
                ) + seq![marker]);
            } else {
                assert(seq![line] + (fact_lines(rest.take(m)) + Seq::<Seq<char>>::empty())
                    =~= fact_lines(rows.take(n)) + Seq::<Seq<char>>::empty());
            }
        }
    }
}

/// A preamble shows the facts of the first keys, as many as fit into the limit, and says so
/// where some are left out.
pub proof fn law_a_preamble_shows_the_first_facts_that_fit(
    rows: Seq<(Seq<char>, Fact)>,
    path: Seq<char>,
)
    ensures
        exists|n: int|
            {
                &&& 0 <= n <= rows.len()
                &&& facts::preamble(rows, path) == text::joined_lines(
                    seq!["=== Shared Context ==="@] + fact_lines(#[trigger] rows.take(n)) + (if n
                        < rows.len() {
                        seq!["[additional facts truncated — see facts.json]"@]
                    } else {
                        Seq::empty()
                    }) + seq!["[Full facts at: "@ + path + "]"@, "======================"@],
                )
                &&& bytes_of_lines(fact_lines(rows.take(n))) <= MAX_PREAMBLE_BYTES
                &&& n < rows.len() ==> bytes_of_lines(fact_lines(rows.take(n + 1)))
                    > MAX_PREAMBLE_BYTES
            },
{
    let budget = MAX_PREAMBLE_BYTES as int;
    lemma_block(rows, budget);
    let n = shown_count(rows, budget) as int;
    let head = seq!["=== Shared Context ==="@];
    let tail = seq!["[Full facts at: "@ + path + "]"@, "======================"@];
    let marker = if n < rows.len() {
        seq!["[additional facts truncated — see facts.json]"@]
    } else {
        Seq::empty()
    };
    assert(head + facts::fact_block(rows, budget) + tail =~= head + fact_lines(rows.take(n))
        + marker + tail);
    assert(0 <= n <= rows.len());
}

/// Two rows show the same: they differ at most in when their facts were written.
pub open spec fn shows_same(one: (Seq<char>, Fact), other: (Seq<char>, Fact)) -> bool {
    &&& one.0 == other.0
    &&& one.1.value == other.1.value
    &&& one.1.artifact_path == other.1.artifact_path
}

/// Rows that show the same have the same block of lines.
proof fn lemma_same_block(
    one: Seq<(Seq<char>, Fact)>,
    other: Seq<(Seq<char>, Fact)>,
    budget: int,
)
    requires
        one.len() == other.len(),
        forall|i: int| 0 <= i < one.len() ==> shows_same(#[trigger] one[i], other[i]),
    ensures
        facts::fact_block(one, budget) == facts::fact_block(other, budget),
    decreases one.len(),
{
    if one.len() > 0 {
        assert(shows_same(one[0], other[0]));
        let line = facts::fact_line(one[0].0, one[0].1);
        assert(line == facts::fact_line(other[0].0, other[0].1));
        assert forall|i: int| 0 <= i < one.drop_first().len() implies shows_same(
            #[trigger] one.drop_first()[i],
            other.drop_first()[i],
        ) by {
            assert(shows_same(one[i + 1], other[i + 1]));
        }
        lemma_same_block(
            one.drop_first(),
            other.drop_first(),
            budget - text::byte_len(line) - 1,
        );
    }
}

/// A preamble depends on keys, values, artifact paths and the place of the facts alone: not on
/// when facts were written, nor in which order.
pub proof fn law_a_preamble_does_not_depend_on_times_or_order(
    one: Seq<(Seq<char>, Fact)>,
    other: Seq<(Seq<char>, Fact)>,
    path: Seq<char>,
)
    requires
        facts::sorted(one),
        facts::sorted(other),
        facts::table_of(one).dom() == facts::table_of(other).dom(),
        forall|key: Seq<char>| #[trigger]
            facts::table_of(one).contains_key(key) ==> shows_same(
                (key, facts::table_of(one)[key]),
                (key, facts::table_of(other)[key]),
            ),
    ensures
        facts::preamble(one, path) == facts::preamble(other, path),
{
    let dateless = |row: (Seq<char>, Fact)|
        (row.0, Fact { updated_at: Seq::empty(), ..row.1 });
    let bare_one = one.map_values(dateless);
    let bare_other = other.map_values(dateless);
    lemma_dateless_table(one);
    lemma_dateless_table(other);
    assert forall|key: Seq<char>| #[trigger] facts::table_of(bare_one).contains_key(
        key,
    ) implies facts::table_of(bare_one)[key] == facts::table_of(bare_other)[key] by {
        assert(facts::table_of(one).contains_key(key));
        assert(facts::table_of(other).contains_key(key));
    }
    assert(facts::table_of(bare_one) =~= facts::table_of(bare_other));
    law_rows_are_decided_by_the_facts(bare_one, bare_other);
    assert forall|i: int| 0 <= i < one.len() implies shows_same(#[trigger] one[i], other[i]) by {
        assert(bare_one[i] == bare_other[i]);
    }
    lemma_same_block(one, other, MAX_PREAMBLE_BYTES as int);
}

/// What rows without times say.
proof fn lemma_dateless_table(rows: Seq<(Seq<char>, Fact)>)
    requires
        facts::sorted(rows),
    ensures
        ({
            let bare = rows.map_values(
                |row: (Seq<char>, Fact)| (row.0, Fact { updated_at: Seq::empty(), ..row.1 }),
            );
            &&& facts::sorted(bare)
            &&& facts::table_of(bare).dom() == facts::table_of(rows).dom()
            &&& forall|key: Seq<char>| #[trigger]
                facts::table_of(rows).contains_key(key) ==> facts::table_of(bare)[key] == (Fact {
                    updated_at: Seq::empty(),
                    ..facts::table_of(rows)[key]
                })
        }),
{
    let bare = rows.map_values(
        |row: (Seq<char>, Fact)| (row.0, Fact { updated_at: Seq::empty(), ..row.1 }),
    );
    assert forall|i: int, j: int| 0 <= i < j < bare.len() implies text::precedes(
        #[trigger] bare[i].0,
        #[trigger] bare[j].0,
    ) by {
        assert(text::precedes(rows[i].0, rows[j].0));
    }
    assert forall|key: Seq<char>| #[trigger]
        facts::has_key(bare, key) == facts::has_key(rows, key) by {
        if facts::has_key(bare, key) {
            let i = choose|i: int| 0 <= i < bare.len() && #[trigger] bare[i].0 == key;
            assert(rows[i].0 == key);
        }
        if facts::has_key(rows, key) {
            let i = choose|i: int| 0 <= i < rows.len() && #[trigger] rows[i].0 == key;
            assert(bare[i].0 == key);
        }
    }
    assert(facts::table_of(bare).dom() =~= facts::table_of(rows).dom());
    assert forall|key: Seq<char>| #[trigger] facts::table_of(rows).contains_key(
        key,
    ) implies facts::table_of(bare)[key] == (Fact {
        updated_at: Seq::empty(),
        ..facts::table_of(rows)[key]
    }) by {
        assert(facts::has_key(rows, key));
        let i = choose|i: int| 0 <= i < rows.len() && #[trigger] rows[i].0 == key;
        facts::lemma_row_of_key(rows, i);
        facts::lemma_row_of_key(bare, i);
    }
}

/// A preamble begins with its heading.
pub proof fn law_a_preamble_begins_with_its_heading(
    rows: Seq<(Seq<char>, Fact)>,
    path: Seq<char>,
)
    ensures
        ("=== Shared Context ===\n"@).is_prefix_of(facts::preamble(rows, path)),
{
    reveal_strlit("=== Shared Context ===\n");
    reveal_strlit("=== Shared Context ===");
    reveal_strlit("\n");
    let lines = seq!["=== Shared Context ==="@] + facts::fact_block(
        rows,
        MAX_PREAMBLE_BYTES as int,
    ) + seq!["[Full facts at: "@ + path + "]"@, "======================"@];
    lemma_joined_begins(lines);
    assert(lines[0] == "=== Shared Context ==="@);
    assert("=== Shared Context ===\n"@ =~= "=== Shared Context ==="@ + "\n"@);
}

/// Joined lines begin with the first of them.
proof fn lemma_joined_begins(lines: Seq<Seq<char>>)
    requires
        lines.len() >= 2,
    ensures
        (lines[0] + "\n"@).is_prefix_of(text::joined_lines(lines)),
    decreases lines.len(),
{
    let front = lines.drop_last();
    let whole = text::joined_lines(lines);
    let start = lines[0] + "\n"@;
    if lines.len() == 2 {
        assert(text::joined_lines(front) == lines[0]);
        assert(start =~= whole.subrange(0, start.len() as int));
    } else {
        lemma_joined_begins(front);
        assert(front[0] == lines[0]);
        assert(start =~= whole.subrange(0, start.len() as int));
    }
}

/// A preamble ends with the place of the facts and its closing line.
pub proof fn law_a_preamble_ends_with_the_place_of_the_facts(
    rows: Seq<(Seq<char>, Fact)>,
    path: Seq<char>,
)
    ensures
        ("\n"@ + "[Full facts at: "@ + path + "]"@ + "\n"@
            + "======================"@).is_suffix_of(facts::preamble(rows, path)),
{
    let before = seq!["=== Shared Context ==="@] + facts::fact_block(
        rows,
        MAX_PREAMBLE_BYTES as int,
    );
    let place = "[Full facts at: "@ + path + "]"@;
    let close = "======================"@;
    let lines = before + seq![place, close];
    assert(lines.drop_last() =~= before.push(place));
    assert(before.push(place).drop_last() =~= before);
    assert(lines.last() == close);
    assert(before.push(place).last() == place);
    assert(before.len() > 0);
    assert(text::joined_lines(before.push(place)) == text::joined_lines(before) + "\n"@ + place);
    let whole = facts::preamble(rows, path);
    assert(whole == text::joined_lines(lines));
    let end = "\n"@ + "[Full facts at: "@ + path + "]"@ + "\n"@ + close;
    assert(whole =~= text::joined_lines(before) + end);
    assert(end =~= whole.subrange(whole.len() - end.len(), whole.len() as int));
}

/// The line of a fact is its key, a colon and the whole value, and behind these the artifact
/// path just if there is one.
pub proof fn law_a_line_shows_the_whole_value(key: Seq<char>, fact: Fact)
    ensures
        (key + ": "@ + fact.value).is_prefix_of(facts::fact_line(key, fact)),
        fact.artifact_path is None ==> facts::fact_line(key, fact) == key + ": "@ + fact.value,
        fact.artifact_path matches Some(path) ==> facts::fact_line(key, fact) == key + ": "@
            + fact.value + " [artifact: "@ + path + "]"@,
{
    let start = key + ": "@ + fact.value;
    let line = facts::fact_line(key, fact);
    assert(start =~= line.subrange(0, start.len() as int));
}

/// Facts that differ in their values have different lines, if all else is the same.
pub proof fn law_different_values_look_different(key: Seq<char>, one: Fact, other: Fact)
    requires
        one.artifact_path == other.artifact_path,
        facts::fact_line(key, one) == facts::fact_line(key, other),
    ensures
        one.value == other.value,
{
    law_a_line_shows_the_whole_value(key, one);
    law_a_line_shows_the_whole_value(key, other);
    let line = facts::fact_line(key, one);
    let head = (key + ": "@).len() as int;
    assert(one.value.len() == other.value.len());
    let end = head + one.value.len();
    assert(one.value =~= line.subrange(head, end));
    assert(other.value =~= line.subrange(head, end));
}

/// The bytes of lines add up line by line, each with its line end.
pub proof fn law_bytes_of_lines_add_up(lines: Seq<Seq<char>>, next: Seq<char>)
    ensures
        bytes_of_lines(Seq::empty()) == 0,
        bytes_of_lines(lines.push(next)) == bytes_of_lines(lines) + encode_utf8(next).len() + 1,
    decreases lines.len(),
{
    reveal_with_fuel(bytes_of_lines, 2);
    let more = lines.push(next);
    if lines.len() == 0 {
        assert(more.drop_first() =~= Seq::empty());
    } else {
        law_bytes_of_lines_add_up(lines.drop_first(), next);
        assert(more.drop_first() =~= lines.drop_first().push(next));
    }
}

/// A preamble has its heading, then the lines of the facts of the first keys, each with its key,
/// its whole value and its artifact path, then a line that says so where facts are left out,
/// then the place of the facts and the closing line. The facts shown take up at most 4096 bytes
/// with their line ends, and the next one would not fit.
pub proof fn law_a_preamble_shows_first_facts_whole(
    rows: Seq<(Seq<char>, Fact)>,
    path: Seq<char>,
) -> (shown: (nat, Seq<Seq<char>>))
    ensures
        shown.0 <= rows.len(),
        shown.1.len() == shown.0,
        forall|i: int|
            0 <= i < shown.0 ==> #[trigger] shown.1[i] == rows[i].0 + ": "@ + rows[i].1.value + (
            match rows[i].1.artifact_path {
                Some(artifact) => " [artifact: "@ + artifact + "]"@,
                None => Seq::empty(),
            }),
        shown.0 == rows.len() ==> facts::preamble(rows, path) == text::joined_lines(
            seq!["=== Shared Context ==="@] + shown.1 + seq![
                "[Full facts at: "@ + path + "]"@,
                "======================"@,
            ],
        ),
        shown.0 < rows.len() ==> facts::preamble(rows, path) == text::joined_lines(
            seq!["=== Shared Context ==="@] + shown.1 + seq![
                "[additional facts truncated — see facts.json]"@,
                "[Full facts at: "@ + path + "]"@,
                "======================"@,
            ],
        ),
        bytes_of_lines(shown.1) <= 4096,
        shown.0 < rows.len() ==> bytes_of_lines(shown.1) + encode_utf8(
            rows[shown.0 as int].0 + ": "@ + rows[shown.0 as int].1.value + (
            match rows[shown.0 as int].1.artifact_path {
                Some(artifact) => " [artifact: "@ + artifact + "]"@,
                None => Seq::empty(),
            }),
        ).len() + 1 > 4096,
{
    let budget = MAX_PREAMBLE_BYTES as int;
    lemma_block(rows, budget);
    let n = shown_count(rows, budget);
    let lines = fact_lines(rows.take(n as int));
    let head = seq!["=== Shared Context ==="@];
    let tail = seq!["[Full facts at: "@ + path + "]"@, "======================"@];
    let marker = "[additional facts truncated — see facts.json]"@;
    assert forall|i: int| 0 <= i < n implies #[trigger] lines[i] == rows[i].0 + ": "@
        + rows[i].1.value + (match rows[i].1.artifact_path {
        Some(artifact) => " [artifact: "@ + artifact + "]"@,
        None => Seq::empty(),
    }) by {
        lemma_line_in_parts(rows[i].0, rows[i].1);
    }
    if n < rows.len() {
        assert(head + facts::fact_block(rows, budget) + tail =~= head + lines + seq![
            marker,
            "[Full facts at: "@ + path + "]"@,
            "======================"@,
        ]);
        let next = facts::fact_line(rows[n as int].0, rows[n as int].1);
        lemma_line_in_parts(rows[n as int].0, rows[n as int].1);
        assert(fact_lines(rows.take(n as int + 1)) =~= lines.push(next));
        law_bytes_of_lines_add_up(lines, next);
    } else {
        assert(head + facts::fact_block(rows, budget) + tail =~= head + lines + tail);
    }
    (n, lines)
}

/// The line of a fact, in its parts.
proof fn lemma_line_in_parts(key: Seq<char>, fact: Fact)
    ensures
        facts::fact_line(key, fact) == key + ": "@ + fact.value + (match fact.artifact_path {
            Some(artifact) => " [artifact: "@ + artifact + "]"@,
            None => Seq::empty(),
        }),
{
    law_a_line_shows_the_whole_value(key, fact);
    let end = match fact.artifact_path {
        Some(artifact) => " [artifact: "@ + artifact + "]"@,
        None => Seq::empty(),
    };
    assert(facts::fact_line(key, fact) =~= key + ": "@ + fact.value + end);
}

/// A value of at most 1024 bytes is stored as it is; of a longer one the longest beginning of
/// whole characters with at most 1024 bytes is stored, with `[truncated]` behind it.
pub proof fn law_stored_values_hold_all_that_fits(value: Seq<char>)
    ensures
        encode_utf8(value).len() <= 1024 ==> facts::truncated(value) == value,
        encode_utf8(value).len() > 1024 ==> exists|n: int|
            {
                &&& 0 <= n < value.len()
                &&& facts::truncated(value) == #[trigger] value.take(n) + "[truncated]"@
                &&& encode_utf8(value.take(n)).len() <= 1024
                &&& encode_utf8(value.take(n + 1)).len() > 1024
            },
{
    law_long_values_are_cut(value);
}

/// What counts of a stored fact is what its fields say.
pub proof fn law_a_stored_fact_counts_as_it_says(entry: FactEntry)
    ensures
        entry@.value == entry.value@,
        match entry.artifact_path {
            Some(path) => entry@.artifact_path == Some(path@),
            None => entry@.artifact_path is None,
        },
        entry@.updated_at == entry.updated_at@,
{
}

/// An optional text is the text where there is one, and none where there is none.
pub proof fn law_an_optional_text_is_kept(text: Option<String>)
    ensures
        match text {
            Some(t) => task::optional_text(text) == Some(t@),
            None => task::optional_text(text) is None,
        },
{
}

/// A table holds just the keys of its rows, each with the fact of its row.
pub proof fn law_a_table_holds_its_rows(rows: Seq<(Seq<char>, Fact)>, key: Seq<char>)
    requires
        facts::sorted(rows),
    ensures
        facts::table_of(rows).contains_key(key) <==> exists|i: int|
            0 <= i < rows.len() && (#[trigger] rows[i]).0 == key,
        forall|i: int|
            0 <= i < rows.len() && (#[trigger] rows[i]).0 == key ==> facts::table_of(rows)[key]
                == rows[i].1,
{
    if facts::table_of(rows).contains_key(key) {
        assert(facts::has_key(rows, key));
    }
    assert forall|i: int| 0 <= i < rows.len() && (#[trigger] rows[i]).0 == key implies
        facts::table_of(rows).contains_key(key) && facts::table_of(rows)[key] == rows[i].1 by {
        facts::lemma_row_of_key(rows, i);
    }
}

/// Rows stand in the order of the bytes of their keys.
pub proof fn law_rows_stand_in_byte_order(rows: Seq<(Seq<char>, Fact)>, i: int, j: int)
    requires
        facts::sorted(rows),
        0 <= i < j < rows.len(),
    ensures
        exists|at: int|
            {
                &&& 0 <= at <= encode_utf8(rows[i].0).len()
                &&& at < encode_utf8(rows[j].0).len()
                &&& #[trigger] encode_utf8(rows[i].0).take(at) == encode_utf8(rows[j].0).take(at)
                &&& at < encode_utf8(rows[i].0).len() ==> encode_utf8(rows[i].0)[at]
                    < encode_utf8(rows[j].0)[at]
            },
{
    assert(text::precedes(rows[i].0, rows[j].0));
    text_laws::law_texts_are_ordered_by_bytes(rows[i].0, rows[j].0);
}

/// What was found is the table that was loaded, and nothing where there was none.
pub proof fn law_found_facts_are_those_loaded(table: FactTable, why: String)
    ensures
        StoredFacts::Loaded(table).table() == table@,
        StoredFacts::Loaded(table).rows() == table.rows(),
        table@ == facts::table_of(table.rows()),
        StoredFacts::Missing.table() == Map::<Seq<char>, Fact>::empty(),
        StoredFacts::Missing.rows().len() == 0,
        StoredFacts::Unreadable(why).table() == Map::<Seq<char>, Fact>::empty(),
        StoredFacts::Unreadable(why).rows().len() == 0,
{
}

/// The facts are stored in `shared/facts.json` in the directory of the run.
pub proof fn law_facts_are_stored_in_the_run_directory(store: FactsStore)
    ensures
        store.facts_file() == if store.directory().len() == 0 || store.directory()[
            store.directory().len() - 1
        ] == '/' {
            store.directory() + "shared/facts.json"@
        } else {
            store.directory() + "/shared/facts.json"@
        },
{
    reveal_strlit("shared");
    reveal_strlit("facts.json");
    reveal_strlit("shared/facts.json");
    reveal_strlit("/shared/facts.json");
    let dir = store.directory();
    if dir.len() == 0 || dir[dir.len() - 1] == '/' {
        assert(text::joined_path(dir, "shared"@) =~= dir + "shared"@);
        assert(text::joined_path(dir, "shared"@).last() == 'd');
        assert(store.facts_file() =~= dir + "shared/facts.json"@);
    } else {
        assert(text::joined_path(dir, "shared"@) =~= dir + seq!['/'] + "shared"@);
        assert(text::joined_path(dir, "shared"@).last() == 'd');
        assert(store.facts_file() =~= dir + "/shared/facts.json"@);
    }
}

} // verus!
