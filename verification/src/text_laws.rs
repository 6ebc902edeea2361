//! What holds of texts, paths, lines and numbers.

use crate::config;
use crate::text;
use vstd::prelude::*;
use vstd::utf8::*;

verus! {

/// The size of a text is that of its UTF-8 encoding, and the sizes of parts add up.
pub proof fn law_sizes_count_encoded_bytes(one: Seq<char>, other: Seq<char>)
    ensures
        text::byte_len(one) == encode_utf8(one).len(),
        text::byte_len(one + other) == encode_utf8(one).len() + encode_utf8(other).len(),
{
    text::lemma_encode_concat(one, other);
}

/// Texts are ordered by their bytes: one comes before another just if it is a beginning of it,
/// or has the smaller byte at the first place where they differ.
pub proof fn law_texts_are_ordered_by_bytes(one: Seq<char>, other: Seq<char>)
    ensures
        text::precedes(one, other) <==> exists|at: int|
            {
                &&& 0 <= at <= encode_utf8(one).len()
                &&& at < encode_utf8(other).len()
                &&& #[trigger] encode_utf8(one).take(at) == encode_utf8(other).take(at)
                &&& at < encode_utf8(one).len() ==> encode_utf8(one)[at] < encode_utf8(other)[at]
            },
{
    let x = encode_utf8(one);
    let y = encode_utf8(other);
    if text::precedes(one, other) {
        let at = choose|at: int| #[trigger] text::differs_below(x, y, at);
        assert(x.take(at) =~= y.take(at));
    }
    if exists|at: int|
        {
            &&& 0 <= at <= x.len()
            &&& at < y.len()
            &&& #[trigger] x.take(at) == y.take(at)
            &&& at < x.len() ==> x[at] < y[at]
        } {
        let at = choose|at: int|
            {
                &&& 0 <= at <= x.len()
                &&& at < y.len()
                &&& #[trigger] x.take(at) == y.take(at)
                &&& at < x.len() ==> x[at] < y[at]
            };
        assert forall|i: int| 0 <= i < at implies x[i] == y[i] by {
            assert(x.take(at)[i] == y.take(at)[i]);
        }
        assert(text::differs_below(x, y, at));
    }
}

/// A text comes before every text that continues it.
pub proof fn law_a_text_comes_before_its_continuations(one: Seq<char>, more: Seq<char>)
    requires
        more.len() > 0,
    ensures
        text::precedes(one, one + more),
        !text::precedes(one + more, one),
{
    text::lemma_encode_concat(one, more);
    let x = encode_utf8(one);
    let y = encode_utf8(one + more);
    encode_utf8_first_scalar(more);
    assert(encode_utf8(more).len() > 0);
    assert(text::differs_below(x, y, x.len() as int));
    if text::precedes(one + more, one) {
        text::lemma_precedes_transitive(one, one + more, one);
        text::lemma_precedes_irreflexive(one);
    }
}

/// A part that is not absolute is put behind the base, with one separator in between where the
/// base does not end with one; an absolute part stands for itself.
pub proof fn law_paths_are_joined_by_one_separator(base: Seq<char>, part: Seq<char>)
    ensures
        ({
            let path = text::joined_path(base, part);
            if part.len() > 0 && part[0] == '/' {
                path == part
            } else if base.len() > 0 && base[base.len() - 1] != '/' {
                &&& path.len() == base.len() + 1 + part.len()
                &&& path.take(base.len() as int) == base
                &&& path[base.len() as int] == '/'
                &&& path.skip(base.len() as int + 1) == part
            } else {
                &&& path.len() == base.len() + part.len()
                &&& path.take(base.len() as int) == base
                &&& path.skip(base.len() as int) == part
            }
        }),
{
    let path = text::joined_path(base, part);
    if part.len() > 0 && part[0] == '/' {
    } else if base.len() > 0 && base[base.len() - 1] != '/' {
        assert(path.take(base.len() as int) =~= base);
        assert(path.skip(base.len() as int + 1) =~= part);
    } else {
        assert(path.take(base.len() as int) =~= base);
        assert(path.skip(base.len() as int) =~= part);
    }
}

/// No lines give no text, one line gives itself, and two groups of lines are joined by one line
/// end.
pub proof fn law_lines_are_joined_by_line_ends(first: Seq<Seq<char>>, second: Seq<Seq<char>>)
    ensures
        first.len() == 0 ==> text::joined_lines(first).len() == 0,
        first.len() == 1 ==> text::joined_lines(first) == first[0],
        first.len() > 0 && second.len() > 0 ==> text::joined_lines(first + second)
            == text::joined_lines(first).push('\n') + text::joined_lines(second),
    decreases second.len(),
{
    if first.len() > 0 && second.len() > 0 {
        reveal_strlit("\n");
        assert("\n"@ =~= seq!['\n']);
        let whole = first + second;
        let front = second.drop_last();
        assert(whole.drop_last() =~= first + front);
        assert(whole.last() == second.last());
        if second.len() == 1 {
            assert(first + front =~= first);
            assert(text::joined_lines(second) == second[0]);
            assert(text::joined_lines(whole) =~= text::joined_lines(first).push('\n')
                + text::joined_lines(second));
        } else {
            law_lines_are_joined_by_line_ends(first, front);
            assert(text::joined_lines(whole) =~= text::joined_lines(first).push('\n')
                + text::joined_lines(second));
        }
    }
}

/// No entries give no text, one entry gives itself, and two groups of entries are joined by a
/// comma and a space.
pub proof fn law_entries_are_joined_by_commas(first: Seq<Seq<char>>, second: Seq<Seq<char>>)
    ensures
        first.len() == 0 ==> config::listed(first).len() == 0,
        first.len() == 1 ==> config::listed(first) == first[0],
        first.len() > 0 && second.len() > 0 ==> config::listed(first + second) == config::listed(
            first,
        ).push(',').push(' ') + config::listed(second),
    decreases second.len(),
{
    if first.len() > 0 && second.len() > 0 {
        reveal_strlit(", ");
        assert(", "@ =~= seq![',', ' ']);
        let whole = first + second;
        let front = second.drop_last();
        assert(whole.drop_last() =~= first + front);
        assert(whole.last() == second.last());
        if second.len() == 1 {
            assert(first + front =~= first);
            assert(config::listed(second) == second[0]);
            assert(config::listed(whole) =~= config::listed(first).push(',').push(' ')
                + config::listed(second));
        } else {
            law_entries_are_joined_by_commas(first, front);
            assert(config::listed(whole) =~= config::listed(first).push(',').push(' ')
                + config::listed(second));
        }
    }
}

/// A number below ten is its digit, and any other is the number of its tens with its last digit
/// behind.
pub proof fn law_numbers_are_written_in_decimal(tens: nat, ones: nat)
    requires
        ones < 10,
    ensures
        text::decimal(ones).len() == 1,
        text::decimal(ones)[0] as int == '0' as int + ones,
        tens > 0 ==> text::decimal(10 * tens + ones) == text::decimal(tens)
            + text::decimal(ones),
{
    let digits = seq!['0', '1', '2', '3', '4', '5', '6', '7', '8', '9'];
    assert(digits[ones as int] as int == '0' as int + ones);
    if tens > 0 {
        let n = 10 * tens + ones;
        assert(n / 10 == tens && n % 10 == ones);
        assert(text::decimal(n) =~= text::decimal(tens) + text::decimal(ones));
    }
}

/// Different numbers are written differently.
pub proof fn law_different_numbers_look_different(one: nat, other: nat)
    requires
        text::decimal(one) == text::decimal(other),
    ensures
        one == other,
    decreases one,
{
    let a = text::decimal(one);
    let b = text::decimal(other);
    law_numbers_are_written_in_decimal(one / 10, one % 10);
    law_numbers_are_written_in_decimal(other / 10, other % 10);
    lemma_decimal_not_empty(one / 10);
    lemma_decimal_not_empty(other / 10);
    if one < 10 && other < 10 {
    } else if one < 10 {
        assert(a.len() == 1);
        assert(b.len() >= 2);
    } else if other < 10 {
        assert(b.len() == 1);
        assert(a.len() >= 2);
    } else {
        assert(a.last() == text::decimal(one % 10)[0]);
        assert(b.last() == text::decimal(other % 10)[0]);
        assert(a.drop_last() =~= text::decimal(one / 10));
        assert(b.drop_last() =~= text::decimal(other / 10));
        law_different_numbers_look_different(one / 10, other / 10);
    }
}

/// A number has a digit.
proof fn lemma_decimal_not_empty(n: nat)
    ensures
        text::decimal(n).len() >= 1,
{
}

} // verus!
