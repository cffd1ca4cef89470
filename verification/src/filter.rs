//! The pass over the lines: which of them survive.

use crate::line::is_blank;
use crate::predicate::{bypasses, initialize_predicate, Predicate};
use vstd::prelude::*;

verus! {

/// Whether a line equal to the one at `index` stands before it.
pub open spec fn seen_before(lines: Seq<Seq<char>>, index: int) -> bool {
    exists|j: int| 0 <= j < index && #[trigger] lines[j] == lines[index]
}

/// Whether the line at `index` survives. A line that bypasses the seen lines
/// always does. Of the others, keep-first lets through those with no equal
/// line before them, and keep-repeats (`invert`) those with one.
pub open spec fn survives(
    lines: Seq<Seq<char>>,
    index: int,
    invert: bool,
    allow_blanks: bool,
) -> bool {
    bypasses(allow_blanks, lines[index]) || seen_before(lines, index) == invert
}

/// The positions below `upto` whose lines survive, in ascending order.
pub open spec fn kept_positions(
    lines: Seq<Seq<char>>,
    invert: bool,
    allow_blanks: bool,
    upto: nat,
) -> Seq<int>
    decreases upto,
{
    if upto == 0 {
        Seq::empty()
    } else {
        let before = kept_positions(lines, invert, allow_blanks, (upto - 1) as nat);
        if survives(lines, upto - 1, invert, allow_blanks) {
            before.push(upto - 1)
        } else {
            before
        }
    }
}

/// The lines at the given positions.
pub open spec fn pick(lines: Seq<Seq<char>>, positions: Seq<int>) -> Seq<Seq<char>> {
    Seq::new(positions.len(), |k: int| lines[positions[k]])
}

/// The lines that survive, in the order of the input.
pub open spec fn surviving(lines: Seq<Seq<char>>, invert: bool, allow_blanks: bool) -> Seq<
    Seq<char>,
> {
    pick(lines, kept_positions(lines, invert, allow_blanks, lines.len()))
}

/// The lines that a predicate has recorded after the first `upto` lines.
spec fn noted(lines: Seq<Seq<char>>, allow_blanks: bool, upto: int) -> Set<Seq<char>> {
    Set::new(
        |line: Seq<char>|
            !bypasses(allow_blanks, line) && exists|j: int|
                0 <= j < upto && #[trigger] lines[j] == line,
    )
}

/// Runs a fresh predicate over the lines and returns those that it keeps, in
/// the order of the input.
pub fn filter_lines<'a>(lines: &'a Vec<String>, invert: bool, allow_blanks: bool) -> (kept: Vec<
    &'a str,
>)
    ensures
        kept.deep_view() == surviving(lines.deep_view(), invert, allow_blanks),
{
    let mut predicate = initialize_predicate(invert, allow_blanks);
    let mut kept: Vec<&'a str> = Vec::new();
    let ghost all = lines.deep_view();
    assert(predicate.seen() =~= noted(all, allow_blanks, 0));
    assert(kept.deep_view() =~= pick(all, kept_positions(all, invert, allow_blanks, 0)));
    for i in 0..lines.len()
        invariant
            all == lines.deep_view(),
            predicate.seen() == noted(all, allow_blanks, i as int),
            predicate.keeps_repeats() == invert,
            predicate.allows_blanks() == allow_blanks,
            kept.deep_view() == pick(all, kept_positions(all, invert, allow_blanks, i as nat)),
    {
        let line = lines[i].as_str();
        let ghost seen = predicate.seen();
        let ghost before = kept.deep_view();
        assert(line@ == all[i as int]);
        let keep = predicate.filter(line);
        proof {
            if !bypasses(allow_blanks, all[i as int]) {
                assert(seen.contains(all[i as int]) == seen_before(all, i as int));
            }
            assert(keep == survives(all, i as int, invert, allow_blanks));
            assert(predicate.seen() =~= noted(all, allow_blanks, i + 1));
        }
        if keep {
            kept.push(line);
            assert(kept.deep_view() =~= before.push(line@));
        }
        assert(kept.deep_view() =~= pick(
            all,
            kept_positions(all, invert, allow_blanks, (i + 1) as nat),
        ));
    }
    kept
}

/// The survivors keep the order of the input: they are the lines at the kept
/// positions, which ascend, lie below `upto`, and are exactly the positions
/// below `upto` whose lines survive.
pub proof fn lemma_kept_positions(
    lines: Seq<Seq<char>>,
    invert: bool,
    allow_blanks: bool,
    upto: nat,
)
    ensures
        forall|k: int|
            0 <= k < kept_positions(lines, invert, allow_blanks, upto).len() ==> {
                let at = #[trigger] kept_positions(lines, invert, allow_blanks, upto)[k];
                0 <= at < upto && survives(lines, at, invert, allow_blanks)
            },
        forall|a: int, b: int|
            0 <= a < b < kept_positions(lines, invert, allow_blanks, upto).len()
                ==> #[trigger] kept_positions(lines, invert, allow_blanks, upto)[a]
                < #[trigger] kept_positions(lines, invert, allow_blanks, upto)[b],
        forall|i: int|
            0 <= i < upto && survives(lines, i, invert, allow_blanks) ==> #[trigger] kept_positions(
                lines,
                invert,
                allow_blanks,
                upto,
            ).contains(i),
    decreases upto,
{
    if upto > 0 {
        let before = kept_positions(lines, invert, allow_blanks, (upto - 1) as nat);
        let now = kept_positions(lines, invert, allow_blanks, upto);
        lemma_kept_positions(lines, invert, allow_blanks, (upto - 1) as nat);
        assert forall|i: int|
            0 <= i < upto && survives(lines, i, invert, allow_blanks) implies now.contains(i) by {
            if i < upto - 1 {
                assert(before.contains(i));
                let k = choose|k: int| 0 <= k < before.len() && before[k] == i;
                assert(now[k] == i);
            } else {
                assert(now[now.len() - 1] == i);
            }
        }
    }
}

/// The position at which `line` first occurs in `lines`.
pub open spec fn first_position(lines: Seq<Seq<char>>, line: Seq<char>) -> int {
    choose|i: int| 0 <= i < lines.len() && #[trigger] lines[i] == line && !seen_before(lines, i)
}

/// Every line of the input has a first occurrence, at or before any position
/// at which it stands.
pub proof fn lemma_first_occurrence(lines: Seq<Seq<char>>, index: int)
    requires
        0 <= index < lines.len(),
    ensures
        0 <= first_position(lines, lines[index]) <= index,
        lines[first_position(lines, lines[index])] == lines[index],
        !seen_before(lines, first_position(lines, lines[index])),
    decreases index,
{
    let line = lines[index];
    if seen_before(lines, index) {
        let j = choose|j: int| 0 <= j < index && #[trigger] lines[j] == lines[index];
        lemma_first_occurrence(lines, j);
    } else {
        assert(lines[index] == line);
    }
    let first = first_position(lines, line);
    if first > index {
        assert(lines[index] == lines[first]);
    }
}

/// A line occurs first at one position only.
pub proof fn lemma_first_position_unique(lines: Seq<Seq<char>>, index: int)
    requires
        0 <= index < lines.len(),
        !seen_before(lines, index),
    ensures
        first_position(lines, lines[index]) == index,
{
    lemma_first_occurrence(lines, index);
    let first = first_position(lines, lines[index]);
    if first < index {
        assert(lines[first] == lines[index]);
    }
}

/// Keep-first, with blank lines treated as any others: the output holds each
/// distinct line of the input exactly once, in the order in which the lines
/// first appear.
pub proof fn lemma_unique_output(lines: Seq<Seq<char>>)
    ensures
        surviving(lines, false, false).no_duplicates(),
        forall|line: Seq<char>|
            lines.contains(line) <==> surviving(lines, false, false).contains(line),
        forall|a: int, b: int|
            0 <= a < b < surviving(lines, false, false).len() ==> first_position(
                lines,
                #[trigger] surviving(lines, false, false)[a],
            ) < first_position(lines, #[trigger] surviving(lines, false, false)[b]),
{
    let at = kept_positions(lines, false, false, lines.len());
    let out = surviving(lines, false, false);
    lemma_kept_positions(lines, false, false, lines.len());
    assert forall|a: int, b: int| 0 <= a < out.len() && 0 <= b < out.len() && a != b implies out[a]
        != out[b] by {
        if out[a] == out[b] {
            if a < b {
                assert(at[a] < at[b]);
                assert(lines[at[a]] == lines[at[b]]);
                assert(seen_before(lines, at[b]));
            } else {
                assert(at[b] < at[a]);
                assert(lines[at[b]] == lines[at[a]]);
                assert(seen_before(lines, at[a]));
            }
        }
    }
    assert forall|line: Seq<char>| lines.contains(line) <==> out.contains(line) by {
        if lines.contains(line) {
            let i = choose|i: int| 0 <= i < lines.len() && lines[i] == line;
            lemma_first_occurrence(lines, i);
            let first = first_position(lines, line);
            assert(survives(lines, first, false, false));
            assert(at.contains(first));
            let k = choose|k: int| 0 <= k < at.len() && at[k] == first;
            assert(out[k] == line);
        }
        if out.contains(line) {
            let k = choose|k: int| 0 <= k < out.len() && out[k] == line;
            assert(lines[at[k]] == line);
        }
    }
    assert forall|a: int, b: int| 0 <= a < b < out.len() implies first_position(
        lines,
        #[trigger] out[a],
    ) < first_position(lines, #[trigger] out[b]) by {
        assert(at[a] < at[b]);
        lemma_first_position_unique(lines, at[a]);
        lemma_first_position_unique(lines, at[b]);
    }
}

/// How many times `line` stands in `lines`.
pub open spec fn occurrences(lines: Seq<Seq<char>>, line: Seq<char>) -> nat {
    lines.to_multiset().count(line)
}

/// How many times a line stands in the output, given how many times it
/// stands in the input: as often, if it bypasses the seen lines; otherwise
/// once under keep-first and once less than in the input under keep-repeats,
/// and never if the input does not hold it.
pub open spec fn expected_occurrences(given: nat, bypassing: bool, invert: bool) -> nat {
    if bypassing {
        given
    } else if given == 0 {
        0
    } else if invert {
        (given - 1) as nat
    } else {
        1
    }
}

/// `lemma_survivor_count` for the first `upto` lines.
proof fn lemma_survivor_count_upto(
    lines: Seq<Seq<char>>,
    line: Seq<char>,
    invert: bool,
    allow_blanks: bool,
    upto: nat,
)
    requires
        upto <= lines.len(),
    ensures
        occurrences(pick(lines, kept_positions(lines, invert, allow_blanks, upto)), line)
            == expected_occurrences(
            occurrences(lines.take(upto as int), line),
            bypasses(allow_blanks, line),
            invert,
        ),
    decreases upto,
{
    broadcast use vstd::seq_lib::group_to_multiset_ensures;
    broadcast use vstd::multiset::group_multiset_axioms;

    if upto == 0 {
        assert(pick(lines, kept_positions(lines, invert, allow_blanks, 0)) =~= Seq::empty());
        assert(lines.take(0) =~= Seq::empty());
    } else {
        let last = upto - 1;
        let head = lines.take(last);
        let before = kept_positions(lines, invert, allow_blanks, last as nat);
        lemma_survivor_count_upto(lines, line, invert, allow_blanks, last as nat);
        assert(lines.take(upto as int) =~= head.push(lines[last]));
        assert(seen_before(lines, last) == head.contains(lines[last])) by {
            if seen_before(lines, last) {
                let j = choose|j: int| 0 <= j < last && #[trigger] lines[j] == lines[last];
                assert(head[j] == lines[last]);
            }
            if head.contains(lines[last]) {
                let j = choose|j: int| 0 <= j < head.len() && head[j] == lines[last];
                assert(lines[j] == lines[last]);
            }
        }
        if survives(lines, last, invert, allow_blanks) {
            assert(pick(lines, before.push(last)) =~= pick(lines, before).push(lines[last]));
        }
    }
}

/// How often each line stands in the output, under either policy and with
/// blank lines allowed or not: see `expected_occurrences`.
pub proof fn lemma_survivor_count(
    lines: Seq<Seq<char>>,
    line: Seq<char>,
    invert: bool,
    allow_blanks: bool,
)
    ensures
        occurrences(surviving(lines, invert, allow_blanks), line) == expected_occurrences(
            occurrences(lines, line),
            bypasses(allow_blanks, line),
            invert,
        ),
{
    lemma_survivor_count_upto(lines, line, invert, allow_blanks, lines.len());
    assert(lines.take(lines.len() as int) =~= lines);
}

/// Keep-repeats, with blank lines treated as any others: of a line that
/// stands `n` times in the input, the output holds `n - 1` occurrences, and
/// none of a line that the input does not hold.
pub proof fn lemma_repeats_output(lines: Seq<Seq<char>>, line: Seq<char>)
    ensures
        occurrences(surviving(lines, true, false), line) == if occurrences(lines, line) == 0 {
            0
        } else {
            occurrences(lines, line) - 1
        },
{
    lemma_survivor_count(lines, line, true, false);
}

/// Where every line below `upto` survives, every position below `upto` is
/// kept.
proof fn lemma_all_kept(lines: Seq<Seq<char>>, invert: bool, allow_blanks: bool, upto: nat)
    requires
        forall|i: int| 0 <= i < upto ==> survives(lines, i, invert, allow_blanks),
    ensures
        kept_positions(lines, invert, allow_blanks, upto) == Seq::new(upto, |i: int| i),
    decreases upto,
{
    if upto > 0 {
        lemma_all_kept(lines, invert, allow_blanks, (upto - 1) as nat);
    }
    assert(kept_positions(lines, invert, allow_blanks, upto) =~= Seq::new(upto, |i: int| i));
}

/// Keep-first is idempotent: its output passes through it unchanged, with
/// blank lines allowed or not.
pub proof fn lemma_unique_idempotent(lines: Seq<Seq<char>>, allow_blanks: bool)
    ensures
        surviving(surviving(lines, false, allow_blanks), false, allow_blanks) == surviving(
            lines,
            false,
            allow_blanks,
        ),
{
    let at = kept_positions(lines, false, allow_blanks, lines.len());
    let out = surviving(lines, false, allow_blanks);
    lemma_kept_positions(lines, false, allow_blanks, lines.len());
    assert forall|k: int| 0 <= k < out.len() implies survives(out, k, false, allow_blanks) by {
        if seen_before(out, k) {
            let j = choose|j: int| 0 <= j < k && #[trigger] out[j] == out[k];
            assert(at[j] < at[k]);
            assert(lines[at[j]] == lines[at[k]]);
            assert(seen_before(lines, at[k]));
            assert(survives(lines, at[k], false, allow_blanks));
        }
    }
    lemma_all_kept(out, false, allow_blanks, out.len());
    assert(surviving(out, false, allow_blanks) =~= out);
}

/// The blank lines among `lines`, in their order.
pub open spec fn blank_lines(lines: Seq<Seq<char>>) -> Seq<Seq<char>> {
    lines.filter(|line: Seq<char>| is_blank(line))
}

/// `lemma_blanks_pass` for the first `upto` lines.
proof fn lemma_blanks_upto(lines: Seq<Seq<char>>, invert: bool, upto: nat)
    requires
        upto <= lines.len(),
    ensures
        blank_lines(pick(lines, kept_positions(lines, invert, true, upto))) == blank_lines(
            lines.take(upto as int),
        ),
    decreases upto,
{
    let blank = |line: Seq<char>| is_blank(line);
    if upto == 0 {
        assert(pick(lines, kept_positions(lines, invert, true, 0)) =~= lines.take(0));
    } else {
        let last = upto - 1;
        let before = kept_positions(lines, invert, true, last as nat);
        lemma_blanks_upto(lines, invert, last as nat);
        assert(lines.take(upto as int) =~= lines.take(last).push(lines[last]));
        lines.take(last).lemma_filter_push(lines[last], blank);
        if survives(lines, last, invert, true) {
            assert(pick(lines, before.push(last)) =~= pick(lines, before).push(lines[last]));
            pick(lines, before).lemma_filter_push(lines[last], blank);
        }
    }
}

/// Where blank lines are allowed, each of them survives at its place, under
/// either policy: the blank lines of the output are those of the input, as
/// many and in the same order.
pub proof fn lemma_blanks_pass(lines: Seq<Seq<char>>, invert: bool)
    ensures
        forall|i: int|
            0 <= i < lines.len() && is_blank(lines[i]) ==> #[trigger] kept_positions(
                lines,
                invert,
                true,
                lines.len(),
            ).contains(i),
        blank_lines(surviving(lines, invert, true)) == blank_lines(lines),
{
    lemma_kept_positions(lines, invert, true, lines.len());
    lemma_blanks_upto(lines, invert, lines.len());
    assert(lines.take(lines.len() as int) =~= lines);
}

} // verus!
