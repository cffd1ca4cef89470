//! A deduplicating filter for lines of text.
//!
//! The input is split into lines, each line is kept or dropped by a predicate
//! that remembers the lines it has seen, the survivors are optionally put in
//! caseless order, and the result is rendered back into text.

pub mod args;
pub mod filter;
pub mod line;
pub mod order;
pub mod predicate;
pub mod sink;
pub mod source;

use crate::args::Args;
use crate::filter::{
    filter_lines, kept_positions, lemma_kept_positions, lemma_unique_idempotent, surviving,
};
use crate::order::{caseless_sorted, sort_lines};
use crate::sink::{lemma_rendered_front, render, rendered};
use crate::source::{lemma_lines_hold_no_break, lemma_until_break, lines_of, split_lines};
use vstd::prelude::*;

verus! {

/// The surviving lines as they leave the ordering stage: in caseless order
/// where sorting is asked for, untouched otherwise.
pub open spec fn arranged(lines: Seq<Seq<char>>, sort: bool) -> Seq<Seq<char>> {
    if sort {
        caseless_sorted(lines)
    } else {
        lines
    }
}

/// The text that a run makes of its input: the lines of the input that
/// survive, arranged and rendered.
pub open spec fn output_of(text: Seq<char>, invert: bool, allow_blanks: bool, sort: bool) -> Seq<
    char,
> {
    rendered(arranged(surviving(split_lines(text), invert, allow_blanks), sort))
}

/// One run over a text that has been read in full: splits it into lines,
/// filters them, sorts the survivors if asked to, and returns the text to
/// write out.
pub fn run(args: &Args, text: &str) -> (output: String)
    ensures
        output@ == output_of(text@, args.invert, args.allow_blanks, args.sort),
{
    let lines = lines_of(text);
    let kept = filter_lines(&lines, args.invert, args.allow_blanks);
    if args.sort {
        let sorted = sort_lines(&kept);
        render(&sorted)
    } else {
        render(&kept)
    }
}

/// A line that comes back as it is when it is written out and read again: it
/// holds no line feed and does not end in a carriage return.
pub open spec fn is_plain(line: Seq<char>) -> bool {
    !line.contains('\n') && (line.len() == 0 || line.last() != '\r')
}

/// Plain lines that are written out and read again are the same lines.
pub proof fn lemma_split_rendered(lines: Seq<Seq<char>>)
    requires
        forall|k: int| 0 <= k < lines.len() ==> is_plain(#[trigger] lines[k]),
    ensures
        split_lines(rendered(lines)) == lines,
    decreases lines.len(),
{
    if lines.len() == 0 {
        assert(split_lines(rendered(lines)) =~= lines);
    } else {
        let line = lines.first();
        let rest = lines.drop_first();
        let text = rendered(lines);
        lemma_rendered_front(lines);
        assert(is_plain(lines[0]));
        assert forall|k: int| 0 <= k < rest.len() implies is_plain(#[trigger] rest[k]) by {
            assert(rest[k] == lines[k + 1]);
        }
        lemma_split_rendered(rest);
        assert forall|k: int| 0 <= k < line.len() implies text[k] != '\n' by {
            assert(line[k] != '\n') by {
                if line[k] == '\n' {
                    assert(line.contains('\n'));
                }
            }
        }
        lemma_until_break(text, line.len() as int);
        assert(text.take(line.len() as int) =~= line);
        assert(text.skip(line.len() as int + 1) =~= rendered(rest));
        assert(split_lines(text) =~= lines);
    }
}

/// A run that keeps the first occurrences and does not sort leaves its own
/// output as it is, provided that no surviving line ends in a carriage
/// return: such a line is read back without it.
pub proof fn lemma_run_idempotent(text: Seq<char>, allow_blanks: bool)
    requires
        forall|k: int|
            0 <= k < surviving(split_lines(text), false, allow_blanks).len() ==> {
                let line = #[trigger] surviving(split_lines(text), false, allow_blanks)[k];
                line.len() == 0 || line.last() != '\r'
            },
    ensures
        output_of(output_of(text, false, allow_blanks, false), false, allow_blanks, false)
            == output_of(text, false, allow_blanks, false),
{
    let lines = split_lines(text);
    let kept = surviving(lines, false, allow_blanks);
    let at = kept_positions(lines, false, allow_blanks, lines.len());
    lemma_kept_positions(lines, false, allow_blanks, lines.len());
    lemma_lines_hold_no_break(text);
    assert forall|k: int| 0 <= k < kept.len() implies is_plain(#[trigger] kept[k]) by {
        assert(kept[k] == lines[at[k]]);
    }
    lemma_split_rendered(kept);
    lemma_unique_idempotent(lines, allow_blanks);
}

} // verus!
