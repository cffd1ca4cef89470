//! The line source: a text taken apart into its lines.

use vstd::prelude::*;

verus! {

/// The number of characters that stand before the first line feed of `text`;
/// the length of `text` where it has none.
pub open spec fn until_break(text: Seq<char>) -> nat
    decreases text.len(),
{
    if text.len() == 0 || text[0] == '\n' {
        0
    } else {
        1 + until_break(text.drop_first())
    }
}

/// A line without the carriage return at its end, if it has one there.
pub open spec fn without_return(line: Seq<char>) -> Seq<char> {
    if line.len() > 0 && line.last() == '\r' {
        line.drop_last()
    } else {
        line
    }
}

/// The lines of a text. A line ends at a line feed, or at a carriage return
/// that a line feed follows; neither belongs to the line. A carriage return
/// elsewhere is part of its line. What follows the last line feed is a line of
/// its own unless it is empty, so the last line may do without a terminator.
pub open spec fn split_lines(text: Seq<char>) -> Seq<Seq<char>>
    decreases text.len(),
{
    if text.len() == 0 {
        Seq::empty()
    } else {
        let end = until_break(text) as int;
        if end >= text.len() {
            seq![text]
        } else {
            seq![without_return(text.take(end))] + split_lines(text.skip(end + 1))
        }
    }
}

/// `until_break` is the position of the first line feed.
pub proof fn lemma_until_break(text: Seq<char>, end: int)
    requires
        0 <= end <= text.len(),
        forall|k: int| 0 <= k < end ==> text[k] != '\n',
        end < text.len() ==> text[end] == '\n',
    ensures
        until_break(text) == end,
    decreases end,
{
    if end > 0 {
        lemma_until_break(text.drop_first(), end - 1);
    }
}

/// No line feed stands before `until_break`, which is at most the length of
/// the text; where it is less, a line feed stands at it.
pub proof fn lemma_until_break_is_first(text: Seq<char>)
    ensures
        until_break(text) <= text.len(),
        forall|k: int| 0 <= k < until_break(text) ==> text[k] != '\n',
        until_break(text) < text.len() ==> text[until_break(text) as int] == '\n',
    decreases text.len(),
{
    if text.len() == 0 || text[0] == '\n' {
    } else {
        let rest = text.drop_first();
        lemma_until_break_is_first(rest);
        assert forall|k: int| 0 <= k < until_break(text) implies text[k] != '\n' by {
            if k > 0 {
                assert(rest[k - 1] != '\n');
            }
        }
        if until_break(text) < text.len() {
            assert(rest[until_break(rest) as int] == '\n');
        }
    }
}

/// No line of a text holds a line feed.
pub proof fn lemma_lines_hold_no_break(text: Seq<char>)
    ensures
        forall|k: int|
            0 <= k < split_lines(text).len() ==> !(#[trigger] split_lines(text)[k]).contains('\n'),
    decreases text.len(),
{
    if text.len() > 0 {
        lemma_until_break_is_first(text);
        let end = until_break(text) as int;
        if end < text.len() {
            let first = without_return(text.take(end));
            let rest = split_lines(text.skip(end + 1));
            lemma_lines_hold_no_break(text.skip(end + 1));
            assert forall|k: int| 0 <= k < split_lines(text).len() implies !(
            #[trigger] split_lines(text)[k]).contains('\n') by {
                if k == 0 {
                    if first.contains('\n') {
                        let i = choose|i: int| 0 <= i < first.len() && first[i] == '\n';
                        assert(text[i] == '\n');
                    }
                } else {
                    assert(split_lines(text)[k] == rest[k - 1]);
                }
            }
        } else {
            if text.contains('\n') {
                let i = choose|i: int| 0 <= i < text.len() && text[i] == '\n';
                assert(text[i] == '\n');
            }
        }
    }
}

/// `String::push`: appends one character.
#[verifier::external_body]
fn push_char(text: &mut String, c: char)
    ensures
        final(text)@ == old(text)@.push(c),
{
    text.push(c)
}

/// Takes a text apart into its lines.
pub fn lines_of(text: &str) -> (lines: Vec<String>)
    ensures
        lines.deep_view() == split_lines(text@),
{
    let mut lines: Vec<String> = Vec::new();
    let mut current = String::new();
    // A carriage return that has been read and not yet written: it is dropped
    // if a line feed follows it.
    let mut held_return = false;
    let ghost mut start: int = 0;
    assert(text@.skip(0) =~= text@);
    assert(lines.deep_view() =~= Seq::<Seq<char>>::empty());
    for c in it: text.chars()
        invariant
            it.seq() == text@,
            0 <= start <= it.index(),
            forall|k: int| start <= k < it.index() ==> text@[k] != '\n',
            current@ + (if held_return {
                seq!['\r']
            } else {
                Seq::<char>::empty()
            }) == text@.subrange(start, it.index() as int),
            !held_return ==> current@.len() == 0 || current@.last() != '\r',
            split_lines(text@) == lines.deep_view() + split_lines(text@.skip(start)),
    {
        let ghost i = it.index() as int;
        let ghost sofar = lines.deep_view();
        if c == '\n' {
            let ghost line = current@;
            proof {
                let tail = text@.skip(start);
                lemma_until_break(tail, i - start);
                assert(tail.take(i - start) =~= text@.subrange(start, i));
                assert(tail.skip(i - start + 1) =~= text@.skip(i + 1));
                assert(without_return(text@.subrange(start, i)) =~= line);
                start = i + 1;
            }
            lines.push(current);
            current = String::new();
            held_return = false;
            proof {
                assert(lines.deep_view() =~= sofar.push(line));
                assert(text@.subrange(start, start) =~= Seq::<char>::empty());
            }
        } else {
            if held_return {
                push_char(&mut current, '\r');
            }
            if c == '\r' {
                held_return = true;
            } else {
                push_char(&mut current, c);
                held_return = false;
            }
            assert(text@.subrange(start, i + 1) =~= text@.subrange(start, i).push(c));
        }
    }
    if held_return {
        push_char(&mut current, '\r');
    }
    proof {
        let tail = text@.skip(start);
        assert(tail =~= text@.subrange(start, text@.len() as int));
        assert(current@ =~= tail);
        if tail.len() > 0 {
            lemma_until_break(tail, tail.len() as int);
        }
    }
    if !current.as_str().is_empty() {
        let ghost sofar = lines.deep_view();
        lines.push(current);
        assert(lines.deep_view() =~= sofar.push(lines@.last()@));
    }
    lines
}

} // verus!
