//! Lines and the test for blank ones.

use vstd::prelude::*;

verus! {

/// Whether `c` has the Unicode property White_Space, as `char::is_whitespace`
/// reports it.
pub uninterp spec fn white_space(c: char) -> bool;

/// `char::is_whitespace`: whether the character has the property White_Space.
#[verifier::external_body]
fn is_white_space(c: char) -> (white: bool)
    ensures
        white == white_space(c),
{
    c.is_whitespace()
}

/// A line is blank when nothing but white space is on it; the empty line is
/// blank.
pub open spec fn is_blank(line: Seq<char>) -> bool {
    forall|i: int| 0 <= i < line.len() ==> white_space(#[trigger] line[i])
}

/// Values that the predicates can test for being of no interest.
pub trait Testable {
    /// What `non_interesting` computes.
    spec fn is_non_interesting(&self) -> bool;

    /// Whether the value is of no interest to a reader.
    fn non_interesting(&self) -> (dull: bool)
        ensures
            dull == self.is_non_interesting(),
    ;
}

impl Testable for &str {
    open spec fn is_non_interesting(&self) -> bool {
        is_blank(self@)
    }

    fn non_interesting(&self) -> (dull: bool) {
        for c in it: self.chars()
            invariant
                it.seq() == self@,
                forall|i: int| 0 <= i < it.index() ==> white_space(#[trigger] self@[i]),
        {
            if !is_white_space(c) {
                return false;
            }
        }
        true
    }
}

} // verus!
