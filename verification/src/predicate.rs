//! The predicates that decide, line by line, what survives.
//!
//! A predicate owns the set of lines seen so far. The two policies record a
//! line in the same way and differ only in the answer: one keeps a line the
//! first time it is seen, the other every time but the first.

use crate::line::{is_blank, Testable};
use either::Either;
use hashbrown::HashSet;
use vstd::prelude::*;

verus! {

/// `either::Either`, a value of one of two types. The declaration leaves the
/// two variants in view, so that a value can be built and matched on.
#[verifier::external_type_specification]
#[verifier::reject_recursive_types(L)]
#[verifier::reject_recursive_types(R)]
pub struct ExEither<L, R>(Either<L, R>);

/// A `hashbrown::HashSet` of lines. The verifier does not look inside: what
/// the set holds is `members`, and the two functions below are all that
/// touches it.
#[verifier::external_body]
pub struct SeenSet<'a> {
    set: HashSet<&'a str>,
}

/// The lines that a set holds.
pub uninterp spec fn members(set: SeenSet) -> Set<Seq<char>>;

/// `HashSet::default`: a set that holds nothing.
#[verifier::external_body]
fn empty_set<'a>() -> (set: SeenSet<'a>)
    ensures
        members(set) == Set::<Seq<char>>::empty(),
{
    SeenSet { set: HashSet::default() }
}

/// `HashSet::insert`: puts `line` in the set and tells whether it was new. A
/// line that the set already holds leaves the set as it was.
#[verifier::external_body]
fn insert<'a>(set: &mut SeenSet<'a>, line: &'a str) -> (fresh: bool)
    ensures
        fresh == !members(*old(set)).contains(line@),
        members(*final(set)) == members(*old(set)).insert(line@),
{
    set.set.insert(line)
}

/// Whether a line goes past the set of seen lines unrecorded: blank lines do,
/// where they are allowed.
pub open spec fn bypasses(allow_blanks: bool, line: Seq<char>) -> bool {
    allow_blanks && is_blank(line)
}

/// The answer of a predicate that has seen `seen` to `line`.
pub open spec fn verdict(
    seen: Set<Seq<char>>,
    keep_repeats: bool,
    allow_blanks: bool,
    line: Seq<char>,
) -> bool {
    bypasses(allow_blanks, line) || seen.contains(line) == keep_repeats
}

/// The lines seen once a predicate that has seen `seen` has answered to `line`.
pub open spec fn recorded(seen: Set<Seq<char>>, allow_blanks: bool, line: Seq<char>) -> Set<
    Seq<char>,
> {
    if bypasses(allow_blanks, line) {
        seen
    } else {
        seen.insert(line)
    }
}

/// The seen lines only grow: what was seen stays seen, and a line that does
/// not bypass the set is seen once it has been answered to.
pub proof fn lemma_seen_grows(seen: Set<Seq<char>>, allow_blanks: bool, line: Seq<char>)
    ensures
        seen.subset_of(recorded(seen, allow_blanks, line)),
        !bypasses(allow_blanks, line) ==> recorded(seen, allow_blanks, line).contains(line),
{
}

/// A stateful filter over lines.
pub trait Predicate<'a> {
    /// The lines recorded so far.
    spec fn seen(&self) -> Set<Seq<char>>;

    /// Whether the repeats are kept, rather than the first occurrences.
    spec fn keeps_repeats(&self) -> bool;

    /// Whether blank lines go through unrecorded.
    spec fn allows_blanks(&self) -> bool;

    /// Whether `value` survives. The line is recorded unless it bypasses the
    /// set; the policy never changes.
    fn filter(&mut self, value: &'a str) -> (keep: bool)
        ensures
            keep == verdict(
                old(self).seen(),
                old(self).keeps_repeats(),
                old(self).allows_blanks(),
                value@,
            ),
            final(self).seen() == recorded(old(self).seen(), old(self).allows_blanks(), value@),
            final(self).keeps_repeats() == old(self).keeps_repeats(),
            final(self).allows_blanks() == old(self).allows_blanks(),
    ;
}

/// Keeps a line the first time it is seen.
pub struct UniquePredicate<'a> {
    set: SeenSet<'a>,
    allow_non_interesting: bool,
}

impl<'a> UniquePredicate<'a> {
    /// A predicate that has seen nothing yet.
    pub fn new(allow_non_interesting: bool) -> (predicate: Self)
        ensures
            predicate.seen() == Set::<Seq<char>>::empty(),
            predicate.allows_blanks() == allow_non_interesting,
    {
        Self { set: empty_set(), allow_non_interesting }
    }
}

impl<'a> Predicate<'a> for UniquePredicate<'a> {
    closed spec fn seen(&self) -> Set<Seq<char>> {
        members(self.set)
    }

    open spec fn keeps_repeats(&self) -> bool {
        false
    }

    closed spec fn allows_blanks(&self) -> bool {
        self.allow_non_interesting
    }

    fn filter(&mut self, value: &'a str) -> (keep: bool) {
        self.allow_non_interesting && value.non_interesting() || insert(&mut self.set, value)
    }
}

/// Keeps every occurrence of a line but the first.
pub struct NonUniquePredicate<'a> {
    set: SeenSet<'a>,
    allow_non_interesting: bool,
}

impl<'a> NonUniquePredicate<'a> {
    /// A predicate that has seen nothing yet.
    pub fn new(allow_non_interesting: bool) -> (predicate: Self)
        ensures
            predicate.seen() == Set::<Seq<char>>::empty(),
            predicate.allows_blanks() == allow_non_interesting,
    {
        NonUniquePredicate { set: empty_set(), allow_non_interesting }
    }
}

impl<'a> Predicate<'a> for NonUniquePredicate<'a> {
    closed spec fn seen(&self) -> Set<Seq<char>> {
        members(self.set)
    }

    open spec fn keeps_repeats(&self) -> bool {
        true
    }

    closed spec fn allows_blanks(&self) -> bool {
        self.allow_non_interesting
    }

    fn filter(&mut self, value: &'a str) -> (keep: bool) {
        self.allow_non_interesting && value.non_interesting() || !insert(&mut self.set, value)
    }
}

impl<'a> Predicate<'a> for Either<UniquePredicate<'a>, NonUniquePredicate<'a>> {
    open spec fn seen(&self) -> Set<Seq<char>> {
        match self {
            Either::Left(p) => p.seen(),
            Either::Right(p) => p.seen(),
        }
    }

    open spec fn keeps_repeats(&self) -> bool {
        self is Right
    }

    open spec fn allows_blanks(&self) -> bool {
        match self {
            Either::Left(p) => p.allows_blanks(),
            Either::Right(p) => p.allows_blanks(),
        }
    }

    fn filter(&mut self, value: &'a str) -> (keep: bool) {
        match self {
            Either::Left(p) => p.filter(value),
            Either::Right(p) => p.filter(value),
        }
    }
}

/// The predicate for a run: keep-repeats when `invert` is set, keep-first
/// otherwise, with nothing seen yet.
pub fn initialize_predicate<'a>(invert: bool, allow_blanks: bool) -> (predicate: Either<
    UniquePredicate<'a>,
    NonUniquePredicate<'a>,
>)
    ensures
        predicate.seen() == Set::<Seq<char>>::empty(),
        predicate.keeps_repeats() == invert,
        predicate.allows_blanks() == allow_blanks,
{
    if invert {
        Either::Right(NonUniquePredicate::new(allow_blanks))
    } else {
        Either::Left(UniquePredicate::new(allow_blanks))
    }
}

} // verus!
