//! The options of one run.

use vstd::prelude::*;

verus! {

/// The options of one run, as resolved once at startup.
#[derive(Clone, Debug)]
pub struct Args {
    /// The input path; the standard input when absent.
    pub path: Option<String>,
    /// The output path; the standard output when absent.
    pub out: Option<String>,
    /// Write the result back to the input path, whatever `out` says.
    pub overwrite: bool,
    /// Put the surviving lines in caseless order.
    pub sort: bool,
    /// Keep the repeated occurrences instead of the first ones.
    pub invert: bool,
    /// Let blank lines through untouched.
    pub allow_blanks: bool,
}

impl Args {
    /// The path the result goes to, as a sequence of characters: the input
    /// path when `overwrite` is set and an input path is given, otherwise the
    /// output path if there is one.
    pub open spec fn target(&self) -> Option<Seq<char>> {
        if self.overwrite && self.path is Some {
            Some(self.path->0@)
        } else if self.out is Some {
            Some(self.out->0@)
        } else {
            None
        }
    }

    /// The file the result is written to, or `None` when it goes to the
    /// standard output.
    pub fn output_path(&self) -> (target: Option<&str>)
        ensures
            target is Some <==> self.target() is Some,
            target is Some ==> target->0@ == self.target()->0,
    {
        if self.overwrite {
            if let Some(path) = &self.path {
                return Some(path.as_str());
            }
        }
        match &self.out {
            Some(out) => Some(out.as_str()),
            None => None,
        }
    }
}

/// With `overwrite` set and an input path given, the result goes to the input
/// path, whatever the output path says.
pub proof fn lemma_overwrite_ignores_out(args: Args)
    requires
        args.overwrite,
        args.path is Some,
    ensures
        args.target() == Some(args.path->0@),
{
}

/// Without `overwrite` the result goes to the output path, and to the
/// standard output where there is none.
pub proof fn lemma_explicit_output(args: Args)
    requires
        !args.overwrite,
    ensures
        args.out is Some ==> args.target() == Some(args.out->0@),
        args.out is None ==> args.target() is None,
{
}

} // verus!
