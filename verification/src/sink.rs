//! The sink: the surviving lines as the text that is written out.

use vstd::prelude::*;
use vstd::string::StringExecFns;

verus! {

/// The text of the given lines: each line with a line feed behind it.
pub open spec fn rendered(lines: Seq<Seq<char>>) -> Seq<char>
    decreases lines.len(),
{
    if lines.len() == 0 {
        Seq::empty()
    } else {
        rendered(lines.drop_last()) + lines.last() + seq!['\n']
    }
}

/// The text of some lines starts with the first line and its line feed, and
/// goes on with the text of the others.
pub proof fn lemma_rendered_front(lines: Seq<Seq<char>>)
    requires
        lines.len() > 0,
    ensures
        rendered(lines) == lines.first() + seq!['\n'] + rendered(lines.drop_first()),
    decreases lines.len(),
{
    if lines.len() == 1 {
        assert(rendered(lines.drop_last()) =~= Seq::<char>::empty());
        assert(rendered(lines.drop_first()) =~= Seq::<char>::empty());
        assert(rendered(lines) =~= lines.first() + seq!['\n'] + rendered(lines.drop_first()));
    } else {
        let front = lines.drop_last();
        lemma_rendered_front(front);
        assert(front.drop_first() =~= lines.drop_first().drop_last());
        assert(rendered(lines) =~= lines.first() + seq!['\n'] + rendered(lines.drop_first()));
    }
}

/// Writes the lines into one text, a line feed behind each.
pub fn render(lines: &Vec<&str>) -> (text: String)
    ensures
        text@ == rendered(lines.deep_view()),
{
    let mut text = String::new();
    let ghost all = lines.deep_view();
    assert(all.take(0) =~= Seq::<Seq<char>>::empty());
    for i in 0..lines.len()
        invariant
            all == lines.deep_view(),
            text@ == rendered(all.take(i as int)),
    {
        text.append(lines[i]);
        text.append("\n");
        proof {
            reveal_strlit("\n");
            assert("\n"@ =~= seq!['\n']);
            assert(all.take(i + 1).drop_last() =~= all.take(i as int));
            assert(all.take(i + 1).last() == lines[i as int]@);
        }
    }
    assert(all.take(lines.len() as int) =~= all);
    text
}

} // verus!
