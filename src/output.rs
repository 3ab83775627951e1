//! The text that reports a run.

use crate::text::string_of;
use crate::{Conclusion, ExecutedAutomaton, Execution, Verdict};
use vstd::prelude::*;
use vstd::string::StringExecFns;

verus! {

/// How an outcome reads.
pub open spec fn conclusion_text(v: Verdict) -> Seq<char> {
    match v {
        Verdict::Accepted => "accepted"@,
        Verdict::NotAtEndnode => "rejected, the final node was not marked as an end node"@,
        Verdict::AtCatchnode => "rejected, the final node was a catch node"@,
        Verdict::UnknownChar { at, input } => "rejected, state `"@ + at
            + "` didn't define what to do at character `"@ + seq![input] + "`"@,
        Verdict::UnknownTarget { from, through, target } => "rejected, state `"@ + from
            + "` defined a transition through `"@ + seq![through] + "` to `"@ + target
            + "`, which isn't defined anywhere"@,
    }
}

/// The states of a path, separated by ` -> `.
pub open spec fn joined(path: Seq<Seq<char>>) -> Seq<char>
    decreases path.len(),
{
    if path.len() == 0 {
        Seq::empty()
    } else if path.len() == 1 {
        path[0]
    } else {
        joined(path.drop_last()) + " -> "@ + path.last()
    }
}

/// How a run reads: its path on one line, its outcome on the next.
pub open spec fn report_text(e: Execution) -> Seq<char> {
    "nodes visited: "@ + joined(e.path) + "\nconclusion: "@ + conclusion_text(e.conclusion)
}

fn push_char(s: &mut String, c: char)
    ensures
        final(s)@ == old(s)@ + seq![c],
{
    let cs = [c];
    let piece = string_of(cs.as_slice());
    assert(cs@ =~= seq![c]);
    s.append(piece.as_str());
}

impl Conclusion {
    /// The outcome in words.
    pub fn describe(&self) -> (r: String)
        ensures
            r@ == conclusion_text(self@),
    {
        match self {
            Conclusion::Accepted => String::from_str("accepted"),
            Conclusion::NotAtEndnode => String::from_str(
                "rejected, the final node was not marked as an end node",
            ),
            Conclusion::AtCatchnode => String::from_str("rejected, the final node was a catch node"),
            Conclusion::UnknownChar { at, input } => {
                let mut r = String::from_str("rejected, state `");
                r.append(at.as_str());
                r.append("` didn't define what to do at character `");
                push_char(&mut r, *input);
                r.append("`");
                r
            },
            Conclusion::UnknownTarget { from, through, target } => {
                let mut r = String::from_str("rejected, state `");
                r.append(from.as_str());
                r.append("` defined a transition through `");
                push_char(&mut r, *through);
                r.append("` to `");
                r.append(target.as_str());
                r.append("`, which isn't defined anywhere");
                r
            },
        }
    }
}

impl ExecutedAutomaton {
    /// The run in words: the states visited, then the outcome.
    pub fn report(&self) -> (r: String)
        ensures
            r@ == report_text(self@),
    {
        let mut r = String::from_str("nodes visited: ");
        let ghost start = r@;
        let mut i: usize = 0;
        while i < self.path_taken.len()
            invariant
                i <= self.path_taken.len(),
                r@ == start + joined(crate::id_seq(self.path_taken@).subrange(0, i as int)),
            decreases self.path_taken.len() - i,
        {
            let ghost ids = crate::id_seq(self.path_taken@);
            let ghost before = r@;
            assert(ids.subrange(0, i + 1).drop_last() =~= ids.subrange(0, i as int));
            if i != 0 {
                r.append(" -> ");
            }
            r.append(self.path_taken[i].as_str());
            proof {
                if i == 0 {
                    assert(ids.subrange(0, 1) =~= seq![ids[0]]);
                    assert(joined(ids.subrange(0, 0)) =~= Seq::<char>::empty());
                }
            }
            assert(r@ =~= start + joined(ids.subrange(0, i + 1)));
            i = i + 1;
        }
        assert(crate::id_seq(self.path_taken@).subrange(0, i as int) =~= crate::id_seq(
            self.path_taken@,
        ));
        r.append("\nconclusion: ");
        let c = self.conclusion.describe();
        r.append(c.as_str());
        r
    }
}

} // verus!
