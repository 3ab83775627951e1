//! Running an automaton over a sequence of symbols.

use crate::{
    find_node, find_transition, id_seq, node_pairs, Automaton, Conclusion, ExecutedAutomaton,
    Execution, Id, Node, NodeView, Role, Verdict,
};
use crate::assoc::to_map;
use vstd::prelude::*;

verus! {

/// The outcome when the run stands in a state that is not defined: the last
/// transition taken led there. When that state is the start state itself, no
/// transition was taken: `from` is the start state too, and `through` is the
/// next input symbol, or `'\0'` when the input is empty.
pub open spec fn unknown_target_at(
    path: Seq<Seq<char>>,
    last: Option<char>,
    next: Option<char>,
) -> Verdict {
    Verdict::UnknownTarget {
        from: if path.len() >= 2 {
            path[path.len() - 2]
        } else {
            path.last()
        },
        through: match last {
            Some(c) => c,
            None => match next {
                Some(c) => c,
                None => '\0',
            },
        },
        target: path.last(),
    }
}

/// The outcome once all input is consumed and the run stands at `path.last()`.
pub open spec fn final_verdict(
    nodes: Map<Seq<char>, NodeView>,
    path: Seq<Seq<char>>,
    last: Option<char>,
) -> Verdict {
    if !nodes.contains_key(path.last()) {
        unknown_target_at(path, last, None)
    } else {
        match nodes[path.last()].role {
            Role::End => Verdict::Accepted,
            Role::Ordinary => Verdict::NotAtEndnode,
            Role::Catch => Verdict::AtCatchnode,
        }
    }
}

/// The run that continues from `path` (whose last entry is the current state),
/// `last` being the symbol consumed last, over the rest of the input.
pub open spec fn run_from(
    nodes: Map<Seq<char>, NodeView>,
    path: Seq<Seq<char>>,
    last: Option<char>,
    input: Seq<char>,
) -> Execution
    decreases input.len(),
{
    let cur = path.last();
    if input.len() == 0 {
        Execution { conclusion: final_verdict(nodes, path, last), path }
    } else if !nodes.contains_key(cur) {
        Execution { conclusion: unknown_target_at(path, last, Some(input[0])), path }
    } else if !nodes[cur].transitions.contains_key(input[0]) {
        Execution { conclusion: Verdict::UnknownChar { at: cur, input: input[0] }, path }
    } else {
        run_from(
            nodes,
            path.push(nodes[cur].transitions[input[0]]),
            Some(input[0]),
            input.drop_first(),
        )
    }
}

/// The run of `a` over `input`, from its start state.
pub open spec fn execution(a: crate::AutomatonView, input: Seq<char>) -> Execution {
    run_from(a.nodes, seq![a.start_at], None, input)
}

impl Automaton {
    /// Feeds `input` to the automaton, one symbol at a time, from its start
    /// state, and stops at the first symbol that has no transition or the
    /// first state that is not defined. A run never fails: an undefined start
    /// state is reported as an unknown target with the start as its path.
    pub fn run(self, input: &[char]) -> (r: ExecutedAutomaton)
        ensures
            r@ == execution(self@, input@),
    {
        let mut path_taken: Vec<Id> = Vec::new();
        path_taken.push(self.start_at.duplicate());
        let mut state = InProcessAutomaton {
            current: self.start_at.duplicate(),
            path_taken,
            last_char: None,
        };
        assert(id_seq(state.path_taken@) =~= seq![self@.start_at]);
        assert(input@.subrange(0, input@.len() as int) =~= input@);
        let mut i: usize = 0;
        while i < input.len()
            invariant
                i <= input.len(),
                state.path_taken.len() == i + 1,
                state.current@ == id_seq(state.path_taken@).last(),
                state.last_char is Some <==> i > 0,
                run_from(
                    self@.nodes,
                    id_seq(state.path_taken@),
                    state.last_char,
                    input@.subrange(i as int, input@.len() as int),
                ) == execution(self@, input@),
            decreases input.len() - i,
        {
            let ch = input[i];
            let rest = Ghost(input@.subrange(i as int, input@.len() as int));
            assert(rest@.drop_first() =~= input@.subrange(i + 1, input@.len() as int));
            match find_node(&self.nodes, &state.current) {
                None => {
                    return state.fail_as_unknown_target(Some(ch));
                },
                Some(k) => match find_transition(&self.nodes[k].1.transitions, ch) {
                    None => {
                        return state.fail_as_unknown_char(ch);
                    },
                    Some(t) => {
                        let next = self.nodes[k].1.transitions[t].1.duplicate();
                        let ghost old_path = state.path_taken@;
                        let mut path_taken = state.path_taken;
                        path_taken.push(next.duplicate());
                        assert(id_seq(path_taken@) =~= id_seq(old_path).push(next@));
                        state = InProcessAutomaton { current: next, path_taken, last_char: Some(ch) };
                    },
                },
            }
            i = i + 1;
        }
        state.finalize(&self.nodes)
    }
}

/// A run in progress: the states gone through, the last of which is the
/// current one, and the symbol consumed last.
#[derive(Clone, Debug)]
struct InProcessAutomaton {
    current: Id,
    path_taken: Vec<Id>,
    last_char: Option<char>,
}

impl InProcessAutomaton {
    fn unknown_target_conclusion(&self, next: Option<char>) -> (r: Conclusion)
        requires
            self.path_taken.len() >= 1,
        ensures
            r@ == unknown_target_at(id_seq(self.path_taken@), self.last_char, next),
    {
        let n = self.path_taken.len();
        let through = match self.last_char {
            Some(c) => c,
            None => match next {
                Some(c) => c,
                None => '\0',
            },
        };
        let from = if n >= 2 {
            self.path_taken[n - 2].duplicate()
        } else {
            self.path_taken[n - 1].duplicate()
        };
        Conclusion::UnknownTarget {
            from,
            through,
            target: self.path_taken[n - 1].duplicate(),
        }
    }

    fn fail_as_unknown_target(self, next: Option<char>) -> (r: ExecutedAutomaton)
        requires
            self.path_taken.len() >= 1,
        ensures
            r@ == (Execution {
                conclusion: unknown_target_at(id_seq(self.path_taken@), self.last_char, next),
                path: id_seq(self.path_taken@),
            }),
    {
        ExecutedAutomaton {
            conclusion: self.unknown_target_conclusion(next),
            path_taken: self.path_taken,
        }
    }

    fn fail_as_unknown_char(self, ch: char) -> (r: ExecutedAutomaton)
        ensures
            r@ == (Execution {
                conclusion: Verdict::UnknownChar { at: self.current@, input: ch },
                path: id_seq(self.path_taken@),
            }),
    {
        ExecutedAutomaton {
            conclusion: Conclusion::UnknownChar { at: self.current, input: ch },
            path_taken: self.path_taken,
        }
    }

    fn finalize(self, nodes: &Vec<(Id, Node)>) -> (r: ExecutedAutomaton)
        requires
            self.path_taken.len() >= 1,
            self.current@ == id_seq(self.path_taken@).last(),
        ensures
            r@ == (Execution {
                conclusion: final_verdict(
                    to_map(node_pairs(nodes@)),
                    id_seq(self.path_taken@),
                    self.last_char,
                ),
                path: id_seq(self.path_taken@),
            }),
    {
        let conclusion = match find_node(nodes, &self.current) {
            Some(k) => match nodes[k].1.role {
                Role::End => Conclusion::Accepted,
                Role::Ordinary => Conclusion::NotAtEndnode,
                Role::Catch => Conclusion::AtCatchnode,
            },
            None => self.unknown_target_conclusion(None),
        };
        ExecutedAutomaton { conclusion, path_taken: self.path_taken }
    }
}

} // verus!
