//! A small language for deterministic finite automata: [`Automaton::from_str`]
//! turns source text into an [`Automaton`], and [`Automaton::run`] feeds it a sequence of
//! symbols, reporting how the run ended and which states it went through.

use vstd::prelude::*;

pub mod assoc;
pub mod laws;
pub mod output;
pub mod parse;
pub mod run;
pub mod text;

pub use parse::{ParseError, ParseErrorReason};

verus! {

/// The name of a state.
#[derive(Clone, Debug, Hash, PartialEq, Eq, PartialOrd, Ord)]
pub struct Id(pub String);

impl View for Id {
    type V = Seq<char>;

    open spec fn view(&self) -> Seq<char> {
        self.0@
    }
}

impl Id {
    /// A copy of this identifier with the same text.
    pub fn duplicate(&self) -> (r: Id)
        ensures
            r@ == self@,
    {
        Id(self.0.clone())
    }

    /// Makes an identifier out of its text.
    pub fn new(name: &str) -> (r: Id)
        ensures
            r@ == name@,
    {
        Id(name.to_owned())
    }

    /// The text of the identifier.
    pub fn as_str(&self) -> (r: &str)
        ensures
            r@ == self@,
    {
        self.0.as_str()
    }
}

/// How a state classifies a run that ends in it.
#[derive(Copy, Clone, Debug, PartialEq, Eq, Structural)]
pub enum Role {
    Ordinary,
    End,
    Catch,
}

/// A state: where each symbol leads, and the state's role.
///
/// When a symbol occurs more than once in `transitions`, the last entry counts.
#[derive(Clone, Debug, PartialEq, Eq)]
pub struct Node {
    pub transitions: Vec<(char, Id)>,
    pub role: Role,
}

pub ghost struct NodeView {
    pub transitions: Map<char, Seq<char>>,
    pub role: Role,
}

pub open spec fn transition_pairs(t: Seq<(char, Id)>) -> Seq<(char, Seq<char>)> {
    t.map_values(|e: (char, Id)| (e.0, e.1@))
}

impl Node {
    /// No symbol has two entries.
    pub open spec fn wf(&self) -> bool {
        assoc::keys_distinct(transition_pairs(self.transitions@))
    }
}

impl View for Node {
    type V = NodeView;

    open spec fn view(&self) -> NodeView {
        NodeView { transitions: assoc::to_map(transition_pairs(self.transitions@)), role: self.role }
    }
}

/// The states of an automaton, each under its identifier, and where it starts.
///
/// Neither the start nor a transition's target has to name a state: a run
/// reports such a reference as its outcome. When an identifier occurs more
/// than once in `nodes`, the last entry counts.
#[derive(Clone, Debug, PartialEq, Eq)]
pub struct Automaton {
    pub nodes: Vec<(Id, Node)>,
    pub start_at: Id,
}

pub ghost struct AutomatonView {
    pub nodes: Map<Seq<char>, NodeView>,
    pub start_at: Seq<char>,
}

pub open spec fn node_pairs(n: Seq<(Id, Node)>) -> Seq<(Seq<char>, NodeView)> {
    n.map_values(|e: (Id, Node)| (e.0@, e.1@))
}

impl Automaton {
    /// No identifier has two entries, and each state is well formed.
    pub open spec fn wf(&self) -> bool {
        &&& assoc::keys_distinct(node_pairs(self.nodes@))
        &&& forall|i: int| 0 <= i < self.nodes.len() ==> (#[trigger] self.nodes@[i]).1.wf()
    }
}

impl View for Automaton {
    type V = AutomatonView;

    open spec fn view(&self) -> AutomatonView {
        AutomatonView { nodes: assoc::to_map(node_pairs(self.nodes@)), start_at: self.start_at@ }
    }
}

/// How a run ended.
#[derive(Clone, Debug, PartialEq, Eq)]
pub enum Conclusion {
    Accepted,
    NotAtEndnode,
    AtCatchnode,
    UnknownTarget { from: Id, through: char, target: Id },
    UnknownChar { at: Id, input: char },
}

pub ghost enum Verdict {
    Accepted,
    NotAtEndnode,
    AtCatchnode,
    UnknownTarget { from: Seq<char>, through: char, target: Seq<char> },
    UnknownChar { at: Seq<char>, input: char },
}

impl View for Conclusion {
    type V = Verdict;

    open spec fn view(&self) -> Verdict {
        match self {
            Conclusion::Accepted => Verdict::Accepted,
            Conclusion::NotAtEndnode => Verdict::NotAtEndnode,
            Conclusion::AtCatchnode => Verdict::AtCatchnode,
            Conclusion::UnknownTarget { from, through, target } => Verdict::UnknownTarget {
                from: from@,
                through: *through,
                target: target@,
            },
            Conclusion::UnknownChar { at, input } => Verdict::UnknownChar { at: at@, input: *input },
        }
    }
}

/// The result of a run: its outcome and the states it went through, in order,
/// starting with the start state.
#[derive(Clone, Debug, PartialEq, Eq)]
pub struct ExecutedAutomaton {
    pub conclusion: Conclusion,
    pub path_taken: Vec<Id>,
}

pub ghost struct Execution {
    pub conclusion: Verdict,
    pub path: Seq<Seq<char>>,
}

pub open spec fn id_seq(ids: Seq<Id>) -> Seq<Seq<char>> {
    ids.map_values(|id: Id| id@)
}

impl View for ExecutedAutomaton {
    type V = Execution;

    open spec fn view(&self) -> Execution {
        Execution { conclusion: self.conclusion@, path: id_seq(self.path_taken@) }
    }
}

} // verus!

verus! {

/// Where the entry for `id` stands in `nodes`: the last one with that
/// identifier, if any.
pub(crate) fn find_node(nodes: &Vec<(Id, Node)>, id: &Id) -> (r: Option<usize>)
    ensures
        match r {
            Some(i) => {
                &&& i < nodes.len()
                &&& nodes@[i as int].0@ == id@
                &&& forall|j: int| i < j < nodes.len() ==> nodes@[j].0@ != id@
                &&& assoc::to_map(node_pairs(nodes@)).contains_key(id@)
                &&& assoc::to_map(node_pairs(nodes@))[id@] == nodes@[i as int].1@
            },
            None => {
                &&& !assoc::to_map(node_pairs(nodes@)).contains_key(id@)
                &&& forall|j: int| 0 <= j < nodes.len() ==> nodes@[j].0@ != id@
            },
        },
{
    let mut i: usize = nodes.len();
    while i > 0
        invariant
            i <= nodes.len(),
            forall|j: int| i <= j < nodes.len() ==> nodes@[j].0@ != id@,
        decreases i,
    {
        i = i - 1;
        if nodes[i].0.0 == id.0 {
            proof {
                assoc::lemma_to_map_last(node_pairs(nodes@), i as int);
            }
            return Some(i);
        }
    }
    proof {
        assoc::lemma_to_map_absent(node_pairs(nodes@), id@);
    }
    None
}

/// Where the entry for `ch` stands in `transitions`: the last one with that
/// symbol, if any.
pub(crate) fn find_transition(transitions: &Vec<(char, Id)>, ch: char) -> (r: Option<usize>)
    ensures
        match r {
            Some(i) => {
                &&& i < transitions.len()
                &&& transitions@[i as int].0 == ch
                &&& forall|j: int| i < j < transitions.len() ==> transitions@[j].0 != ch
                &&& assoc::to_map(transition_pairs(transitions@)).contains_key(ch)
                &&& assoc::to_map(transition_pairs(transitions@))[ch]
                    == transitions@[i as int].1@
            },
            None => {
                &&& !assoc::to_map(transition_pairs(transitions@)).contains_key(ch)
                &&& forall|j: int| 0 <= j < transitions.len() ==> transitions@[j].0 != ch
            },
        },
{
    let mut i: usize = transitions.len();
    while i > 0
        invariant
            i <= transitions.len(),
            forall|j: int| i <= j < transitions.len() ==> transitions@[j].0 != ch,
        decreases i,
    {
        i = i - 1;
        if transitions[i].0 == ch {
            proof {
                assoc::lemma_to_map_last(transition_pairs(transitions@), i as int);
            }
            return Some(i);
        }
    }
    proof {
        assoc::lemma_to_map_absent(transition_pairs(transitions@), ch);
    }
    None
}

} // verus!
