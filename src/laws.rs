//! What holds of every source text and every run.

use crate::parse::{
    apply_modifiers, empty_draft, feed_all, header_modifiers, header_id, is_rule,
    is_skipped, parse_source, start_word, Draft, Fault,
};
use crate::run::{execution, run_from};
use crate::text::{split_char, trim};
use crate::{AutomatonView, Execution, NodeView, Role, Verdict};
use vstd::prelude::*;

verus! {

/// `path` follows the transitions of `nodes` for the first `n` symbols of
/// `input`: each of those states is defined and leads, on its symbol, to the
/// next state of the path.
pub open spec fn walks(
    nodes: Map<Seq<char>, NodeView>,
    path: Seq<Seq<char>>,
    input: Seq<char>,
    n: int,
) -> bool {
    forall|j: int|
        0 <= j < n ==> {
            &&& #[trigger] nodes.contains_key(path[j])
            &&& nodes[path[j]].transitions.contains_key(input[j])
            &&& nodes[path[j]].transitions[input[j]] == path[j + 1]
        }
}

pub open spec fn ends_normally(v: Verdict) -> bool {
    v is Accepted || v is NotAtEndnode || v is AtCatchnode
}

/// The outcome of a run that ends, with all input consumed, in a state of
/// role `r`.
pub open spec fn role_verdict(r: Role) -> Verdict {
    match r {
        Role::End => Verdict::Accepted,
        Role::Ordinary => Verdict::NotAtEndnode,
        Role::Catch => Verdict::AtCatchnode,
    }
}

/// How a run whose path is `r.path` ended, in terms of its last state and of
/// the input: it ends in a defined state exactly when it consumed all input,
/// it stops at a symbol exactly when the current state has no transition for
/// it, and at an undefined state exactly when the current state is undefined.
pub open spec fn outcome_fits(
    nodes: Map<Seq<char>, NodeView>,
    input: Seq<char>,
    r: Execution,
) -> bool {
    let k = r.path.len() - 1;
    let cur = r.path.last();
    &&& ends_normally(r.conclusion) <==> (k == input.len() && nodes.contains_key(cur))
    &&& ends_normally(r.conclusion) ==> r.conclusion == role_verdict(nodes[cur].role)
    &&& r.conclusion is UnknownChar <==> (k < input.len() && nodes.contains_key(cur)
        && !nodes[cur].transitions.contains_key(input[k]))
    &&& r.conclusion is UnknownChar ==> r.conclusion == (Verdict::UnknownChar {
        at: cur,
        input: input[k],
    })
    &&& r.conclusion is UnknownTarget <==> !nodes.contains_key(cur)
    &&& r.conclusion is UnknownTarget ==> r.conclusion->UnknownTarget_target == cur
}

proof fn lemma_run_from_walks(
    nodes: Map<Seq<char>, NodeView>,
    path: Seq<Seq<char>>,
    last: Option<char>,
    input: Seq<char>,
    i: int,
)
    requires
        0 <= i <= input.len(),
        path.len() == i + 1,
        walks(nodes, path, input, i),
    ensures
        ({
            let r = run_from(nodes, path, last, input.subrange(i, input.len() as int));
            &&& i + 1 <= r.path.len() <= input.len() + 1
            &&& r.path.subrange(0, i + 1) == path
            &&& walks(nodes, r.path, input, r.path.len() - 1)
            &&& ends_normally(r.conclusion) ==> r.path.len() == input.len() + 1
            &&& outcome_fits(nodes, input, r)
        }),
    decreases input.len() - i,
{
    let rest = input.subrange(i, input.len() as int);
    let r = run_from(nodes, path, last, rest);
    if i < input.len() && nodes.contains_key(path.last()) && nodes[path.last()].transitions.contains_key(input[i]) {
        let next = path.push(nodes[path.last()].transitions[input[i]]);
        assert(rest.drop_first() =~= input.subrange(i + 1, input.len() as int));
        assert(rest[0] == input[i]);
        assert forall|j: int| 0 <= j < i + 1 implies {
            &&& #[trigger] nodes.contains_key(next[j])
            &&& nodes[next[j]].transitions.contains_key(input[j])
            &&& nodes[next[j]].transitions[input[j]] == next[j + 1]
        } by {
            if j < i {
                assert(nodes.contains_key(path[j]));
            }
        }
        lemma_run_from_walks(nodes, next, Some(input[i]), input, i + 1);
        let r2 = run_from(nodes, next, Some(input[i]), input.subrange(i + 1, input.len() as int));
        assert(r == r2);
        assert(r.path.subrange(0, i + 1) =~= r.path.subrange(0, i + 2).subrange(0, i + 1));
        assert(next.subrange(0, i + 1) =~= path);
    } else {
        assert(r.path == path);
        assert(path.subrange(0, i + 1) =~= path);
        if i < input.len() {
            assert(rest[0] == input[i]);
        }
    }
}

/// Every run, of every automaton, goes through one state more than it
/// consumed symbols: its path starts at the start state and each step follows
/// the transition of the next input symbol. It ends in a defined state
/// (accepted, not at an end state, at a catch state, as that state's role
/// says) exactly when it consumed the whole input; it reports an unknown
/// symbol exactly when the current state has no transition for the next
/// symbol; and an unknown target exactly when the current state is undefined.
/// An undefined start state gives an unknown target on the start itself.
pub proof fn lemma_path_follows_input(a: AutomatonView, input: Seq<char>)
    ensures
        ({
            let r = execution(a, input);
            &&& 1 <= r.path.len() <= input.len() + 1
            &&& r.path[0] == a.start_at
            &&& walks(a.nodes, r.path, input, r.path.len() - 1)
            &&& ends_normally(r.conclusion) ==> r.path.len() == input.len() + 1
            &&& outcome_fits(a.nodes, input, r)
            &&& !a.nodes.contains_key(a.start_at) ==> {
                &&& r.path == seq![a.start_at]
                &&& r.conclusion is UnknownTarget
                &&& r.conclusion->UnknownTarget_from == a.start_at
                &&& r.conclusion->UnknownTarget_target == a.start_at
            }
        }),
{
    assert(input.subrange(0, input.len() as int) =~= input);
    lemma_run_from_walks(a.nodes, seq![a.start_at], None, input, 0);
    let r = execution(a, input);
    assert(r.path[0] == r.path.subrange(0, 1)[0]);
}

proof fn lemma_run_along(
    nodes: Map<Seq<char>, NodeView>,
    path: Seq<Seq<char>>,
    last: Option<char>,
    input: Seq<char>,
    i: int,
)
    requires
        0 <= i <= input.len(),
        path.len() == input.len() + 1,
        walks(nodes, path, input, input.len() as int),
        nodes.contains_key(path.last()),
        nodes[path.last()].role == Role::End,
    ensures
        run_from(nodes, path.subrange(0, i + 1), last, input.subrange(i, input.len() as int))
            == (Execution { conclusion: Verdict::Accepted, path }),
    decreases input.len() - i,
{
    let prefix = path.subrange(0, i + 1);
    let rest = input.subrange(i, input.len() as int);
    if i == input.len() {
        assert(prefix =~= path);
    } else {
        assert(nodes.contains_key(path[i]));
        assert(prefix.last() == path[i]);
        assert(rest[0] == input[i]);
        assert(rest.drop_first() =~= input.subrange(i + 1, input.len() as int));
        assert(prefix.push(path[i + 1]) =~= path.subrange(0, i + 2));
        lemma_run_along(nodes, path, Some(input[i]), input, i + 1);
    }
}

/// A run over an input that a walk of the automaton follows from its start
/// state into an end state accepts, and its path is that walk: one state
/// more than the input has symbols.
pub proof fn lemma_accepting_walk(a: AutomatonView, input: Seq<char>, path: Seq<Seq<char>>)
    requires
        path.len() == input.len() + 1,
        path[0] == a.start_at,
        walks(a.nodes, path, input, input.len() as int),
        a.nodes.contains_key(path.last()),
        a.nodes[path.last()].role == Role::End,
    ensures
        execution(a, input) == (Execution { conclusion: Verdict::Accepted, path }),
        execution(a, input).path.len() == input.len() + 1,
{
    assert(path.subrange(0, 1) =~= seq![a.start_at]);
    assert(input.subrange(0, input.len() as int) =~= input);
    lemma_run_along(a.nodes, path, None, input, 0);
}

/// Parsing depends on the text alone: the same text gives the same automaton,
/// or the same fault on the same line.
pub proof fn lemma_parse_deterministic(s1: Seq<char>, s2: Seq<char>)
    requires
        s1 == s2,
    ensures
        parse_source(s1) == parse_source(s2),
{
}

proof fn lemma_fault_persists(lines: Seq<Seq<char>>, m: int, e: (nat, Fault))
    requires
        0 <= m <= lines.len(),
        feed_all(lines.subrange(0, m)) == Err::<Draft, (nat, Fault)>(e),
    ensures
        feed_all(lines) == Err::<Draft, (nat, Fault)>(e),
    decreases lines.len() - m,
{
    if m == lines.len() {
        assert(lines.subrange(0, m) =~= lines);
    } else {
        assert(lines.subrange(0, m + 1).drop_last() =~= lines.subrange(0, m));
        lemma_fault_persists(lines, m + 1, e);
    }
}

proof fn lemma_rules_first(lines: Seq<Seq<char>>, m: int)
    requires
        0 <= m <= lines.len(),
        forall|j: int|
            0 <= j < m ==> is_skipped(#[trigger] trim(lines[j])) || is_rule(trim(lines[j])),
    ensures
        feed_all(lines.subrange(0, m)) == if forall|j: int|
            0 <= j < m ==> is_skipped(#[trigger] trim(lines[j])) {
            Ok::<Draft, (nat, Fault)>(empty_draft())
        } else {
            Err((0nat, Fault::NotInSection))
        },
    decreases m,
{
    if m > 0 {
        assert(lines.subrange(0, m).drop_last() =~= lines.subrange(0, m - 1));
        lemma_rules_first(lines, m - 1);
        if !(forall|j: int| 0 <= j < m - 1 ==> is_skipped(#[trigger] trim(lines[j]))) {
            assert(!(forall|j: int| 0 <= j < m ==> is_skipped(#[trigger] trim(lines[j]))));
        }
    } else {
        assert(lines.subrange(0, 0) =~= Seq::<Seq<char>>::empty());
    }
}

/// A rule line that comes before any header is refused with `NotInSection`
/// on line 0, whatever it holds: here line `k` of the text is a rule, and
/// every line before it is skipped or a rule too.
pub proof fn lemma_rule_before_header(s: Seq<char>, k: int)
    requires
        0 <= k < split_char(s, '\n').len(),
        !is_skipped(trim(split_char(s, '\n')[k])),
        is_rule(trim(split_char(s, '\n')[k])),
        forall|j: int|
            0 <= j < k ==> is_skipped(#[trigger] trim(split_char(s, '\n')[j])) || is_rule(
                trim(split_char(s, '\n')[j]),
            ),
    ensures
        parse_source(s) == Err::<AutomatonView, (nat, Fault)>((0, Fault::NotInSection)),
{
    let lines = split_char(s, '\n');
    lemma_rules_first(lines, k + 1);
    lemma_fault_persists(lines, k + 1, (0, Fault::NotInSection));
}

/// A header line that carries a `start` modifier.
pub open spec fn marks_start(l: Seq<char>) -> bool {
    &&& !is_skipped(l)
    &&& !is_rule(l)
    &&& exists|i: int|
        0 <= i < header_modifiers(l).len() && #[trigger] trim(header_modifiers(l)[i])
            == start_word()
}

proof fn lemma_modifiers_keep_start(
    mods: Seq<Seq<char>>,
    id: Seq<char>,
    start: Option<Seq<char>>,
)
    requires
        forall|i: int| 0 <= i < mods.len() ==> #[trigger] trim(mods[i]) != start_word(),
    ensures
        apply_modifiers(mods, id, start) is Ok ==> apply_modifiers(mods, id, start)->Ok_0.1
            == start,
    decreases mods.len(),
{
    if mods.len() > 0 {
        let init = mods.drop_last();
        assert forall|i: int| 0 <= i < init.len() implies #[trigger] trim(init[i])
            != start_word() by {
            assert(init[i] == mods[i]);
        }
        lemma_modifiers_keep_start(init, id, start);
        assert(trim(mods[mods.len() - 1]) != start_word());
    }
}

proof fn lemma_no_start_prefix(lines: Seq<Seq<char>>, m: int)
    requires
        0 <= m <= lines.len(),
        forall|j: int| 0 <= j < lines.len() ==> !marks_start(#[trigger] trim(lines[j])),
    ensures
        feed_all(lines.subrange(0, m)) is Ok ==> feed_all(lines.subrange(0, m))->Ok_0.start
            is None,
    decreases m,
{
    if m > 0 {
        let prev = lines.subrange(0, m - 1);
        assert(lines.subrange(0, m).drop_last() =~= prev);
        lemma_no_start_prefix(lines, m - 1);
        let l = trim(lines[m - 1]);
        assert(!marks_start(l));
        if !is_skipped(l) && !is_rule(l) {
            let mods = header_modifiers(l);
            assert forall|i: int| 0 <= i < mods.len() implies #[trigger] trim(mods[i])
                != start_word() by {}
            if feed_all(prev) is Ok {
                lemma_modifiers_keep_start(mods, header_id(l), feed_all(prev)->Ok_0.start);
            }
        }
    } else {
        assert(lines.subrange(0, 0) =~= Seq::<Seq<char>>::empty());
    }
}

/// A text in which no header carries `start` is refused: with `NoStartState`
/// on line 0 once every line has been read, or earlier with a fault of a
/// line.
pub proof fn lemma_no_start(s: Seq<char>)
    requires
        forall|j: int|
            0 <= j < split_char(s, '\n').len() ==> !marks_start(
                #[trigger] trim(split_char(s, '\n')[j]),
            ),
    ensures
        parse_source(s) is Err,
        feed_all(split_char(s, '\n')) is Ok ==> parse_source(s) == Err::<
            AutomatonView,
            (nat, Fault),
        >((0, Fault::NoStartState)),
{
    let lines = split_char(s, '\n');
    lemma_no_start_prefix(lines, lines.len() as int);
    assert(lines.subrange(0, lines.len() as int) =~= lines);
}

} // verus!
