//! The source language.
//!
//! The text is split at `\n` into lines; each line is trimmed, and blank
//! lines and lines starting with `//` are skipped. Lines are numbered from 0
//! among those that are not skipped. A line holding `=>` is a rule
//! `<symbols> => <target>`: every non-whitespace character on the left leads
//! from the current state to the target. Any other line opens a state:
//! `<id> # <modifier> # ...`, with modifiers `start`, `end` and `catch`.

use crate::assoc::{keys_distinct, lemma_to_map_push, lemma_to_map_update, to_map};
use crate::text::{
    chars_between, chars_of, find_arrow, find_arrow_from, find_char, find_char_from,
    is_whitespace, is_word, is_ws, split_char, string_of, trim,
    trim_bounds,
};
use crate::{
    find_node, find_transition, node_pairs, transition_pairs, Automaton, AutomatonView, Id,
    Node, NodeView, Role,
};
use vstd::prelude::*;

verus! {

/// Why a source text was refused.
#[derive(Debug, PartialEq, Eq)]
pub struct ParseError {
    /// The number of the offending line among the lines that are not skipped.
    pub on_line: usize,
    pub reason: ParseErrorReason,
}

#[derive(Debug, PartialEq, Eq)]
pub enum ParseErrorReason {
    /// A rule has nothing before `=>`.
    MissingChars,
    /// A rule has nothing after `=>`.
    MissingTarget,
    /// A rule comes before any state was opened.
    NotInSection,
    /// Kept for a quoted-symbol syntax; no line of the language gives it.
    EmptyChar,
    /// No state carries `start`.
    NoStartState,
    /// A modifier other than `start`, `end` or `catch`.
    UnknownModifier(String),
}

pub ghost enum Fault {
    MissingChars,
    MissingTarget,
    NotInSection,
    EmptyChar,
    NoStartState,
    UnknownModifier(Seq<char>),
}

impl View for ParseErrorReason {
    type V = Fault;

    open spec fn view(&self) -> Fault {
        match self {
            ParseErrorReason::MissingChars => Fault::MissingChars,
            ParseErrorReason::MissingTarget => Fault::MissingTarget,
            ParseErrorReason::NotInSection => Fault::NotInSection,
            ParseErrorReason::EmptyChar => Fault::EmptyChar,
            ParseErrorReason::NoStartState => Fault::NoStartState,
            ParseErrorReason::UnknownModifier(m) => Fault::UnknownModifier(m@),
        }
    }
}

impl View for ParseError {
    type V = (nat, Fault);

    open spec fn view(&self) -> (nat, Fault) {
        (self.on_line as nat, self.reason@)
    }
}

/// What the lines read so far have built: the states, the state that rules
/// add to, the start state, and the number of lines counted.
pub ghost struct Draft {
    pub nodes: Map<Seq<char>, NodeView>,
    pub current: Option<Seq<char>>,
    pub start: Option<Seq<char>>,
    pub line: nat,
}

pub open spec fn start_word() -> Seq<char> {
    seq!['s', 't', 'a', 'r', 't']
}

pub open spec fn end_word() -> Seq<char> {
    seq!['e', 'n', 'd']
}

pub open spec fn catch_word() -> Seq<char> {
    seq!['c', 'a', 't', 'c', 'h']
}

/// A line that is read as nothing: blank, or a comment.
pub open spec fn is_skipped(l: Seq<char>) -> bool {
    l.len() == 0 || (l.len() >= 2 && l[0] == '/' && l[1] == '/')
}

pub open spec fn is_rule(l: Seq<char>) -> bool {
    find_arrow(l, 0) < l.len()
}

/// The trimmed text before the first `=>`.
pub open spec fn rule_symbols(l: Seq<char>) -> Seq<char> {
    trim(l.subrange(0, find_arrow(l, 0)))
}

/// The trimmed text between the first `=>` and the next one, or the end.
pub open spec fn rule_target(l: Seq<char>) -> Seq<char> {
    let p = find_arrow(l, 0);
    trim(l.subrange(p + 2, find_arrow(l, p + 2)))
}

/// `t` with each non-whitespace character of `symbols` leading to `target`.
pub open spec fn add_symbols(
    t: Map<char, Seq<char>>,
    symbols: Seq<char>,
    target: Seq<char>,
) -> Map<char, Seq<char>>
    decreases symbols.len(),
{
    if symbols.len() == 0 {
        t
    } else {
        let init = add_symbols(t, symbols.drop_last(), target);
        if is_ws(symbols.last()) {
            init
        } else {
            init.insert(symbols.last(), target)
        }
    }
}

pub open spec fn read_rule(d: Draft, l: Seq<char>) -> Result<Draft, Fault> {
    match d.current {
        None => Err(Fault::NotInSection),
        Some(cur) => {
            let symbols = rule_symbols(l);
            let target = rule_target(l);
            if symbols.len() == 0 {
                Err(Fault::MissingChars)
            } else if target.len() == 0 {
                Err(Fault::MissingTarget)
            } else {
                let node = d.nodes[cur];
                Ok(
                    Draft {
                        nodes: d.nodes.insert(
                            cur,
                            NodeView {
                                transitions: add_symbols(node.transitions, symbols, target),
                                role: node.role,
                            },
                        ),
                        current: d.current,
                        start: d.start,
                        line: d.line,
                    },
                )
            }
        },
    }
}

/// The effect of one trimmed modifier `m` of the state `id` on its role and
/// on the start state.
pub open spec fn apply_modifier(
    acc: (Role, Option<Seq<char>>),
    m: Seq<char>,
    id: Seq<char>,
) -> Result<(Role, Option<Seq<char>>), Fault> {
    if m == start_word() {
        Ok((acc.0, Some(id)))
    } else if m == end_word() {
        Ok((Role::End, acc.1))
    } else if m == catch_word() {
        Ok((Role::Catch, acc.1))
    } else {
        Err(Fault::UnknownModifier(m))
    }
}

pub open spec fn apply_modifiers(
    mods: Seq<Seq<char>>,
    id: Seq<char>,
    start: Option<Seq<char>>,
) -> Result<(Role, Option<Seq<char>>), Fault>
    decreases mods.len(),
{
    if mods.len() == 0 {
        Ok((Role::Ordinary, start))
    } else {
        match apply_modifiers(mods.drop_last(), id, start) {
            Err(f) => Err(f),
            Ok(acc) => apply_modifier(acc, trim(mods.last()), id),
        }
    }
}

/// The state that a header line names: the trimmed text before the first `#`.
pub open spec fn header_id(l: Seq<char>) -> Seq<char> {
    trim(l.subrange(0, find_char(l, '#', 0)))
}

/// The `#`-separated pieces after the first `#`, untrimmed.
pub open spec fn header_modifiers(l: Seq<char>) -> Seq<Seq<char>> {
    let p = find_char(l, '#', 0);
    if p < l.len() {
        split_char(l.subrange(p + 1, l.len() as int), '#')
    } else {
        seq![]
    }
}

/// A header opens a fresh state under its identifier, replacing any state
/// of that name, and makes it the current one.
pub open spec fn read_header(d: Draft, l: Seq<char>) -> Result<Draft, Fault> {
    let id = header_id(l);
    match apply_modifiers(header_modifiers(l), id, d.start) {
        Err(f) => Err(f),
        Ok(acc) => Ok(
            Draft {
                nodes: d.nodes.insert(id, NodeView { transitions: Map::empty(), role: acc.0 }),
                current: Some(id),
                start: acc.1,
                line: d.line,
            },
        ),
    }
}

/// Reading one untrimmed line of the source.
pub open spec fn feed(r: Result<Draft, (nat, Fault)>, raw: Seq<char>) -> Result<
    Draft,
    (nat, Fault),
> {
    match r {
        Err(e) => Err(e),
        Ok(d) => {
            let l = trim(raw);
            if is_skipped(l) {
                Ok(d)
            } else {
                let read = if is_rule(l) {
                    read_rule(d, l)
                } else {
                    read_header(d, l)
                };
                match read {
                    Err(f) => Err((d.line, f)),
                    Ok(d2) => Ok(
                        Draft { nodes: d2.nodes, current: d2.current, start: d2.start, line: d.line + 1 },
                    ),
                }
            }
        },
    }
}

pub open spec fn empty_draft() -> Draft {
    Draft { nodes: Map::empty(), current: None, start: None, line: 0 }
}

pub open spec fn feed_all(lines: Seq<Seq<char>>) -> Result<Draft, (nat, Fault)>
    decreases lines.len(),
{
    if lines.len() == 0 {
        Ok(empty_draft())
    } else {
        feed(feed_all(lines.drop_last()), lines.last())
    }
}

/// The automaton that the source text `s` describes, or the first fault in it
/// with its line.
pub open spec fn parse_source(s: Seq<char>) -> Result<AutomatonView, (nat, Fault)> {
    match feed_all(split_char(s, '\n')) {
        Err(e) => Err(e),
        Ok(d) => match d.start {
            None => Err((0, Fault::NoStartState)),
            Some(start_at) => Ok(AutomatonView { nodes: d.nodes, start_at }),
        },
    }
}

} // verus!

verus! {

/// Makes `ch` lead to `target` in `t`, replacing an earlier entry for `ch`.
fn set_transition(t: &mut Vec<(char, Id)>, ch: char, target: Id)
    requires
        keys_distinct(transition_pairs(old(t)@)),
    ensures
        keys_distinct(transition_pairs(final(t)@)),
        to_map(transition_pairs(final(t)@)) == to_map(transition_pairs(old(t)@)).insert(
            ch,
            target@,
        ),
{
    let ghost tv = target@;
    match find_transition(t, ch) {
        Some(i) => {
            proof {
                lemma_to_map_update(transition_pairs(t@), i as int, tv);
            }
            let ghost before = t@;
            t.set(i, (ch, target));
            assert(transition_pairs(t@) =~= transition_pairs(before).update(
                i as int,
                (ch, tv),
            ));
        },
        None => {
            proof {
                lemma_to_map_push(transition_pairs(t@), ch, tv);
            }
            let ghost before = t@;
            t.push((ch, target));
            assert(transition_pairs(t@) =~= transition_pairs(before).push((ch, tv)));
        },
    }
}

proof fn lemma_update_keeps_wf(nodes: Seq<(Id, Node)>, k: int, e: (Id, Node))
    requires
        0 <= k < nodes.len(),
        keys_distinct(node_pairs(nodes)),
        forall|i: int| 0 <= i < nodes.len() && i != k ==> (#[trigger] nodes[i]).1.wf(),
        e.1.wf(),
        e.0@ == nodes[k].0@,
    ensures
        keys_distinct(node_pairs(nodes.update(k, e))),
        forall|i: int| 0 <= i < nodes.len() ==> (#[trigger] nodes.update(k, e)[i]).1.wf(),
{
    let u = nodes.update(k, e);
    assert forall|i: int, j: int| 0 <= i < j < u.len() implies node_pairs(u)[i].0 != node_pairs(
        u,
    )[j].0 by {
        assert(node_pairs(u)[i].0 == node_pairs(nodes)[i].0);
        assert(node_pairs(u)[j].0 == node_pairs(nodes)[j].0);
    }
}

proof fn lemma_push_keeps_wf(nodes: Seq<(Id, Node)>, e: (Id, Node))
    requires
        keys_distinct(node_pairs(nodes)),
        forall|i: int| 0 <= i < nodes.len() ==> (#[trigger] nodes[i]).1.wf(),
        forall|i: int| 0 <= i < nodes.len() ==> nodes[i].0@ != e.0@,
        e.1.wf(),
    ensures
        keys_distinct(node_pairs(nodes.push(e))),
        forall|i: int| 0 <= i < nodes.len() + 1 ==> (#[trigger] nodes.push(e)[i]).1.wf(),
{
    let u = nodes.push(e);
    assert forall|i: int, j: int| 0 <= i < j < u.len() implies node_pairs(u)[i].0 != node_pairs(
        u,
    )[j].0 by {
        assert(node_pairs(u)[i].0 == u[i].0@);
        assert(node_pairs(u)[j].0 == u[j].0@);
        assert(u[i] == nodes[i]);
        if j < nodes.len() {
            assert(u[j] == nodes[j]);
            assert(node_pairs(nodes)[i].0 != node_pairs(nodes)[j].0);
        }
    }
    assert forall|i: int| 0 <= i < nodes.len() + 1 implies (#[trigger] u[i]).1.wf() by {
        if i < nodes.len() {
            assert(u[i] == nodes[i]);
        }
    }
}

/// The parser's state between lines.
struct Sections {
    nodes: Vec<(Id, Node)>,
    /// Where the current state's entry stands in `nodes`.
    current: Option<usize>,
    start: Option<Id>,
    line: usize,
}

impl Sections {
    spec fn wf(&self) -> bool {
        &&& keys_distinct(node_pairs(self.nodes@))
        &&& forall|i: int| 0 <= i < self.nodes.len() ==> (#[trigger] self.nodes@[i]).1.wf()
        &&& match self.current {
            Some(k) => {
                &&& k < self.nodes.len()
                &&& forall|j: int|
                    k < j < self.nodes.len() ==> self.nodes@[j].0@ != self.nodes@[k as int].0@
            },
            None => true,
        }
    }

    spec fn view(&self) -> Draft {
        Draft {
            nodes: to_map(node_pairs(self.nodes@)),
            current: match self.current {
                Some(k) => Some(self.nodes@[k as int].0@),
                None => None,
            },
            start: match self.start {
                Some(id) => Some(id@),
                None => None,
            },
            line: self.line as nat,
        }
    }

    /// Replaces the entry at `k`, the last one with its identifier, keeping
    /// the identifier.
    fn replace_node(&mut self, k: usize, id: Id, node: Node)
        requires
            k < old(self).nodes.len(),
            id@ == old(self).nodes@[k as int].0@,
            forall|j: int|
                k < j < old(self).nodes.len() ==> old(self).nodes@[j].0@ != old(
                    self,
                ).nodes@[k as int].0@,
        ensures
            final(self).nodes@ == old(self).nodes@.update(k as int, (id, node)),
            final(self).nodes.len() == old(self).nodes.len(),
            forall|j: int|
                0 <= j < final(self).nodes.len() ==> final(self).nodes@[j].0@ == old(
                    self,
                ).nodes@[j].0@,
            to_map(node_pairs(final(self).nodes@)) == to_map(node_pairs(old(self).nodes@)).insert(
                id@,
                node@,
            ),
            final(self).current == old(self).current,
            final(self).start == old(self).start,
            final(self).line == old(self).line,
    {
        let ghost before = self.nodes@;
        let ghost entry = (id@, node@);
        proof {
            lemma_to_map_update(node_pairs(before), k as int, node@);
        }
        self.nodes.set(k, (id, node));
        assert(node_pairs(self.nodes@) =~= node_pairs(before).update(k as int, entry));
    }

    fn read_rule(&mut self, l: &Vec<char>, p: usize) -> (r: Result<(), ParseErrorReason>)
        requires
            old(self).wf(),
            p == find_arrow(l@, 0),
            p < l.len(),
            p + 1 < l.len(),
        ensures
            final(self).wf(),
            final(self).line == old(self).line,
            match r {
                Ok(()) => read_rule(old(self).view(), l@) == Ok::<Draft, Fault>(final(self).view()),
                Err(e) => read_rule(old(self).view(), l@) == Err::<Draft, Fault>(e@),
            },
    {
        let k = match self.current {
            None => {
                return Err(ParseErrorReason::NotInSection);
            },
            Some(k) => k,
        };
        proof {
            crate::assoc::lemma_to_map_last(node_pairs(self.nodes@), k as int);
        }
        let q = find_arrow_from(l, p + 2);
        let (a, b) = trim_bounds(l, 0, p);
        let (c, d) = trim_bounds(l, p + 2, q);
        if a == b {
            return Err(ParseErrorReason::MissingChars);
        }
        if c == d {
            return Err(ParseErrorReason::MissingTarget);
        }
        let target_chars = chars_between(l, c, d);
        let target = Id(string_of(target_chars.as_slice()));
        let ghost old_view = self.view();
        let ghost old_trans = self.nodes@[k as int].1@.transitions;
        let role = self.nodes[k].1.role;
        let id = self.nodes[k].0.duplicate();
        let ghost pre = self.nodes@;
        let mut transitions: Vec<(char, Id)> = Vec::new();
        std::mem::swap(&mut transitions, &mut self.nodes[k].1.transitions);
        proof {
            let emptied = self.nodes@[k as int].1@;
            assert(node_pairs(self.nodes@) =~= node_pairs(pre).update(k as int, (id@, emptied)));
            lemma_to_map_update(node_pairs(pre), k as int, emptied);
        }
        let ghost mid = to_map(node_pairs(self.nodes@));
        assert(to_map(transition_pairs(transitions@)) == old_trans);
        assert(pre[k as int].1.wf());
        let mut j = a;
        while j < b
            invariant
                a <= j <= b <= l.len(),
                keys_distinct(transition_pairs(transitions@)),
                to_map(transition_pairs(transitions@)) == add_symbols(
                    old_trans,
                    l@.subrange(a as int, j as int),
                    target@,
                ),
            decreases b - j,
        {
            assert(l@.subrange(a as int, j + 1).drop_last() =~= l@.subrange(a as int, j as int));
            if !is_whitespace(l[j]) {
                set_transition(&mut transitions, l[j], target.duplicate());
            }
            j = j + 1;
        }
        assert(l@.subrange(a as int, b as int) == rule_symbols(l@));
        assert(target@ == rule_target(l@));
        assert(old_view.current == Some(id@));
        assert(old_view.nodes[id@].role == role);
        assert(old_view.nodes[id@].transitions == old_trans);
        let node = Node { transitions, role };
        let ghost nv = node@;
        let ghost entry = (id, node);
        self.replace_node(k, id, node);
        proof {
            assert(self.nodes@ =~= pre.update(k as int, entry));
            lemma_update_keeps_wf(pre, k as int, entry);
        }
        assert(to_map(node_pairs(self.nodes@)) =~= old_view.nodes.insert(id@, nv));
        Ok(())
    }

    /// Reads the header line `l` (trimmed, holding no `=>`).
    fn read_header(&mut self, l: &Vec<char>) -> (r: Result<(), ParseErrorReason>)
        requires
            old(self).wf(),
        ensures
            final(self).wf(),
            final(self).line == old(self).line,
            match r {
                Ok(()) => read_header(old(self).view(), l@) == Ok::<Draft, Fault>(
                    final(self).view(),
                ),
                Err(e) => read_header(old(self).view(), l@) == Err::<Draft, Fault>(e@),
            },
    {
        let ghost st0 = self.view().start;
        let p = find_char_from(l, '#', 0);
        let (a, b) = trim_bounds(l, 0, p);
        let id_chars = chars_between(l, a, b);
        let id = Id(string_of(id_chars.as_slice()));
        assert(id@ == header_id(l@));
        let mut role = Role::Ordinary;
        let mut marked = false;
        let mut failure: Option<ParseErrorReason> = None;
        if p < l.len() {
            let ghost rest = l@.subrange(p + 1, l@.len() as int);
            let mut seg = p + 1;
            let mut k = p + 1;
            assert(l@.subrange(p + 1, k as int) =~= Seq::<char>::empty());
            while k < l.len()
                invariant
                    p < seg <= k <= l.len(),
                    split_char(l@.subrange(p + 1, k as int), '#').len() >= 1,
                    split_char(l@.subrange(p + 1, k as int), '#').last() == l@.subrange(
                        seg as int,
                        k as int,
                    ),
                    apply_modifiers(
                        split_char(l@.subrange(p + 1, k as int), '#').drop_last(),
                        id@,
                        st0,
                    ) == match failure {
                        None => Ok::<(Role, Option<Seq<char>>), Fault>(
                            (
                                role,
                                if marked {
                                    Some(id@)
                                } else {
                                    st0
                                },
                            ),
                        ),
                        Some(e) => Err(e@),
                    },
                decreases l.len() - k,
            {
                let ghost before = split_char(l@.subrange(p + 1, k as int), '#');
                assert(l@.subrange(p + 1, k + 1).drop_last() =~= l@.subrange(p + 1, k as int));
                if l[k] == '#' {
                    assert(split_char(l@.subrange(p + 1, k + 1), '#') =~= before.push(Seq::empty()));
                    assert(before.push(Seq::<char>::empty()).drop_last() =~= before);
                    assert(before =~= before.drop_last().push(before.last()));
                    if failure.is_none() {
                        match read_modifier(l, seg, k, role, Ghost(id@), Ghost(if marked {
                            Some(id@)
                        } else {
                            st0
                        })) {
                            Err(e) => {
                                failure = Some(e);
                            },
                            Ok((ro, m)) => {
                                role = ro;
                                marked = marked || m;
                            },
                        }
                    }
                    seg = k + 1;
                    assert(l@.subrange(seg as int, k + 1) =~= Seq::<char>::empty());
                } else {
                    assert(l@.subrange(seg as int, k + 1) =~= l@.subrange(seg as int, k as int).push(l@[k as int]));
                    assert(split_char(l@.subrange(p + 1, k + 1), '#').drop_last() =~= before.drop_last());
                }
                k = k + 1;
            }
            let ghost all = split_char(l@.subrange(p + 1, k as int), '#');
            assert(all =~= all.drop_last().push(all.last()));
            assert(all.drop_last().push(all.last()).drop_last() =~= all.drop_last());
            if let Some(e) = failure {
                return Err(e);
            }
            match read_modifier(l, seg, k, role, Ghost(id@), Ghost(if marked {
                Some(id@)
            } else {
                st0
            })) {
                Err(e) => {
                    return Err(e);
                },
                Ok((ro, m)) => {
                    role = ro;
                    marked = marked || m;
                },
            }
            assert(l@.subrange(p + 1, k as int) =~= rest);
        }
        if marked {
            self.start = Some(id.duplicate());
        }
        let ghost nodes_before = to_map(node_pairs(self.nodes@));
        let node = Node { transitions: Vec::new(), role };
        let ghost nv = node@;
        assert(nv.transitions =~= Map::<char, Seq<char>>::empty());
        match find_node(&self.nodes, &id) {
            Some(k) => {
                let ghost before = self.nodes@;
                let ghost entry = (id, node);
                self.replace_node(k, id, node);
                proof {
                    lemma_update_keeps_wf(before, k as int, entry);
                }
                self.current = Some(k);
            },
            None => {
                let ghost before = self.nodes@;
                proof {
                    lemma_to_map_push(node_pairs(before), id@, nv);
                }
                let ghost entry = (id, node);
                self.nodes.push((id, node));
                assert(node_pairs(self.nodes@) =~= node_pairs(before).push((id@, nv)));
                proof {
                    assert(self.nodes@ =~= before.push(entry));
                    lemma_push_keeps_wf(before, entry);
                }
                self.current = Some(self.nodes.len() - 1);
            },
        }
        Ok(())
    }

    /// Reads the untrimmed line `v[lo..hi]`.
    fn read_line(&mut self, v: &Vec<char>, lo: usize, hi: usize) -> (r: Result<
        (),
        ParseErrorReason,
    >)
        requires
            old(self).wf(),
            lo <= hi <= v.len(),
            old(self).line <= lo,
        ensures
            final(self).wf(),
            final(self).line <= hi,
            match r {
                Ok(()) => {
                    &&& feed(Ok(old(self).view()), v@.subrange(lo as int, hi as int)) == Ok::<
                        Draft,
                        (nat, Fault),
                    >(final(self).view())
                    &&& final(self).line <= hi
                },
                Err(e) => feed(Ok(old(self).view()), v@.subrange(lo as int, hi as int)) == Err::<
                    Draft,
                    (nat, Fault),
                >((old(self).line as nat, e@)),
            },
    {
        let (a, b) = trim_bounds(v, lo, hi);
        let l = chars_between(v, a, b);
        if l.len() == 0 || (l.len() >= 2 && l[0] == '/' && l[1] == '/') {
            return Ok(());
        }
        let p = find_arrow_from(&l, 0);
        let read = if p < l.len() {
            self.read_rule(&l, p)
        } else {
            self.read_header(&l)
        };
        match read {
            Err(e) => Err(e),
            Ok(()) => {
                self.line = self.line + 1;
                Ok(())
            },
        }
    }
}

/// Reads the modifier `l[lo..hi]` (untrimmed) of the state `id`, given the
/// role so far; says whether it was `start`.
fn read_modifier(
    l: &Vec<char>,
    lo: usize,
    hi: usize,
    role: Role,
    id: Ghost<Seq<char>>,
    start: Ghost<Option<Seq<char>>>,
) -> (r: Result<(Role, bool), ParseErrorReason>)
    requires
        lo <= hi <= l.len(),
    ensures
        match r {
            Ok((ro, marks)) => apply_modifier((role, start@), trim(l@.subrange(lo as int, hi as int)), id@)
                == Ok::<(Role, Option<Seq<char>>), Fault>(
                (
                    ro,
                    if marks {
                        Some(id@)
                    } else {
                        start@
                    },
                ),
            ),
            Err(e) => apply_modifier((role, start@), trim(l@.subrange(lo as int, hi as int)), id@)
                == Err::<(Role, Option<Seq<char>>), Fault>(e@),
        },
{
    let (a, b) = trim_bounds(l, lo, hi);
    let start_w = ['s', 't', 'a', 'r', 't'];
    let end_w = ['e', 'n', 'd'];
    let catch_w = ['c', 'a', 't', 'c', 'h'];
    assert(start_w@ =~= start_word());
    assert(end_w@ =~= end_word());
    assert(catch_w@ =~= catch_word());
    if is_word(l, a, b, start_w.as_slice()) {
        Ok((role, true))
    } else if is_word(l, a, b, end_w.as_slice()) {
        Ok((Role::End, false))
    } else if is_word(l, a, b, catch_w.as_slice()) {
        Ok((Role::Catch, false))
    } else {
        let m = chars_between(l, a, b);
        Err(ParseErrorReason::UnknownModifier(string_of(m.as_slice())))
    }
}

/// The start state and the current state of a draft, when set, are defined.
pub open spec fn draft_closed(d: Draft) -> bool {
    &&& d.start is Some ==> d.nodes.contains_key(d.start->0)
    &&& d.current is Some ==> d.nodes.contains_key(d.current->0)
}

proof fn lemma_modifiers_start(mods: Seq<Seq<char>>, id: Seq<char>, start: Option<Seq<char>>)
    ensures
        apply_modifiers(mods, id, start) is Ok ==> {
            ||| apply_modifiers(mods, id, start)->Ok_0.1 == start
            ||| apply_modifiers(mods, id, start)->Ok_0.1 == Some(id)
        },
    decreases mods.len(),
{
    if mods.len() > 0 {
        lemma_modifiers_start(mods.drop_last(), id, start);
    }
}

proof fn lemma_feed_all_closed(lines: Seq<Seq<char>>)
    ensures
        feed_all(lines) is Ok ==> draft_closed(feed_all(lines)->Ok_0),
    decreases lines.len(),
{
    if lines.len() > 0 {
        lemma_feed_all_closed(lines.drop_last());
        let prev = feed_all(lines.drop_last());
        if prev is Ok {
            let l = trim(lines.last());
            if !is_skipped(l) && !is_rule(l) {
                lemma_modifiers_start(header_modifiers(l), header_id(l), prev->Ok_0.start);
            }
        }
    }
}

/// A text that parses names a start state that it defines.
pub proof fn lemma_parsed_start_defined(s: Seq<char>)
    ensures
        parse_source(s) is Ok ==> parse_source(s)->Ok_0.nodes.contains_key(
            parse_source(s)->Ok_0.start_at,
        ),
{
    lemma_feed_all_closed(split_char(s, '\n'));
}

impl Automaton {
    /// Reads an automaton from its source text, or reports the first line
    /// that the language refuses (`NoStartState` comes at line 0, once all
    /// lines are read). An automaton read defines its start state, and has
    /// one entry per state and per symbol of a state.
    pub fn from_str(s: &str) -> (r: Result<Automaton, ParseError>)
        ensures
            match r {
                Ok(a) => parse_source(s@) == Ok::<AutomatonView, (nat, Fault)>(a@),
                Err(e) => parse_source(s@) == Err::<AutomatonView, (nat, Fault)>(e@),
            },
            r is Ok ==> r->Ok_0.wf(),
            r is Ok ==> r->Ok_0@.nodes.contains_key(r->Ok_0@.start_at),
    {
        proof {
            lemma_parsed_start_defined(s@);
        }
        let v = chars_of(s);
        let mut st = Sections { nodes: Vec::new(), current: None, start: None, line: 0 };
        let mut failure: Option<ParseError> = None;
        let mut seg: usize = 0;
        let mut i: usize = 0;
        assert(v@.subrange(0, 0) =~= Seq::<char>::empty());
        assert(split_char(v@.subrange(0, 0), '\n').drop_last() =~= Seq::<Seq<char>>::empty());
        assert(st.view().nodes =~= Map::<Seq<char>, NodeView>::empty());
        while i < v.len()
            invariant
                st.wf(),
                seg <= i <= v.len(),
                st.line <= seg,
                split_char(v@.subrange(0, i as int), '\n').len() >= 1,
                split_char(v@.subrange(0, i as int), '\n').last() == v@.subrange(
                    seg as int,
                    i as int,
                ),
                feed_all(split_char(v@.subrange(0, i as int), '\n').drop_last()) == match failure {
                    None => Ok::<Draft, (nat, Fault)>(st.view()),
                    Some(e) => Err(e@),
                },
            decreases v.len() - i,
        {
            let ghost before = split_char(v@.subrange(0, i as int), '\n');
            assert(v@.subrange(0, i + 1).drop_last() =~= v@.subrange(0, i as int));
            if v[i] == '\n' {
                assert(split_char(v@.subrange(0, i + 1), '\n') =~= before.push(Seq::empty()));
                assert(before.push(Seq::<char>::empty()).drop_last() =~= before);
                assert(before =~= before.drop_last().push(before.last()));
                if failure.is_none() {
                    let on_line = st.line;
                    match st.read_line(&v, seg, i) {
                        Err(reason) => {
                            failure = Some(ParseError { on_line, reason });
                        },
                        Ok(()) => {},
                    }
                }
                seg = i + 1;
                assert(v@.subrange(seg as int, i + 1) =~= Seq::<char>::empty());
            } else {
                assert(v@.subrange(seg as int, i + 1) =~= v@.subrange(seg as int, i as int).push(
                    v@[i as int],
                ));
                assert(split_char(v@.subrange(0, i + 1), '\n').drop_last()
                    =~= before.drop_last());
            }
            i = i + 1;
        }
        let ghost all = split_char(v@.subrange(0, i as int), '\n');
        assert(all =~= all.drop_last().push(all.last()));
        assert(all.drop_last().push(all.last()).drop_last() =~= all.drop_last());
        assert(v@.subrange(0, i as int) =~= s@);
        if let Some(e) = failure {
            return Err(e);
        }
        let on_line = st.line;
        match st.read_line(&v, seg, i) {
            Err(reason) => {
                return Err(ParseError { on_line, reason });
            },
            Ok(()) => {},
        }
        match st.start {
            None => Err(ParseError { on_line: 0, reason: ParseErrorReason::NoStartState }),
            Some(start_at) => Ok(Automaton { nodes: st.nodes, start_at }),
        }
    }
}

} // verus!
