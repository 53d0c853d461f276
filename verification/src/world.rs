//! Matching: a world is one way of walking the graph, at a position of the
//! text with the captures and repetition counts met so far. Worlds are
//! explored breadth first, from every start position.
use vstd::prelude::*;
use std::collections::VecDeque;
use crate::chars::chars_of;
use crate::compile::{compile, compile_pattern, wf_compiled, Compiled};
use vstd::string::StrSliceExecFns;
use crate::graph::{backrefs_ok, copy_vec, view_nodes, Check, CheckV, Node, NodeV};

verus! {

/// One walk of the graph.
pub struct WorldV {
    pub idx: nat,
    pub groups: Seq<Option<(nat, nat)>>,
    pub register: Seq<Option<nat>>,
    pub node: nat,
    pub times: Seq<nat>,
}

/// `s` occurs in `text` at position `idx`.
pub open spec fn occurs_at(text: Seq<char>, idx: nat, s: Seq<char>) -> bool {
    idx + s.len() <= text.len() && text.subrange(idx as int, (idx + s.len()) as int) == s
}

/// The check of the world's node holds at its position.
pub open spec fn passes(g: Seq<NodeV>, text: Seq<char>, w: WorldV) -> bool {
    match g[w.node as int].check {
        CheckV::Start => w.idx == 0,
        CheckV::End(at_end) => !at_end || w.idx == text.len(),
        CheckV::StartGroup(_) => true,
        CheckV::EndGroup(x) => w.register[x as int] is Some,
        CheckV::Static(s) => w.idx < text.len() && occurs_at(text, w.idx, s),
        CheckV::AnyOf(s) => w.idx < text.len() && s.contains(text[w.idx as int]),
        CheckV::NoneOf(s) => w.idx < text.len() && !s.contains(text[w.idx as int]),
        CheckV::MultipleOf(_, _, _, _, _) => true,
        CheckV::SameAs(x) => x < w.groups.len() && match w.groups[x as int] {
            Some((a, b)) => w.idx < text.len() && occurs_at(text, w.idx, text.subrange(a as int, b as int)),
            None => false,
        },
    }
}

/// The world stands at a back-reference to a group that the world does not
/// have.
pub open spec fn bad_ref(g: Seq<NodeV>, w: WorldV) -> bool {
    g[w.node as int].check matches CheckV::SameAs(x) && x >= w.groups.len()
}

/// The world once its node's check has taken effect: a group start or end
/// recorded, a counter raised, or the position moved past what was read.
pub open spec fn advance(g: Seq<NodeV>, w: WorldV) -> WorldV {
    match g[w.node as int].check {
        CheckV::StartGroup(x) => WorldV { register: w.register.update(x as int, Some(w.idx)), ..w },
        CheckV::EndGroup(x) => WorldV {
            groups: w.groups.update(x as int, Some((w.register[x as int].unwrap(), w.idx))),
            ..w
        },
        CheckV::Static(s) => WorldV { idx: w.idx + s.len(), ..w },
        CheckV::AnyOf(_) => WorldV { idx: w.idx + 1, ..w },
        CheckV::NoneOf(_) => WorldV { idx: w.idx + 1, ..w },
        CheckV::MultipleOf(_, c, _, _, _) => WorldV { times: w.times.update(c as int, w.times[c as int] + 1), ..w },
        CheckV::SameAs(x) => match w.groups[x as int] {
            Some((a, b)) => WorldV { idx: (w.idx + (b - a)) as nat, ..w },
            None => w,
        },
        _ => w,
    }
}

/// The nodes to go on with, in the order they are tried. A repetition goes
/// back to its loop target while below its least count, offers both ways
/// within its bounds (the loop first when greedy) and stops beyond them.
pub open spec fn successors(g: Seq<NodeV>, w: WorldV, advanced: WorldV) -> Option<Seq<usize>> {
    let nexts = g[w.node as int].nexts;
    match g[w.node as int].check {
        CheckV::MultipleOf(target, c, lo, hi, greedy) => {
            let t = advanced.times[c as int];
            if t < lo {
                Some(seq![target])
            } else if t <= hi {
                let v = nexts.push(target);
                Some(if greedy { v.reverse() } else { v })
            } else {
                None
            }
        },
        _ => Some(nexts),
    }
}

/// One step of a world: `None` where it dies, else the worlds it turns into.
pub open spec fn step(g: Seq<NodeV>, text: Seq<char>, w: WorldV) -> Option<Seq<WorldV>> {
    if !passes(g, text, w) {
        None
    } else {
        let a = advance(g, w);
        match successors(g, w, a) {
            None => None,
            Some(ns) => Some(ns.map_values(|n: usize| WorldV { node: n as nat, ..a })),
        }
    }
}

/// A world is consistent with a graph and a text: positions within the text,
/// captures as ranges ending no later than the position, tables of the
/// graph's sizes.
pub open spec fn wf_world(c: Compiled, text_len: nat, w: WorldV) -> bool {
    &&& w.idx <= text_len
    &&& w.node < c.nodes.len()
    &&& w.groups.len() == c.ngroups
    &&& w.register.len() == c.ngroups
    &&& w.times.len() == c.nsames
    &&& forall|x: int| 0 <= x < w.groups.len() ==> (#[trigger] w.groups[x] matches Some((a, b)) ==> a <= b <= w.idx)
    &&& forall|x: int| 0 <= x < w.register.len() ==> (#[trigger] w.register[x] matches Some(r) ==> r <= w.idx)
}


/// Every world a step produces is consistent again.
pub proof fn lemma_step_wf(c: Compiled, text: Seq<char>, w: WorldV)
    requires
        wf_compiled(c),
        wf_world(c, text.len(), w),
    ensures
        step(c.nodes, text, w) matches Some(ws) ==> forall|i: int| 0 <= i < ws.len() ==> wf_world(c, text.len(), #[trigger] ws[i]),
{
    let g = c.nodes;
    if let Some(ws) = step(g, text, w) {
        let a = advance(g, w);
        let ns = successors(g, w, a).unwrap();
        assert(check_wf_at(c, w.node as int));
        assert(wf_world(c, text.len(), a)) by {
            match g[w.node as int].check {
                CheckV::EndGroup(x) => {
                    assert forall|y: int| 0 <= y < a.groups.len() implies (#[trigger] a.groups[y] matches Some((p, q)) ==> p <= q <= a.idx) by {
                        if y != x {
                            assert(a.groups[y] == w.groups[y]);
                        }
                    }
                },
                CheckV::StartGroup(x) => {
                    assert forall|y: int| 0 <= y < a.register.len() implies (#[trigger] a.register[y] matches Some(r) ==> r <= a.idx) by {
                        if y != x {
                            assert(a.register[y] == w.register[y]);
                        }
                    }
                },
                CheckV::SameAs(x) => {
                    assert(x < c.ngroups);
                },
                _ => {},
            }
        }
        assert forall|i: int| 0 <= i < ws.len() implies wf_world(c, text.len(), #[trigger] ws[i]) by {
            assert(ws[i] == WorldV { node: ns[i] as nat, ..a });
            let nx = g[w.node as int].nexts;
            match g[w.node as int].check {
                CheckV::MultipleOf(target, cc, lo, hi, greedy) => {
                    let t = a.times[cc as int];
                    if t < lo {
                    } else {
                        let v = nx.push(target);
                        if greedy {
                            assert(ns[i] == v[v.len() - 1 - i]);
                        }
                        let k = if greedy { v.len() - 1 - i } else { i };
                        if k < nx.len() {
                            assert(v[k] == nx[k]);
                            assert(nx[k] < g.len());
                        }
                    }
                },
                _ => {
                    assert(nx[i] < g.len());
                },
            }
        }
    }
}

pub open spec fn check_wf_at(c: Compiled, i: int) -> bool {
    crate::graph::check_wf(c.nodes[i].check, c.nodes.len(), c.ngroups, c.nsames)
}

} // verus!

verus! {

/// What a world has captured: each group's text, or the empty text for a
/// group that did not take part.
pub open spec fn captures(text: Seq<char>, w: WorldV) -> Seq<Seq<char>> {
    w.groups.map_values(
        |g: Option<(nat, nat)>|
            match g {
                Some((a, b)) => text.subrange(a as int, b as int),
                None => Seq::<char>::empty(),
            },
    )
}

/// The world has reached the node that completes a match.
pub open spec fn is_final(g: Seq<NodeV>, w: WorldV) -> bool {
    g[w.node as int].check == CheckV::End(false)
}

/// The worlds a step produced, in order: a completed match is recorded once
/// (unless an equal one was), any other world joins the back of the queue.
pub open spec fn absorb(
    g: Seq<NodeV>,
    text: Seq<char>,
    kids: Seq<WorldV>,
    q: Seq<WorldV>,
    found: Seq<Seq<Seq<char>>>,
) -> (Seq<WorldV>, Seq<Seq<Seq<char>>>)
    decreases kids.len(),
{
    if kids.len() == 0 {
        (q, found)
    } else {
        let (q1, f1) = absorb(g, text, kids.drop_last(), q, found);
        let k = kids.last();
        if is_final(g, k) {
            let r = captures(text, k);
            (q1, if f1.contains(r) { f1 } else { f1.push(r) })
        } else {
            (q1.push(k), f1)
        }
    }
}

/// Breadth-first search for at most `fuel` steps: each step takes the world
/// at the front of the queue. With `first`, the search stops once a match is
/// recorded.
pub open spec fn bfs(
    g: Seq<NodeV>,
    text: Seq<char>,
    q: Seq<WorldV>,
    found: Seq<Seq<Seq<char>>>,
    fuel: nat,
    first: bool,
) -> Seq<Seq<Seq<char>>>
    decreases fuel,
{
    if fuel == 0 || q.len() == 0 || (first && found.len() > 0) {
        found
    } else {
        match step(g, text, q[0]) {
            None => bfs(g, text, q.drop_first(), found, (fuel - 1) as nat, first),
            Some(kids) => {
                let (q2, f2) = absorb(g, text, kids, q.drop_first(), found);
                bfs(g, text, q2, f2, (fuel - 1) as nat, first)
            },
        }
    }
}

/// The search `bfs` makes with the same arguments takes no world that stands
/// at a back-reference to a missing group.
pub open spec fn bfs_safe(
    g: Seq<NodeV>,
    text: Seq<char>,
    q: Seq<WorldV>,
    found: Seq<Seq<Seq<char>>>,
    fuel: nat,
    first: bool,
) -> bool
    decreases fuel,
{
    if fuel == 0 || q.len() == 0 || (first && found.len() > 0) {
        true
    } else if bad_ref(g, q[0]) {
        false
    } else {
        match step(g, text, q[0]) {
            None => bfs_safe(g, text, q.drop_first(), found, (fuel - 1) as nat, first),
            Some(kids) => {
                let (q2, f2) = absorb(g, text, kids, q.drop_first(), found);
                bfs_safe(g, text, q2, f2, (fuel - 1) as nat, first)
            },
        }
    }
}

/// A fresh world at position `idx`, at node 0.
pub open spec fn start_world(ngroups: nat, nsames: nat, idx: nat) -> WorldV {
    WorldV {
        idx,
        groups: Seq::new(ngroups, |i: int| None::<(nat, nat)>),
        register: Seq::new(ngroups, |i: int| None::<nat>),
        node: 0,
        times: Seq::new(nsames, |i: int| 0nat),
    }
}

/// One fresh world for each position of the text but its end (one at 0 for
/// the empty text), in order.
pub open spec fn start_queue(c: Compiled, text_len: nat) -> Seq<WorldV> {
    Seq::new(if text_len == 0 { 1 } else { text_len }, |i: int| start_world(c.ngroups, c.nsames, i as nat))
}

/// How many steps the search takes at most.
pub open spec fn step_budget() -> nat {
    usize::MAX as nat
}

/// All matches of the graph in `text`, each as the list of its captures
/// (group 0 being the whole match), in the order the search finds them,
/// without repeats.
pub open spec fn all_matches(c: Compiled, text: Seq<char>) -> Seq<Seq<Seq<char>>> {
    bfs(c.nodes, text, start_queue(c, text.len()), Seq::empty(), step_budget(), false)
}

/// The search for all matches (or, with `first`, for the first one) never
/// reaches a back-reference to a group the pattern does not have.
pub open spec fn search_safe(c: Compiled, text: Seq<char>, first: bool) -> bool {
    bfs_safe(c.nodes, text, start_queue(c, text.len()), Seq::empty(), step_budget(), first)
}

/// The first match the search finds.
pub open spec fn first_match(c: Compiled, text: Seq<char>) -> Option<Seq<Seq<char>>> {
    let f = bfs(c.nodes, text, start_queue(c, text.len()), Seq::empty(), step_budget(), true);
    if f.len() > 0 {
        Some(f[0])
    } else {
        None
    }
}

} // verus!

verus! {

/// One walk of the graph, as executable data.
pub struct World {
    pub current_idx: usize,
    pub groups: Vec<Option<(usize, usize)>>,
    pub register_group: Vec<Option<usize>>,
    pub current_node: usize,
    pub time_same: Vec<usize>,
}

pub open spec fn range_view(g: Option<(usize, usize)>) -> Option<(nat, nat)> {
    match g {
        Some((a, b)) => Some((a as nat, b as nat)),
        None => None,
    }
}

pub open spec fn pos_view(r: Option<usize>) -> Option<nat> {
    match r {
        Some(x) => Some(x as nat),
        None => None,
    }
}

impl View for World {
    type V = WorldV;

    open spec fn view(&self) -> WorldV {
        WorldV {
            idx: self.current_idx as nat,
            groups: self.groups@.map_values(|g: Option<(usize, usize)>| range_view(g)),
            register: self.register_group@.map_values(|r: Option<usize>| pos_view(r)),
            node: self.current_node as nat,
            times: self.time_same@.map_values(|t: usize| t as nat),
        }
    }
}

pub open spec fn worlds_view(ws: Seq<World>) -> Seq<WorldV> {
    ws.map_values(|w: World| w@)
}

/// The graph a world walks, with the table sizes the world carries.
pub open spec fn graph_of(nodes: Seq<Node>, w: &World) -> Compiled {
    Compiled { nodes: view_nodes(nodes), ngroups: w.groups@.len(), nsames: w.time_same@.len() }
}

pub fn contains_char(s: &Vec<char>, c: char) -> (r: bool)
    ensures
        r == s@.contains(c),
{
    let mut i: usize = 0;
    while i < s.len()
        invariant
            i <= s.len(),
            forall|j: int| 0 <= j < i ==> s@[j] != c,
        decreases s.len() - i,
    {
        if s[i] == c {
            return true;
        }
        i = i + 1;
    }
    false
}

/// Whether `text` holds `text[a..b]` again at position `idx`.
pub fn occurs_range(text: &Vec<char>, idx: usize, a: usize, b: usize) -> (r: bool)
    requires
        a <= b <= text@.len(),
    ensures
        r == occurs_at(text@, idx as nat, text@.subrange(a as int, b as int)),
{
    let n = b - a;
    if idx > text.len() || n > text.len() - idx {
        return false;
    }
    let mut k: usize = 0;
    while k < n
        invariant
            k <= n,
            n == b - a,
            a <= b <= text@.len(),
            idx + n <= text@.len(),
            text@.len() <= usize::MAX,
            forall|j: int| 0 <= j < k ==> #[trigger] text@.subrange(idx as int, idx + n)[j] == text@.subrange(a as int, b as int)[j],
        decreases n - k,
    {
        if text[idx + k] != text[a + k] {
            assert(text@.subrange(idx as int, idx + n)[k as int] != text@.subrange(a as int, b as int)[k as int]);
            return false;
        }
        k = k + 1;
    }
    assert(text@.subrange(idx as int, idx + n) =~= text@.subrange(a as int, b as int));
    true
}

/// Whether `s` occurs in `text` at position `idx`.
pub fn occurs_here(text: &Vec<char>, idx: usize, s: &Vec<char>) -> (r: bool)
    ensures
        r == occurs_at(text@, idx as nat, s@),
{
    let n = s.len();
    if idx > text.len() || n > text.len() - idx {
        return false;
    }
    let mut k: usize = 0;
    while k < n
        invariant
            k <= n,
            n == s@.len(),
            idx + n <= text@.len(),
            text@.len() <= usize::MAX,
            forall|j: int| 0 <= j < k ==> #[trigger] text@.subrange(idx as int, idx + n)[j] == s@[j],
        decreases n - k,
    {
        if text[idx + k] != s[k] {
            assert(text@.subrange(idx as int, idx + n)[k as int] != s@[k as int]);
            return false;
        }
        k = k + 1;
    }
    assert(text@.subrange(idx as int, idx + n) =~= s@);
    true
}

pub fn reversed(v: &Vec<usize>) -> (r: Vec<usize>)
    ensures
        r@ == v@.reverse(),
{
    let mut r: Vec<usize> = Vec::new();
    let mut i: usize = v.len();
    while i > 0
        invariant
            i <= v.len(),
            r@.len() == v@.len() - i,
            forall|j: int| 0 <= j < r@.len() ==> r@[j] == v@[v@.len() - 1 - j],
        decreases i,
    {
        i = i - 1;
        r.push(v[i]);
    }
    assert(r@ =~= v@.reverse());
    r
}

impl World {
    pub fn clone_world(&self) -> (r: World)
        ensures
            r@ == self@,
            r.groups@.len() == self.groups@.len(),
            r.time_same@.len() == self.time_same@.len(),
    {
        World {
            current_idx: self.current_idx,
            groups: copy_vec(&self.groups),
            register_group: copy_vec(&self.register_group),
            current_node: self.current_node,
            time_same: copy_vec(&self.time_same),
        }
    }
}

} // verus!

verus! {

impl World {
    /// One step of this world over `text` in the graph `nodes`: `None` where
    /// the world dies, else the worlds it turns into, in the order to try them.
    pub fn next(self, nodes: &Vec<Node>, text: &Vec<char>) -> (r: Option<Vec<World>>)
        requires
            wf_compiled(graph_of(nodes@, &self)),
            wf_world(graph_of(nodes@, &self), text@.len(), self@),
            forall|j: int| 0 <= j < self.time_same@.len() ==> #[trigger] self.time_same@[j] < usize::MAX,
            !bad_ref(view_nodes(nodes@), self@),
        ensures
            match step(view_nodes(nodes@), text@, self@) {
                None => r is None,
                Some(ws) => r matches Some(v) && worlds_view(v@) == ws
                    && forall|i: int| 0 <= i < v@.len() ==> (#[trigger] v@[i]).groups@.len() == self.groups@.len()
                        && v@[i].time_same@.len() == self.time_same@.len(),
            },
    {
        let mut me = self;
        let ghost g = view_nodes(nodes@);
        let ghost w0 = me@;
        let ghost c = graph_of(nodes@, &me);
        let node = &nodes[me.current_node];
        assert(g[me.current_node as int] == node@);
        assert(crate::graph::check_wf(g[me.current_node as int].check, g.len(), c.ngroups, c.nsames));
        assert(g[me.current_node as int].check matches CheckV::SameAs(x) ==> x < c.ngroups);
        let idx = me.current_idx;
        let pass = match &node.check {
            Check::Start => idx == 0,
            Check::End(at_end) => !*at_end || idx == text.len(),
            Check::StartGroup(_) => true,
            Check::EndGroup(x) => me.register_group[*x].is_some(),
            Check::Static(s) => idx < text.len() && occurs_here(text, idx, s),
            Check::AnyOf(s) => idx < text.len() && contains_char(s, text[idx]),
            Check::NoneOf(s) => idx < text.len() && !contains_char(s, text[idx]),
            Check::MultipleOf(_, _, _, _, _) => true,
            Check::SameAs(x) => match me.groups[*x] {
                Some((a, b)) => {
                    assert(w0.groups[*x as int] == Some((a as nat, b as nat)));
                    idx < text.len() && occurs_range(text, idx, a, b)
                },
                None => false,
            },
        };
        if !pass {
            return None;
        }
        match &node.check {
            Check::StartGroup(x) => {
                me.register_group[*x] = Some(idx);
                assert(me@.register =~= w0.register.update(*x as int, Some(idx as nat)));
            },
            Check::EndGroup(x) => {
                let start = me.register_group[*x].unwrap();
                me.groups[*x] = Some((start, idx));
                assert(me@.groups =~= w0.groups.update(*x as int, Some((start as nat, idx as nat))));
            },
            Check::Static(s) => {
                me.current_idx = idx + s.len();
            },
            Check::AnyOf(_) => {
                me.current_idx = idx + 1;
            },
            Check::NoneOf(_) => {
                me.current_idx = idx + 1;
            },
            Check::MultipleOf(_, k, _, _, _) => {
                let t = me.time_same[*k];
                me.time_same[*k] = t + 1;
                assert(me@.times =~= w0.times.update(*k as int, w0.times[*k as int] + 1));
            },
            Check::SameAs(x) => {
                match me.groups[*x] {
                    Some((a, b)) => {
                        me.current_idx = idx + (b - a);
                    },
                    None => {},
                }
            },
            _ => {},
        }
        let ghost a = me@;
        assert(a == advance(g, w0));
        let succ: Vec<usize> = match &node.check {
            Check::MultipleOf(target, k, lo, hi, greedy) => {
                let t = me.time_same[*k];
                if t < *lo {
                    let mut v = Vec::new();
                    v.push(*target);
                    v
                } else if t <= *hi {
                    let mut v = copy_vec(&node.nexts);
                    v.push(*target);
                    if *greedy {
                        reversed(&v)
                    } else {
                        v
                    }
                } else {
                    return None;
                }
            },
            _ => copy_vec(&node.nexts),
        };
        assert(successors(g, w0, a) == Some(succ@));
        let mut out: Vec<World> = Vec::new();
        let mut i: usize = 0;
        while i < succ.len()
            invariant
                i <= succ@.len(),
                me@ == a,
                out@.len() == i,
                forall|j: int| 0 <= j < i ==> (#[trigger] out@[j])@ == (WorldV { node: succ@[j] as nat, ..a })
                    && out@[j].groups@.len() == me.groups@.len()
                    && out@[j].time_same@.len() == me.time_same@.len(),
            decreases succ@.len() - i,
        {
            let mut w = me.clone_world();
            w.current_node = succ[i];
            out.push(w);
            i = i + 1;
        }
        assert(worlds_view(out@) =~= succ@.map_values(|n: usize| WorldV { node: n as nat, ..a }));
        Some(out)
    }
}

} // verus!

verus! {

pub open spec fn ranges_ok(v: Seq<(usize, usize)>, n: nat) -> bool {
    forall|i: int| #![trigger v[i]] 0 <= i < v.len() ==> v[i].0 <= v[i].1 <= n
}

pub open spec fn ranges_view(text: Seq<char>, v: Seq<(usize, usize)>) -> Seq<Seq<char>> {
    v.map_values(|r: (usize, usize)| text.subrange(r.0 as int, r.1 as int))
}

pub open spec fn found_view(text: Seq<char>, f: Seq<Vec<(usize, usize)>>) -> Seq<Seq<Seq<char>>> {
    f.map_values(|e: Vec<(usize, usize)>| ranges_view(text, e@))
}

pub open spec fn found_ok(f: Seq<Vec<(usize, usize)>>, n: nat) -> bool {
    forall|i: int| 0 <= i < f.len() ==> ranges_ok(#[trigger] f[i]@, n)
}

/// Whether `text[x.0..x.1]` and `text[y.0..y.1]` are the same text.
fn same_span(text: &Vec<char>, x: (usize, usize), y: (usize, usize)) -> (r: bool)
    requires
        x.0 <= x.1 <= text@.len(),
        y.0 <= y.1 <= text@.len(),
    ensures
        r == (text@.subrange(x.0 as int, x.1 as int) == text@.subrange(y.0 as int, y.1 as int)),
{
    if x.1 - x.0 != y.1 - y.0 {
        assert(text@.subrange(x.0 as int, x.1 as int).len() != text@.subrange(y.0 as int, y.1 as int).len());
        return false;
    }
    let n = x.1 - x.0;
    let mut k: usize = 0;
    while k < n
        invariant
            k <= n,
            n == x.1 - x.0,
            n == y.1 - y.0,
            x.0 <= x.1 <= text@.len(),
            y.0 <= y.1 <= text@.len(),
            forall|j: int| 0 <= j < k ==> #[trigger] text@.subrange(x.0 as int, x.1 as int)[j] == text@.subrange(y.0 as int, y.1 as int)[j],
        decreases n - k,
    {
        if text[x.0 + k] != text[y.0 + k] {
            assert(text@.subrange(x.0 as int, x.1 as int)[k as int] != text@.subrange(y.0 as int, y.1 as int)[k as int]);
            return false;
        }
        k = k + 1;
    }
    assert(text@.subrange(x.0 as int, x.1 as int) =~= text@.subrange(y.0 as int, y.1 as int));
    true
}

fn same_captures(text: &Vec<char>, x: &Vec<(usize, usize)>, y: &Vec<(usize, usize)>) -> (r: bool)
    requires
        ranges_ok(x@, text@.len()),
        ranges_ok(y@, text@.len()),
    ensures
        r == (ranges_view(text@, x@) == ranges_view(text@, y@)),
{
    if x.len() != y.len() {
        assert(ranges_view(text@, x@).len() != ranges_view(text@, y@).len());
        return false;
    }
    let mut i: usize = 0;
    while i < x.len()
        invariant
            i <= x@.len(),
            x@.len() == y@.len(),
            ranges_ok(x@, text@.len()),
            ranges_ok(y@, text@.len()),
            forall|j: int| 0 <= j < i ==> #[trigger] ranges_view(text@, x@)[j] == ranges_view(text@, y@)[j],
        decreases x@.len() - i,
    {
        assert(x@[i as int].0 <= x@[i as int].1 <= text@.len());
        assert(y@[i as int].0 <= y@[i as int].1 <= text@.len());
        if !same_span(text, x[i], y[i]) {
            assert(ranges_view(text@, x@)[i as int] != ranges_view(text@, y@)[i as int]);
            return false;
        }
        i = i + 1;
    }
    assert(ranges_view(text@, x@) =~= ranges_view(text@, y@));
    true
}

fn found_contains(text: &Vec<char>, found: &Vec<Vec<(usize, usize)>>, r: &Vec<(usize, usize)>) -> (b: bool)
    requires
        found_ok(found@, text@.len()),
        ranges_ok(r@, text@.len()),
    ensures
        b == found_view(text@, found@).contains(ranges_view(text@, r@)),
{
    let mut i: usize = 0;
    while i < found.len()
        invariant
            i <= found@.len(),
            found_ok(found@, text@.len()),
            ranges_ok(r@, text@.len()),
            forall|j: int| 0 <= j < i ==> #[trigger] found_view(text@, found@)[j] != ranges_view(text@, r@),
        decreases found@.len() - i,
    {
        assert(ranges_ok(found@[i as int]@, text@.len()));
        if same_captures(text, &found[i], r) {
            assert(found_view(text@, found@)[i as int] == ranges_view(text@, r@));
            return true;
        }
        i = i + 1;
    }
    false
}

/// The captured ranges of a world; a group that did not take part reads as
/// the empty range at 0.
fn capture_ranges(w: &World) -> (r: Vec<(usize, usize)>)
    ensures
        r@.len() == w.groups@.len(),
        forall|i: int| 0 <= i < r@.len() ==> #[trigger] r@[i] == (match w.groups@[i] {
            Some((a, b)) => (a, b),
            None => (0usize, 0usize),
        }),
{
    let mut r: Vec<(usize, usize)> = Vec::new();
    let mut i: usize = 0;
    while i < w.groups.len()
        invariant
            i <= w.groups@.len(),
            r@.len() == i,
            forall|j: int| 0 <= j < i ==> #[trigger] r@[j] == (match w.groups@[j] {
                Some((a, b)) => (a, b),
                None => (0usize, 0usize),
            }),
        decreases w.groups@.len() - i,
    {
        match w.groups[i] {
            Some((a, b)) => r.push((a, b)),
            None => r.push((0, 0)),
        }
        i = i + 1;
    }
    r
}

fn fresh_world(ngroups: usize, nsames: usize, idx: usize) -> (w: World)
    ensures
        w@ == start_world(ngroups as nat, nsames as nat, idx as nat),
        w.groups@.len() == ngroups,
        w.time_same@.len() == nsames,
{
    let mut groups: Vec<Option<(usize, usize)>> = Vec::new();
    let mut register: Vec<Option<usize>> = Vec::new();
    let mut i: usize = 0;
    while i < ngroups
        invariant
            i <= ngroups,
            groups@.len() == i,
            register@.len() == i,
            forall|j: int| 0 <= j < i ==> #[trigger] groups@[j] == None::<(usize, usize)>,
            forall|j: int| 0 <= j < i ==> #[trigger] register@[j] == None::<usize>,
        decreases ngroups - i,
    {
        groups.push(None);
        register.push(None);
        i = i + 1;
    }
    let mut times: Vec<usize> = Vec::new();
    let mut k: usize = 0;
    while k < nsames
        invariant
            k <= nsames,
            times@.len() == k,
            forall|j: int| 0 <= j < k ==> #[trigger] times@[j] == 0,
        decreases nsames - k,
    {
        times.push(0);
        k = k + 1;
    }
    let w = World { current_idx: idx, groups, register_group: register, current_node: 0, time_same: times };
    assert(w@.groups =~= start_world(ngroups as nat, nsames as nat, idx as nat).groups);
    assert(w@.register =~= start_world(ngroups as nat, nsames as nat, idx as nat).register);
    assert(w@.times =~= start_world(ngroups as nat, nsames as nat, idx as nat).times);
    w
}

} // verus!

verus! {

/// A step raises each repetition count by at most one.
pub proof fn lemma_step_times(c: Compiled, text: Seq<char>, w: WorldV, bound: nat)
    requires
        wf_compiled(c),
        wf_world(c, text.len(), w),
        forall|j: int| 0 <= j < w.times.len() ==> #[trigger] w.times[j] <= bound,
    ensures
        step(c.nodes, text, w) matches Some(ws) ==> forall|i: int, j: int|
            0 <= i < ws.len() && 0 <= j < ws[i].times.len() ==> #[trigger] ws[i].times[j] <= bound + 1,
{
    let g = c.nodes;
    assert(check_wf_at(c, w.node as int));
    if let Some(ws) = step(g, text, w) {
        let a = advance(g, w);
        assert forall|i: int, j: int| 0 <= i < ws.len() && 0 <= j < ws[i].times.len() implies #[trigger] ws[i].times[j] <= bound + 1 by {
            assert(ws[i].times == a.times);
            match g[w.node as int].check {
                CheckV::MultipleOf(_, c, _, _, _) => {
                    if j == c {
                    } else {
                        assert(a.times[j] == w.times[j]);
                    }
                },
                _ => {},
            }
        }
    }
}

/// The queue the search keeps: consistent worlds of this graph whose counts
/// stay within the number of steps taken.
pub open spec fn queue_ok(c: Compiled, text_len: nat, q: Seq<World>, steps: nat) -> bool {
    forall|i: int|
        0 <= i < q.len() ==> {
            &&& wf_world(c, text_len, (#[trigger] q[i])@)
            &&& q[i].groups@.len() == c.ngroups
            &&& q[i].time_same@.len() == c.nsames
            &&& forall|j: int| 0 <= j < q[i].time_same@.len() ==> #[trigger] q[i].time_same@[j] <= steps
        }
}

/// Runs the breadth-first search of the graph `nodes` over `text`; with
/// `first`, it stops at the first match. Returns the matches as ranges of
/// `text`.
pub(crate) fn search(nodes: &Vec<Node>, ngroups: usize, nsames: usize, text: &Vec<char>, first: bool) -> (r: Vec<Vec<(usize, usize)>>)
    requires
        wf_compiled(Compiled { nodes: view_nodes(nodes@), ngroups: ngroups as nat, nsames: nsames as nat }),
    ensures
        found_view(text@, r@) == bfs(
            view_nodes(nodes@),
            text@,
            start_queue(Compiled { nodes: view_nodes(nodes@), ngroups: ngroups as nat, nsames: nsames as nat }, text@.len()),
            Seq::empty(),
            step_budget(),
            first,
        ),
        found_ok(r@, text@.len()),
{
    let ghost c = Compiled { nodes: view_nodes(nodes@), ngroups: ngroups as nat, nsames: nsames as nat };
    let ghost g = c.nodes;
    let ghost n = text@.len();
    let count = if text.len() == 0 { 1 } else { text.len() };
    let mut queue: VecDeque<World> = VecDeque::new();
    let mut s: usize = 0;
    while s < count
        invariant
            c == (Compiled { nodes: view_nodes(nodes@), ngroups: ngroups as nat, nsames: nsames as nat }),
            wf_compiled(c),
            s <= count,
            count == (if n == 0 { 1 } else { n }),
            n == text@.len(),
            queue@.len() == s,
            forall|i: int| 0 <= i < s ==> (#[trigger] queue@[i])@ == start_world(c.ngroups, c.nsames, i as nat),
            queue_ok(c, n, queue@, 0),
        decreases count - s,
    {
        let w = fresh_world(ngroups, nsames, s);
        let ghost old_q = queue@;
        queue.push_back(w);
        proof {
            assert(queue@[s as int] == w);
            let sw = w@;
            assert(sw == start_world(c.ngroups, c.nsames, s as nat));
            assert(wf_world(c, n, sw)) by {
                assert forall|x: int| 0 <= x < sw.groups.len() implies (#[trigger] sw.groups[x] matches Some((a, b)) ==> a <= b <= sw.idx) by {
                    assert(sw.groups[x] is None);
                }
                assert forall|x: int| 0 <= x < sw.register.len() implies (#[trigger] sw.register[x] matches Some(r) ==> r <= sw.idx) by {
                    assert(sw.register[x] is None);
                }
            }
            assert forall|i: int| 0 <= i < queue@.len() implies {
                &&& wf_world(c, n, (#[trigger] queue@[i])@)
                &&& queue@[i].groups@.len() == c.ngroups
                &&& queue@[i].time_same@.len() == c.nsames
                &&& forall|j: int| 0 <= j < queue@[i].time_same@.len() ==> #[trigger] queue@[i].time_same@[j] <= 0
            } by {
                if i == s {
                    assert forall|j: int| 0 <= j < queue@[i].time_same@.len() implies #[trigger] queue@[i].time_same@[j] <= 0 by {
                        assert(sw.times[j] == w.time_same@[j] as nat);
                    }
                } else {
                    assert(queue@[i] == old_q[i]);
                }
            }
        }
        s = s + 1;
    }
    assert(worlds_view(queue@) =~= start_queue(c, n));
    let mut found: Vec<Vec<(usize, usize)>> = Vec::new();
    assert(found_view(text@, found@) =~= Seq::empty());
    let mut steps: usize = 0;
    loop
        invariant
            g == view_nodes(nodes@),
            c == (Compiled { nodes: view_nodes(nodes@), ngroups: ngroups as nat, nsames: nsames as nat }),
            wf_compiled(c),
            n == text@.len(),
            queue_ok(c, n, queue@, steps as nat),
            found_ok(found@, n),
            bfs(g, text@, start_queue(c, n), Seq::empty(), step_budget(), first)
                == bfs(g, text@, worlds_view(queue@), found_view(text@, found@), (step_budget() - steps) as nat, first),
        decreases step_budget() - steps,
    {
        if steps == usize::MAX || queue.len() == 0 || (first && found.len() > 0) {
            return found;
        }
        let ghost q = worlds_view(queue@);
        let ghost f = found_view(text@, found@);
        let w = queue.pop_front().unwrap();
        assert(worlds_view(queue@) =~= q.drop_first());
        assert(w@ == q[0]);
        assert(queue_ok(c, n, queue@, steps as nat));
        proof {
            lemma_step_wf(c, text@, w@);
            lemma_step_times(c, text@, w@, steps as nat);
            assert forall|j: int| 0 <= j < w.time_same@.len() implies #[trigger] w.time_same@[j] < usize::MAX by {
                assert(w@.times[j] == w.time_same@[j] as nat);
            }
        }
        let ghost wv = w@;
        let ghost wgl = w.groups@.len();
        let ghost wtl = w.time_same@.len();
        let bad = match &nodes[w.current_node].check {
            Check::SameAs(x) => *x >= w.groups.len(),
            _ => false,
        };
        assert(g[wv.node as int] == nodes@[w.current_node as int]@);
        assert(bad == bad_ref(g, wv));
        let stepped = if bad {
            None
        } else {
            w.next(nodes, text)
        };
        match stepped {
            None => {},
            Some(kids) => {
                let ghost all = worlds_view(kids@);
                let ghost q_rest = worlds_view(queue@);
                let mut kids = kids;
                let ghost all_exec = kids@;
                let mut j: usize = 0;
                assert(all.take(0) =~= Seq::<WorldV>::empty());
                let kl = kids.len();
                assert(all_exec.len() == kl);
                proof {
                    let ws = step(g, text@, wv).unwrap();
                    assert forall|i: int| 0 <= i < all_exec.len() implies wf_world(c, n, (#[trigger] all_exec[i])@)
                        && all_exec[i].groups@.len() == c.ngroups
                        && all_exec[i].time_same@.len() == c.nsames
                        && forall|k: int| 0 <= k < all_exec[i].time_same@.len() ==> #[trigger] all_exec[i].time_same@[k] <= steps + 1 by {
                        assert(all_exec[i]@ == ws[i]);
                        assert forall|k: int| 0 <= k < all_exec[i].time_same@.len() implies #[trigger] all_exec[i].time_same@[k] <= steps + 1 by {
                            assert(all_exec[i]@.times[k] == all_exec[i].time_same@[k] as nat);
                            assert(ws[i].times[k] <= steps + 1);
                        }
                    }
                    assert forall|i: int| 0 <= i < queue@.len() implies {
                        &&& wf_world(c, n, (#[trigger] queue@[i])@)
                        &&& queue@[i].groups@.len() == c.ngroups
                        &&& queue@[i].time_same@.len() == c.nsames
                        &&& forall|k: int| 0 <= k < queue@[i].time_same@.len() ==> #[trigger] queue@[i].time_same@[k] <= steps + 1
                    } by {
                        assert(forall|k: int| 0 <= k < queue@[i].time_same@.len() ==> #[trigger] queue@[i].time_same@[k] <= steps);
                    }
                }
                while kids.len() > 0
                    invariant
                        g == view_nodes(nodes@),
                        c == (Compiled { nodes: view_nodes(nodes@), ngroups: ngroups as nat, nsames: nsames as nat }),
                        wf_compiled(c),
                        n == text@.len(),
                        j <= all_exec.len(),
                        all_exec.len() <= usize::MAX,
                        all == worlds_view(all_exec),
                        kids@ == all_exec.skip(j as int),
                        forall|i: int| 0 <= i < all_exec.len() ==> wf_world(c, n, (#[trigger] all_exec[i])@)
                            && all_exec[i].groups@.len() == c.ngroups
                            && all_exec[i].time_same@.len() == c.nsames
                            && forall|k: int| 0 <= k < all_exec[i].time_same@.len() ==> #[trigger] all_exec[i].time_same@[k] <= steps + 1,
                        queue_ok(c, n, queue@, (steps + 1) as nat),
                        found_ok(found@, n),
                        (worlds_view(queue@), found_view(text@, found@)) == absorb(g, text@, all.take(j as int), q_rest, f),
                    decreases kids@.len(),
                {
                    let k = kids.remove(0);
                    assert(k == all_exec[j as int]);
                    assert(all.take(j + 1).drop_last() =~= all.take(j as int));
                    assert(all.take(j + 1).last() == k@);
                    let fin = match &nodes[k.current_node].check {
                        Check::End(at_end) => !*at_end,
                        _ => false,
                    };
                    assert(g[k.current_node as int] == nodes@[k.current_node as int]@);
                    assert(fin == is_final(g, k@));
                    if fin {
                        let r = capture_ranges(&k);
                        proof {
                            assert forall|i: int| #![trigger r@[i]] 0 <= i < r@.len() implies r@[i].0 <= r@[i].1 <= n by {
                                assert(k@.groups[i] == range_view(k.groups@[i]));
                            }
                            assert(ranges_view(text@, r@) =~= captures(text@, k@)) by {
                                assert forall|i: int| 0 <= i < r@.len() implies #[trigger] ranges_view(text@, r@)[i] == captures(text@, k@)[i] by {
                                    assert(k@.groups[i] == range_view(k.groups@[i]));
                                }
                            }
                        }
                        if !found_contains(text, &found, &r) {
                            let ghost before = found@;
                            found.push(r);
                            assert(found_view(text@, found@) =~= found_view(text@, before).push(ranges_view(text@, r@)));
                        }
                    } else {
                        let ghost before = queue@;
                        queue.push_back(k);
                        assert(worlds_view(queue@) =~= worlds_view(before).push(k@));
                    }
                    j = j + 1;
                    assert(kids@ =~= all_exec.skip(j as int));
                }
                assert(all.take(j as int) =~= all);
            },
        }
        steps = steps + 1;
    }
}

} // verus!

verus! {

pub open spec fn strs_view(r: Seq<Vec<&str>>) -> Seq<Seq<Seq<char>>> {
    r.map_values(|v: Vec<&str>| v@.map_values(|s: &str| s@))
}

fn slices_of<'a>(text: &'a str, ranges: &Vec<(usize, usize)>) -> (r: Vec<&'a str>)
    requires
        ranges_ok(ranges@, text@.len()),
    ensures
        r@.map_values(|s: &str| s@) == ranges_view(text@, ranges@),
{
    let mut r: Vec<&'a str> = Vec::new();
    let mut i: usize = 0;
    while i < ranges.len()
        invariant
            i <= ranges@.len(),
            ranges_ok(ranges@, text@.len()),
            r@.len() == i,
            forall|j: int| 0 <= j < i ==> (#[trigger] r@[j])@ == ranges_view(text@, ranges@)[j],
        decreases ranges@.len() - i,
    {
        let (a, b) = ranges[i];
        assert(ranges@[i as int].0 <= ranges@[i as int].1 <= text@.len());
        r.push(text.substring_char(a, b));
        i = i + 1;
    }
    assert(r@.map_values(|s: &str| s@) =~= ranges_view(text@, ranges@));
    r
}

/// The matches, as slices of `text`.
pub fn to_slices<'a>(text: &'a str, found: &Vec<Vec<(usize, usize)>>) -> (r: Vec<Vec<&'a str>>)
    requires
        found_ok(found@, text@.len()),
    ensures
        strs_view(r@) == found_view(text@, found@),
{
    let mut r: Vec<Vec<&'a str>> = Vec::new();
    let mut i: usize = 0;
    while i < found.len()
        invariant
            i <= found@.len(),
            found_ok(found@, text@.len()),
            r@.len() == i,
            forall|j: int| 0 <= j < i ==> (#[trigger] r@[j])@.map_values(|s: &str| s@) == found_view(text@, found@)[j],
        decreases found@.len() - i,
    {
        assert(ranges_ok(found@[i as int]@, text@.len()));
        let v = slices_of(text, &found[i]);
        r.push(v);
        i = i + 1;
    }
    assert(strs_view(r@) =~= found_view(text@, found@));
    r
}

/// All matches of a compiled graph in `text`.
pub(crate) fn matches_in<'a>(nodes: &Vec<Node>, ngroups: usize, nsames: usize, text: &'a str) -> (r: Vec<Vec<&'a str>>)
    requires
        wf_compiled(Compiled { nodes: view_nodes(nodes@), ngroups: ngroups as nat, nsames: nsames as nat }),
    ensures
        strs_view(r@) == all_matches(Compiled { nodes: view_nodes(nodes@), ngroups: ngroups as nat, nsames: nsames as nat }, text@),
{
    let t = chars_of(text);
    let found = search(nodes, ngroups, nsames, &t, false);
    to_slices(text, &found)
}

/// The first match of a compiled graph in `text`.
pub(crate) fn first_match_in<'a>(nodes: &Vec<Node>, ngroups: usize, nsames: usize, text: &'a str) -> (r: Option<Vec<&'a str>>)
    requires
        wf_compiled(Compiled { nodes: view_nodes(nodes@), ngroups: ngroups as nat, nsames: nsames as nat }),
    ensures
        match first_match(Compiled { nodes: view_nodes(nodes@), ngroups: ngroups as nat, nsames: nsames as nat }, text@) {
            None => r is None,
            Some(m) => r matches Some(v) && v@.map_values(|s: &str| s@) == m,
        },
{
    let t = chars_of(text);
    let found = search(nodes, ngroups, nsames, &t, true);
    if found.len() == 0 {
        return None;
    }
    assert(ranges_ok(found@[0]@, t@.len()));
    Some(slices_of(text, &found[0]))
}

impl World {
    /// The graph of `pattern` and the world that starts matching at the
    /// beginning of a text.
    pub fn construct(pattern: &str) -> (r: (Vec<Node>, World))
        requires
            compile(pattern@) is Some,
            pattern@.len() + 2 <= usize::MAX,
        ensures
            view_nodes(r.0@) == compile(pattern@).unwrap().nodes,
            r.1@ == start_world(compile(pattern@).unwrap().ngroups, compile(pattern@).unwrap().nsames, 0),
    {
        let p = chars_of(pattern);
        let (nodes, ng, ns) = compile_pattern(&p).unwrap();
        let w = fresh_world(ng, ns, 0);
        (nodes, w)
    }

    /// The first match of `pattern` in `text`: the text of each group, group 0
    /// being the whole match.
    pub fn first_match<'a>(text: &'a str, pattern: &str) -> (r: Option<Vec<&'a str>>)
        requires
            compile(pattern@) is Some,
            pattern@.len() + 2 <= usize::MAX,
            search_safe(compile(pattern@).unwrap(), text@, true),
        ensures
            match first_match(compile(pattern@).unwrap(), text@) {
                None => r is None,
                Some(m) => r matches Some(v) && v@.map_values(|s: &str| s@) == m,
            },
    {
        let p = chars_of(pattern);
        let (nodes, ng, ns) = compile_pattern(&p).unwrap();
        first_match_in(&nodes, ng, ns, text)
    }

    /// All matches of `pattern` in `text`, without repeats, in the order the
    /// breadth-first search finds them.
    pub fn all_matchs<'a>(text: &'a str, pattern: &str) -> (r: Vec<Vec<&'a str>>)
        requires
            compile(pattern@) is Some,
            pattern@.len() + 2 <= usize::MAX,
            search_safe(compile(pattern@).unwrap(), text@, false),
        ensures
            strs_view(r@) == all_matches(compile(pattern@).unwrap(), text@),
    {
        let p = chars_of(pattern);
        let (nodes, ng, ns) = compile_pattern(&p).unwrap();
        matches_in(&nodes, ng, ns, text)
    }
}

} // verus!

verus! {

/// `f` is a prefix of `g`.
pub open spec fn is_prefix<T>(f: Seq<T>, g: Seq<T>) -> bool {
    f.len() <= g.len() && g.take(f.len() as int) == f
}

proof fn lemma_absorb_prefix(g: Seq<NodeV>, text: Seq<char>, kids: Seq<WorldV>, q: Seq<WorldV>, found: Seq<Seq<Seq<char>>>)
    ensures
        is_prefix(found, absorb(g, text, kids, q, found).1),
    decreases kids.len(),
{
    if kids.len() > 0 {
        lemma_absorb_prefix(g, text, kids.drop_last(), q, found);
        let f1 = absorb(g, text, kids.drop_last(), q, found).1;
        let k = kids.last();
        if is_final(g, k) {
            let r = captures(text, k);
            assert(f1.push(r).take(found.len() as int) =~= f1.take(found.len() as int));
        }
    } else {
        assert(found.take(found.len() as int) =~= found);
    }
}

proof fn lemma_bfs_prefix(g: Seq<NodeV>, text: Seq<char>, q: Seq<WorldV>, found: Seq<Seq<Seq<char>>>, fuel: nat, first: bool)
    ensures
        is_prefix(found, bfs(g, text, q, found, fuel, first)),
    decreases fuel,
{
    if !(fuel == 0 || q.len() == 0 || (first && found.len() > 0)) {
        match step(g, text, q[0]) {
            None => {
                lemma_bfs_prefix(g, text, q.drop_first(), found, (fuel - 1) as nat, first);
            },
            Some(kids) => {
                let (q2, f2) = absorb(g, text, kids, q.drop_first(), found);
                lemma_absorb_prefix(g, text, kids, q.drop_first(), found);
                lemma_bfs_prefix(g, text, q2, f2, (fuel - 1) as nat, first);
                let r = bfs(g, text, q2, f2, (fuel - 1) as nat, first);
                assert(r.take(found.len() as int) =~= r.take(f2.len() as int).take(found.len() as int));
            },
        }
    } else {
        assert(found.take(found.len() as int) =~= found);
    }
}

proof fn lemma_bfs_first(g: Seq<NodeV>, text: Seq<char>, q: Seq<WorldV>, found: Seq<Seq<Seq<char>>>, fuel: nat)
    ensures
        ({
            let a = bfs(g, text, q, found, fuel, false);
            let b = bfs(g, text, q, found, fuel, true);
            &&& (a.len() > 0 <==> b.len() > 0)
            &&& b.len() > 0 ==> a[0] == b[0]
        }),
    decreases fuel,
{
    if found.len() > 0 {
        lemma_bfs_prefix(g, text, q, found, fuel, false);
        let a = bfs(g, text, q, found, fuel, false);
        assert(a.take(found.len() as int)[0] == a[0]);
    } else if !(fuel == 0 || q.len() == 0) {
        match step(g, text, q[0]) {
            None => {
                lemma_bfs_first(g, text, q.drop_first(), found, (fuel - 1) as nat);
            },
            Some(kids) => {
                let (q2, f2) = absorb(g, text, kids, q.drop_first(), found);
                lemma_bfs_first(g, text, q2, f2, (fuel - 1) as nat);
            },
        }
    }
}

/// The first match is the first of all matches, and there is one exactly
/// when there are any.
pub proof fn lemma_first_match_is_first_of_all(c: Compiled, text: Seq<char>)
    ensures
        first_match(c, text) == (if all_matches(c, text).len() > 0 {
            Some(all_matches(c, text)[0])
        } else {
            None
        }),
{
    lemma_bfs_first(c.nodes, text, start_queue(c, text.len()), Seq::empty(), step_budget());
}

/// No two entries of `f` are equal.
pub open spec fn no_repeats<T>(f: Seq<T>) -> bool {
    forall|i: int, j: int| 0 <= i < j < f.len() ==> f[i] != f[j]
}

proof fn lemma_absorb_no_repeats(g: Seq<NodeV>, text: Seq<char>, kids: Seq<WorldV>, q: Seq<WorldV>, found: Seq<Seq<Seq<char>>>)
    requires
        no_repeats(found),
    ensures
        no_repeats(absorb(g, text, kids, q, found).1),
    decreases kids.len(),
{
    if kids.len() > 0 {
        lemma_absorb_no_repeats(g, text, kids.drop_last(), q, found);
        let f1 = absorb(g, text, kids.drop_last(), q, found).1;
        let k = kids.last();
        if is_final(g, k) {
            let r = captures(text, k);
            if !f1.contains(r) {
                let f2 = f1.push(r);
                assert forall|i: int, j: int| 0 <= i < j < f2.len() implies f2[i] != f2[j] by {
                    if j == f1.len() {
                        assert(f2[i] == f1[i]);
                    }
                }
            }
        }
    }
}

proof fn lemma_bfs_no_repeats(g: Seq<NodeV>, text: Seq<char>, q: Seq<WorldV>, found: Seq<Seq<Seq<char>>>, fuel: nat, first: bool)
    requires
        no_repeats(found),
    ensures
        no_repeats(bfs(g, text, q, found, fuel, first)),
    decreases fuel,
{
    if !(fuel == 0 || q.len() == 0 || (first && found.len() > 0)) {
        match step(g, text, q[0]) {
            None => {
                lemma_bfs_no_repeats(g, text, q.drop_first(), found, (fuel - 1) as nat, first);
            },
            Some(kids) => {
                let (q2, f2) = absorb(g, text, kids, q.drop_first(), found);
                lemma_absorb_no_repeats(g, text, kids, q.drop_first(), found);
                lemma_bfs_no_repeats(g, text, q2, f2, (fuel - 1) as nat, first);
            },
        }
    }
}

/// No match is listed twice.
pub proof fn lemma_no_repeated_matches(c: Compiled, text: Seq<char>)
    ensures
        no_repeats(all_matches(c, text)),
{
    lemma_bfs_no_repeats(c.nodes, text, start_queue(c, text.len()), Seq::empty(), step_budget(), false);
}

/// `s` is a contiguous piece of `text`.
pub open spec fn is_piece(text: Seq<char>, s: Seq<char>) -> bool {
    exists|a: int, b: int| #![trigger text.subrange(a, b)] 0 <= a <= b <= text.len() && s == text.subrange(a, b)
}

/// `m` lists one text per group, each a piece of `text`.
pub open spec fn is_capture_list(text: Seq<char>, ngroups: nat, m: Seq<Seq<char>>) -> bool {
    &&& m.len() == ngroups
    &&& forall|i: int| 0 <= i < m.len() ==> #[trigger] is_piece(text, m[i])
}

pub open spec fn all_capture_lists(text: Seq<char>, ngroups: nat, f: Seq<Seq<Seq<char>>>) -> bool {
    forall|i: int| 0 <= i < f.len() ==> is_capture_list(text, ngroups, #[trigger] f[i])
}

pub open spec fn all_wf(c: Compiled, n: nat, q: Seq<WorldV>) -> bool {
    forall|i: int| 0 <= i < q.len() ==> wf_world(c, n, #[trigger] q[i])
}

proof fn lemma_captures_list(c: Compiled, text: Seq<char>, w: WorldV)
    requires
        wf_world(c, text.len(), w),
    ensures
        is_capture_list(text, c.ngroups, captures(text, w)),
{
    let m = captures(text, w);
    assert forall|i: int| 0 <= i < m.len() implies #[trigger] is_piece(text, m[i]) by {
        match w.groups[i] {
            Some((a, b)) => {
                assert(0 <= a <= b <= text.len());
                assert(m[i] == text.subrange(a as int, b as int));
            },
            None => {
                assert(m[i] =~= text.subrange(0, 0));
            },
        }
    }
}

proof fn lemma_absorb_captures(c: Compiled, text: Seq<char>, kids: Seq<WorldV>, q: Seq<WorldV>, found: Seq<Seq<Seq<char>>>)
    requires
        all_wf(c, text.len(), kids),
        all_wf(c, text.len(), q),
        all_capture_lists(text, c.ngroups, found),
    ensures
        all_wf(c, text.len(), absorb(c.nodes, text, kids, q, found).0),
        all_capture_lists(text, c.ngroups, absorb(c.nodes, text, kids, q, found).1),
    decreases kids.len(),
{
    if kids.len() > 0 {
        lemma_absorb_captures(c, text, kids.drop_last(), q, found);
        let (q1, f1) = absorb(c.nodes, text, kids.drop_last(), q, found);
        let k = kids.last();
        assert(wf_world(c, text.len(), kids[kids.len() - 1]));
        if is_final(c.nodes, k) {
            lemma_captures_list(c, text, k);
            let r = captures(text, k);
            if !f1.contains(r) {
                assert forall|i: int| 0 <= i < f1.push(r).len() implies is_capture_list(text, c.ngroups, #[trigger] f1.push(r)[i]) by {
                    if i < f1.len() {
                        assert(f1.push(r)[i] == f1[i]);
                    }
                }
            }
        } else {
            assert forall|i: int| 0 <= i < q1.push(k).len() implies wf_world(c, text.len(), #[trigger] q1.push(k)[i]) by {
                if i < q1.len() {
                    assert(q1.push(k)[i] == q1[i]);
                }
            }
        }
    }
}

proof fn lemma_bfs_captures(c: Compiled, text: Seq<char>, q: Seq<WorldV>, found: Seq<Seq<Seq<char>>>, fuel: nat, first: bool)
    requires
        wf_compiled(c),
        all_wf(c, text.len(), q),
        all_capture_lists(text, c.ngroups, found),
    ensures
        all_capture_lists(text, c.ngroups, bfs(c.nodes, text, q, found, fuel, first)),
    decreases fuel,
{
    let g = c.nodes;
    if !(fuel == 0 || q.len() == 0 || (first && found.len() > 0)) {
        assert(wf_world(c, text.len(), q[0]));
        assert(all_wf(c, text.len(), q.drop_first())) by {
            assert forall|i: int| 0 <= i < q.drop_first().len() implies wf_world(c, text.len(), #[trigger] q.drop_first()[i]) by {
                assert(q.drop_first()[i] == q[i + 1]);
            }
        }
        match step(g, text, q[0]) {
            None => {
                lemma_bfs_captures(c, text, q.drop_first(), found, (fuel - 1) as nat, first);
            },
            Some(kids) => {
                lemma_step_wf(c, text, q[0]);
                let (q2, f2) = absorb(g, text, kids, q.drop_first(), found);
                lemma_absorb_captures(c, text, kids, q.drop_first(), found);
                lemma_bfs_captures(c, text, q2, f2, (fuel - 1) as nat, first);
            },
        }
    }
}

/// Every match lists one text per group of the pattern, each a piece of the
/// text searched.
pub proof fn lemma_matches_are_captures(c: Compiled, text: Seq<char>)
    requires
        wf_compiled(c),
    ensures
        all_capture_lists(text, c.ngroups, all_matches(c, text)),
        first_match(c, text) matches Some(m) ==> is_capture_list(text, c.ngroups, m),
{
    let q = start_queue(c, text.len());
    assert forall|i: int| 0 <= i < q.len() implies wf_world(c, text.len(), #[trigger] q[i]) by {
        let sw = q[i];
        assert forall|x: int| 0 <= x < sw.groups.len() implies (#[trigger] sw.groups[x] matches Some((a, b)) ==> a <= b <= sw.idx) by {
            assert(sw.groups[x] is None);
        }
        assert forall|x: int| 0 <= x < sw.register.len() implies (#[trigger] sw.register[x] matches Some(r) ==> r <= sw.idx) by {
            assert(sw.register[x] is None);
        }
    }
    lemma_bfs_captures(c, text, q, Seq::empty(), step_budget(), false);
    lemma_bfs_captures(c, text, q, Seq::empty(), step_budget(), true);
}

} // verus!

verus! {

/// `ws` is a walk of the graph over `text`: it begins at a start world, and
/// each later world is one of those that the step of the world before it
/// produces.
pub open spec fn is_walk(c: Compiled, text: Seq<char>, ws: Seq<WorldV>) -> bool {
    &&& ws.len() > 0
    &&& start_queue(c, text.len()).contains(ws[0])
    &&& forall|i: int|
        0 <= i < ws.len() - 1 ==> (#[trigger] step(c.nodes, text, ws[i]) matches Some(ks) && ks.contains(ws[i + 1]))
}

/// Some walk of the graph over `text` ends at `w`.
pub open spec fn reachable(c: Compiled, text: Seq<char>, w: WorldV) -> bool {
    exists|ws: Seq<WorldV>| #[trigger] is_walk(c, text, ws) && ws.last() == w
}

/// `m` is a match of the graph in `text`: what a world captured that some
/// walk brings to the node completing a match.
pub open spec fn is_walk_match(c: Compiled, text: Seq<char>, m: Seq<Seq<char>>) -> bool {
    exists|w: WorldV| #[trigger] reachable(c, text, w) && is_final(c.nodes, w) && captures(text, w) == m
}

pub open spec fn all_reachable(c: Compiled, text: Seq<char>, q: Seq<WorldV>) -> bool {
    forall|i: int| 0 <= i < q.len() ==> reachable(c, text, #[trigger] q[i])
}

pub open spec fn all_walk_matches(c: Compiled, text: Seq<char>, f: Seq<Seq<Seq<char>>>) -> bool {
    forall|i: int| 0 <= i < f.len() ==> is_walk_match(c, text, #[trigger] f[i])
}

proof fn lemma_step_reachable(c: Compiled, text: Seq<char>, p: WorldV)
    requires
        reachable(c, text, p),
    ensures
        step(c.nodes, text, p) matches Some(ks) ==> all_reachable(c, text, ks),
{
    if let Some(ks) = step(c.nodes, text, p) {
        let ws = choose|ws: Seq<WorldV>| #[trigger] is_walk(c, text, ws) && ws.last() == p;
        assert forall|j: int| 0 <= j < ks.len() implies reachable(c, text, #[trigger] ks[j]) by {
            let ws2 = ws.push(ks[j]);
            assert(ws2[0] == ws[0]);
            assert forall|i: int| 0 <= i < ws2.len() - 1 implies (#[trigger] step(c.nodes, text, ws2[i]) matches Some(ks2)
                && ks2.contains(ws2[i + 1])) by {
                assert(ws2[i] == ws[i]);
                if i < ws.len() - 1 {
                    assert(ws2[i + 1] == ws[i + 1]);
                } else {
                    assert(ws2[i + 1] == ks[j]);
                    assert(ks.contains(ks[j]));
                }
            }
            assert(is_walk(c, text, ws2));
            assert(ws2.last() == ks[j]);
        }
    }
}

proof fn lemma_absorb_walks(c: Compiled, text: Seq<char>, kids: Seq<WorldV>, q: Seq<WorldV>, found: Seq<Seq<Seq<char>>>)
    requires
        all_reachable(c, text, kids),
        all_reachable(c, text, q),
        all_walk_matches(c, text, found),
    ensures
        all_reachable(c, text, absorb(c.nodes, text, kids, q, found).0),
        all_walk_matches(c, text, absorb(c.nodes, text, kids, q, found).1),
    decreases kids.len(),
{
    if kids.len() > 0 {
        assert(all_reachable(c, text, kids.drop_last())) by {
            assert forall|i: int| 0 <= i < kids.drop_last().len() implies reachable(c, text, #[trigger] kids.drop_last()[i]) by {
                assert(kids.drop_last()[i] == kids[i]);
            }
        }
        lemma_absorb_walks(c, text, kids.drop_last(), q, found);
        let (q1, f1) = absorb(c.nodes, text, kids.drop_last(), q, found);
        let k = kids.last();
        assert(reachable(c, text, kids[kids.len() - 1]));
        if is_final(c.nodes, k) {
            let r = captures(text, k);
            assert(is_walk_match(c, text, r));
            if !f1.contains(r) {
                assert forall|i: int| 0 <= i < f1.push(r).len() implies is_walk_match(c, text, #[trigger] f1.push(r)[i]) by {
                    if i < f1.len() {
                        assert(f1.push(r)[i] == f1[i]);
                    }
                }
            }
        } else {
            assert forall|i: int| 0 <= i < q1.push(k).len() implies reachable(c, text, #[trigger] q1.push(k)[i]) by {
                if i < q1.len() {
                    assert(q1.push(k)[i] == q1[i]);
                }
            }
        }
    }
}

proof fn lemma_bfs_walks(c: Compiled, text: Seq<char>, q: Seq<WorldV>, found: Seq<Seq<Seq<char>>>, fuel: nat, first: bool)
    requires
        all_reachable(c, text, q),
        all_walk_matches(c, text, found),
    ensures
        all_walk_matches(c, text, bfs(c.nodes, text, q, found, fuel, first)),
    decreases fuel,
{
    let g = c.nodes;
    if !(fuel == 0 || q.len() == 0 || (first && found.len() > 0)) {
        assert(reachable(c, text, q[0]));
        assert(all_reachable(c, text, q.drop_first())) by {
            assert forall|i: int| 0 <= i < q.drop_first().len() implies reachable(c, text, #[trigger] q.drop_first()[i]) by {
                assert(q.drop_first()[i] == q[i + 1]);
            }
        }
        match step(g, text, q[0]) {
            None => {
                lemma_bfs_walks(c, text, q.drop_first(), found, (fuel - 1) as nat, first);
            },
            Some(kids) => {
                lemma_step_reachable(c, text, q[0]);
                let (q2, f2) = absorb(g, text, kids, q.drop_first(), found);
                lemma_absorb_walks(c, text, kids, q.drop_first(), found);
                lemma_bfs_walks(c, text, q2, f2, (fuel - 1) as nat, first);
            },
        }
    }
}

/// Every match the search reports, and the first match, is what some walk of
/// the graph over the text has captured when it reaches the node that
/// completes a match.
pub proof fn lemma_matches_come_from_walks(c: Compiled, text: Seq<char>)
    ensures
        all_walk_matches(c, text, all_matches(c, text)),
        first_match(c, text) matches Some(m) ==> is_walk_match(c, text, m),
{
    let q = start_queue(c, text.len());
    assert forall|i: int| 0 <= i < q.len() implies reachable(c, text, #[trigger] q[i]) by {
        let ws = seq![q[i]];
        assert(q.contains(ws[0]));
        assert(is_walk(c, text, ws));
        assert(ws.last() == q[i]);
    }
    assert(all_walk_matches(c, text, Seq::empty()));
    lemma_bfs_walks(c, text, q, Seq::empty(), step_budget(), false);
    lemma_bfs_walks(c, text, q, Seq::empty(), step_budget(), true);
    let f = bfs(c.nodes, text, q, Seq::empty(), step_budget(), true);
    if f.len() > 0 {
        assert(is_walk_match(c, text, f[0]));
    }
}

} // verus!

verus! {

proof fn lemma_bfs_safe(c: Compiled, text: Seq<char>, q: Seq<WorldV>, found: Seq<Seq<Seq<char>>>, fuel: nat, first: bool)
    requires
        wf_compiled(c),
        backrefs_ok(c.nodes, c.ngroups),
        all_wf(c, text.len(), q),
        all_capture_lists(text, c.ngroups, found),
    ensures
        bfs_safe(c.nodes, text, q, found, fuel, first),
    decreases fuel,
{
    let g = c.nodes;
    if !(fuel == 0 || q.len() == 0 || (first && found.len() > 0)) {
        assert(wf_world(c, text.len(), q[0]));
        assert(!bad_ref(g, q[0])) by {
            if let CheckV::SameAs(x) = g[q[0].node as int].check {
                assert(x < c.ngroups);
            }
        }
        assert(all_wf(c, text.len(), q.drop_first())) by {
            assert forall|i: int| 0 <= i < q.drop_first().len() implies wf_world(c, text.len(), #[trigger] q.drop_first()[i]) by {
                assert(q.drop_first()[i] == q[i + 1]);
            }
        }
        match step(g, text, q[0]) {
            None => {
                lemma_bfs_safe(c, text, q.drop_first(), found, (fuel - 1) as nat, first);
            },
            Some(kids) => {
                lemma_step_wf(c, text, q[0]);
                let (q2, f2) = absorb(g, text, kids, q.drop_first(), found);
                lemma_absorb_captures(c, text, kids, q.drop_first(), found);
                lemma_bfs_safe(c, text, q2, f2, (fuel - 1) as nat, first);
            },
        }
    }
}

/// A graph whose back-references all name groups it has can be searched over
/// any text: the search never reaches a back-reference to a missing group.
pub proof fn lemma_known_refs_are_safe(c: Compiled, text: Seq<char>, first: bool)
    requires
        wf_compiled(c),
        backrefs_ok(c.nodes, c.ngroups),
    ensures
        search_safe(c, text, first),
{
    let q = start_queue(c, text.len());
    assert forall|i: int| 0 <= i < q.len() implies wf_world(c, text.len(), #[trigger] q[i]) by {
        let sw = q[i];
        assert forall|x: int| 0 <= x < sw.groups.len() implies (#[trigger] sw.groups[x] matches Some((a, b)) ==> a <= b <= sw.idx) by {
            assert(sw.groups[x] is None);
        }
        assert forall|x: int| 0 <= x < sw.register.len() implies (#[trigger] sw.register[x] matches Some(r) ==> r <= sw.idx) by {
            assert(sw.register[x] is None);
        }
    }
    assert(all_capture_lists(text, c.ngroups, Seq::empty()));
    lemma_bfs_safe(c, text, q, Seq::empty(), step_budget(), first);
}

/// Whether every back-reference of the graph names one of its groups.
pub fn backrefs_within(nodes: &Vec<Node>, ngroups: usize) -> (r: bool)
    ensures
        r == backrefs_ok(view_nodes(nodes@), ngroups as nat),
{
    let ghost g = view_nodes(nodes@);
    let mut i: usize = 0;
    while i < nodes.len()
        invariant
            i <= nodes@.len(),
            g == view_nodes(nodes@),
            forall|k: int| 0 <= k < i ==> (#[trigger] g[k].check matches CheckV::SameAs(x) ==> x < ngroups),
        decreases nodes@.len() - i,
    {
        assert(g[i as int].check == nodes@[i as int].check@);
        match &nodes[i].check {
            Check::SameAs(x) => {
                if *x >= ngroups {
                    return false;
                }
            },
            _ => {},
        }
        i = i + 1;
    }
    true
}

} // verus!

verus! {

/// The search for all matches ends because its queue runs empty, before its
/// step budget `fuel` is spent.
pub open spec fn drains(g: Seq<NodeV>, text: Seq<char>, q: Seq<WorldV>, found: Seq<Seq<Seq<char>>>, fuel: nat) -> bool
    decreases fuel,
{
    if q.len() == 0 {
        true
    } else if fuel == 0 {
        false
    } else {
        match step(g, text, q[0]) {
            None => drains(g, text, q.drop_first(), found, (fuel - 1) as nat),
            Some(kids) => {
                let (q2, f2) = absorb(g, text, kids, q.drop_first(), found);
                drains(g, text, q2, f2, (fuel - 1) as nat)
            },
        }
    }
}

/// What `absorb` keeps and adds: the queue and the matches it had stay, each
/// world produced joins the queue, or its captures join the matches where it
/// completes a match.
proof fn lemma_absorb_grows(g: Seq<NodeV>, text: Seq<char>, kids: Seq<WorldV>, q: Seq<WorldV>, found: Seq<Seq<Seq<char>>>)
    ensures
        forall|y: WorldV| q.contains(y) ==> #[trigger] absorb(g, text, kids, q, found).0.contains(y),
        forall|r: Seq<Seq<char>>| found.contains(r) ==> #[trigger] absorb(g, text, kids, q, found).1.contains(r),
        forall|y: WorldV| #[trigger] kids.contains(y) ==> (if is_final(g, y) {
            absorb(g, text, kids, q, found).1.contains(captures(text, y))
        } else {
            absorb(g, text, kids, q, found).0.contains(y)
        }),
    decreases kids.len(),
{
    if kids.len() > 0 {
        let kd = kids.drop_last();
        lemma_absorb_grows(g, text, kd, q, found);
        let (q1, f1) = absorb(g, text, kd, q, found);
        let k = kids.last();
        let (q2, f2) = absorb(g, text, kids, q, found);
        assert forall|y: WorldV| q1.contains(y) implies q2.contains(y) by {
            let i = choose|i: int| 0 <= i < q1.len() && q1[i] == y;
            if !is_final(g, k) {
                assert(q2[i] == y);
            }
        }
        assert forall|r: Seq<Seq<char>>| f1.contains(r) implies f2.contains(r) by {
            let i = choose|i: int| 0 <= i < f1.len() && f1[i] == r;
            if is_final(g, k) && !f1.contains(captures(text, k)) {
                assert(f2[i] == r);
            }
        }
        assert forall|y: WorldV| #[trigger] kids.contains(y) implies (if is_final(g, y) {
            f2.contains(captures(text, y))
        } else {
            q2.contains(y)
        }) by {
            let i = choose|i: int| 0 <= i < kids.len() && kids[i] == y;
            if i < kids.len() - 1 {
                assert(kd[i] == y);
                assert(kd.contains(y));
            } else {
                if is_final(g, k) {
                    if !f1.contains(captures(text, k)) {
                        assert(f2[f1.len() as int] == captures(text, k));
                    }
                } else {
                    assert(q2[q1.len() as int] == k);
                }
            }
        }
    }
}

/// A match already recorded stays among those the search returns.
proof fn lemma_bfs_grows(g: Seq<NodeV>, text: Seq<char>, q: Seq<WorldV>, found: Seq<Seq<Seq<char>>>, fuel: nat, r: Seq<Seq<char>>)
    requires
        found.contains(r),
    ensures
        bfs(g, text, q, found, fuel, false).contains(r),
    decreases fuel,
{
    if !(fuel == 0 || q.len() == 0) {
        match step(g, text, q[0]) {
            None => {
                lemma_bfs_grows(g, text, q.drop_first(), found, (fuel - 1) as nat, r);
            },
            Some(kids) => {
                lemma_absorb_grows(g, text, kids, q.drop_first(), found);
                let (q2, f2) = absorb(g, text, kids, q.drop_first(), found);
                assert(f2.contains(r));
                lemma_bfs_grows(g, text, q2, f2, (fuel - 1) as nat, r);
            },
        }
    }
}

/// The walk `ws` is still pending: its captures are recorded, or one of its
/// worlds before the last waits in the queue.
pub open spec fn pending(text: Seq<char>, ws: Seq<WorldV>, q: Seq<WorldV>, found: Seq<Seq<Seq<char>>>) -> bool {
    found.contains(captures(text, ws.last())) || exists|k: int| 0 <= k < ws.len() - 1 && #[trigger] q.contains(ws[k])
}

proof fn lemma_bfs_complete(
    c: Compiled,
    text: Seq<char>,
    q: Seq<WorldV>,
    found: Seq<Seq<Seq<char>>>,
    fuel: nat,
    ws: Seq<WorldV>,
)
    requires
        drains(c.nodes, text, q, found, fuel),
        is_walk(c, text, ws),
        ws.len() >= 2,
        forall|k: int| 1 <= k < ws.len() - 1 ==> !is_final(c.nodes, #[trigger] ws[k]),
        is_final(c.nodes, ws.last()),
        pending(text, ws, q, found),
    ensures
        bfs(c.nodes, text, q, found, fuel, false).contains(captures(text, ws.last())),
    decreases fuel,
{
    let g = c.nodes;
    let m = captures(text, ws.last());
    if found.contains(m) {
        lemma_bfs_grows(g, text, q, found, fuel, m);
        return;
    }
    let k = choose|k: int| 0 <= k < ws.len() - 1 && #[trigger] q.contains(ws[k]);
    assert(q.len() > 0);
    assert(fuel > 0);
    let rest = q.drop_first();
    let at_rest = rest.contains(ws[k]);
    if !at_rest {
        let i = choose|i: int| 0 <= i < q.len() && q[i] == ws[k];
        if i > 0 {
            assert(rest[i - 1] == ws[k]);
        }
        assert(q[0] == ws[k]);
    }
    match step(g, text, q[0]) {
        None => {
            assert(at_rest) by {
                if !at_rest {
                    assert(step(g, text, ws[k]) is Some);
                }
            }
            assert(pending(text, ws, rest, found));
            lemma_bfs_complete(c, text, rest, found, (fuel - 1) as nat, ws);
        },
        Some(kids) => {
            lemma_absorb_grows(g, text, kids, rest, found);
            let (q2, f2) = absorb(g, text, kids, rest, found);
            if at_rest {
                assert(q2.contains(ws[k]));
            } else {
                assert(step(g, text, ws[k]) matches Some(ks) && ks.contains(ws[k + 1]));
                assert(kids.contains(ws[k + 1]));
                if k + 1 == ws.len() - 1 {
                    assert(ws[k + 1] == ws.last());
                    assert(f2.contains(m));
                } else {
                    assert(!is_final(g, ws[k + 1]));
                    assert(q2.contains(ws[k + 1]));
                }
            }
            assert(pending(text, ws, q2, f2));
            lemma_bfs_complete(c, text, q2, f2, (fuel - 1) as nat, ws);
        },
    }
}

/// Where the search runs its queue empty within its step budget, every walk
/// of the graph over the text that takes at least one step and reaches the
/// node completing a match first at its last world has its captures among
/// all matches.
pub proof fn lemma_walks_are_found(c: Compiled, text: Seq<char>, ws: Seq<WorldV>)
    requires
        drains(c.nodes, text, start_queue(c, text.len()), Seq::empty(), step_budget()),
        is_walk(c, text, ws),
        ws.len() >= 2,
        forall|k: int| 1 <= k < ws.len() - 1 ==> !is_final(c.nodes, #[trigger] ws[k]),
        is_final(c.nodes, ws.last()),
    ensures
        all_matches(c, text).contains(captures(text, ws.last())),
{
    let q = start_queue(c, text.len());
    assert(q.contains(ws[0]));
    assert(pending(text, ws, q, Seq::empty()));
    lemma_bfs_complete(c, text, q, Seq::empty(), step_budget(), ws);
}

} // verus!

verus! {

/// A back-reference to a group that captured `text[a..b]` lets a world go on
/// exactly where the text continues, at its position, with the whole captured
/// text, character by character; the worlds it turns into stand just past
/// that copy.
pub proof fn law_backref_reads_the_capture(g: Seq<NodeV>, text: Seq<char>, w: WorldV, x: usize, a: nat, b: nat)
    requires
        w.node < g.len(),
        g[w.node as int].check == CheckV::SameAs(x),
        x < w.groups.len(),
        w.groups[x as int] == Some((a, b)),
        a <= b <= text.len(),
    ensures
        step(g, text, w) is Some <==> (w.idx < text.len() && w.idx + (b - a) <= text.len() && forall|j: int|
            0 <= j < b - a ==> #[trigger] text[w.idx + j] == text[a + j]),
        step(g, text, w) matches Some(ws) ==> forall|i: int| 0 <= i < ws.len() ==> #[trigger] ws[i].idx == w.idx + (b - a),
{
    let n = (b - a) as int;
    let copies = w.idx < text.len() && w.idx + n <= text.len() && forall|j: int|
        0 <= j < n ==> #[trigger] text[w.idx + j] == text[a + j];
    if copies {
        assert(text.subrange(w.idx as int, w.idx + n) =~= text.subrange(a as int, b as int)) by {
            assert forall|j: int| 0 <= j < n implies text.subrange(w.idx as int, w.idx + n)[j] == text.subrange(a as int, b as int)[j] by {
                assert(text[w.idx + j] == text[a + j]);
            }
        }
        assert(occurs_at(text, w.idx, text.subrange(a as int, b as int)));
    }
    if passes(g, text, w) {
        assert(occurs_at(text, w.idx, text.subrange(a as int, b as int)));
        assert forall|j: int| 0 <= j < n implies #[trigger] text[w.idx + j] == text[a + j] by {
            assert(text.subrange(w.idx as int, w.idx + n)[j] == text.subrange(a as int, b as int)[j]);
        }
    }
    if let Some(ws) = step(g, text, w) {
        assert forall|i: int| 0 <= i < ws.len() implies #[trigger] ws[i].idx == w.idx + (b - a) by {
            assert(advance(g, w).idx == w.idx + (b - a));
        }
    }
}

/// A back-reference to a group that captured nothing in this world stops it.
pub proof fn law_backref_to_unset_group_fails(g: Seq<NodeV>, text: Seq<char>, w: WorldV, x: usize)
    requires
        w.node < g.len(),
        g[w.node as int].check == CheckV::SameAs(x),
        x < w.groups.len(),
        w.groups[x as int] is None,
    ensures
        step(g, text, w) is None,
{
}

/// A class `AnyOf(s)` lets a world go on exactly where there is a character at
/// its position and that very character is in `s`; the worlds it turns into
/// stand one character further.
pub proof fn law_class_reads_a_member(g: Seq<NodeV>, text: Seq<char>, w: WorldV, s: Seq<char>)
    requires
        w.node < g.len(),
        g[w.node as int].check == CheckV::AnyOf(s),
    ensures
        step(g, text, w) is Some <==> (w.idx < text.len() && exists|k: int| 0 <= k < s.len() && s[k] == text[w.idx as int]),
        step(g, text, w) matches Some(ws) ==> forall|i: int| 0 <= i < ws.len() ==> #[trigger] ws[i].idx == w.idx + 1,
{
    if let Some(ws) = step(g, text, w) {
        assert forall|i: int| 0 <= i < ws.len() implies #[trigger] ws[i].idx == w.idx + 1 by {
            assert(advance(g, w).idx == w.idx + 1);
        }
    }
}

/// A negated class `NoneOf(s)` lets a world go on exactly where there is a
/// character at its position and it is not in `s`; the worlds it turns into
/// stand one character further.
pub proof fn law_negated_class_reads_a_non_member(g: Seq<NodeV>, text: Seq<char>, w: WorldV, s: Seq<char>)
    requires
        w.node < g.len(),
        g[w.node as int].check == CheckV::NoneOf(s),
    ensures
        step(g, text, w) is Some <==> (w.idx < text.len() && forall|k: int| 0 <= k < s.len() ==> #[trigger] s[k] != text[w.idx as int]),
        step(g, text, w) matches Some(ws) ==> forall|i: int| 0 <= i < ws.len() ==> #[trigger] ws[i].idx == w.idx + 1,
{
    if w.idx < text.len() && forall|k: int| 0 <= k < s.len() ==> #[trigger] s[k] != text[w.idx as int] {
        assert(!s.contains(text[w.idx as int]));
    }
    if let Some(ws) = step(g, text, w) {
        assert forall|i: int| 0 <= i < ws.len() implies #[trigger] ws[i].idx == w.idx + 1 by {
            assert(advance(g, w).idx == w.idx + 1);
        }
    }
}

/// A literal `Static(s)` lets a world go on exactly where the text continues
/// at its position with `s`, character by character (and there is at least
/// one character left); the worlds it turns into stand just past `s`.
pub proof fn law_literal_reads_itself(g: Seq<NodeV>, text: Seq<char>, w: WorldV, s: Seq<char>)
    requires
        w.node < g.len(),
        g[w.node as int].check == CheckV::Static(s),
    ensures
        step(g, text, w) is Some <==> (w.idx < text.len() && w.idx + s.len() <= text.len() && forall|j: int|
            0 <= j < s.len() ==> #[trigger] text[w.idx + j] == s[j]),
        step(g, text, w) matches Some(ws) ==> forall|i: int| 0 <= i < ws.len() ==> #[trigger] ws[i].idx == w.idx + s.len(),
{
    let n = s.len() as int;
    if w.idx < text.len() && w.idx + n <= text.len() && forall|j: int| 0 <= j < n ==> #[trigger] text[w.idx + j] == s[j] {
        assert(text.subrange(w.idx as int, w.idx + n) =~= s) by {
            assert forall|j: int| 0 <= j < n implies text.subrange(w.idx as int, w.idx + n)[j] == s[j] by {
                assert(text[w.idx + j] == s[j]);
            }
        }
    }
    if passes(g, text, w) {
        assert forall|j: int| 0 <= j < n implies #[trigger] text[w.idx + j] == s[j] by {
            assert(text.subrange(w.idx as int, w.idx + n)[j] == s[j]);
        }
    }
    if let Some(ws) = step(g, text, w) {
        assert forall|i: int| 0 <= i < ws.len() implies #[trigger] ws[i].idx == w.idx + s.len() by {
            assert(advance(g, w).idx == w.idx + s.len());
        }
    }
}

} // verus!

verus! {

/// `^` lets a world go on exactly at the start of the text, without moving.
pub proof fn law_start_anchor(g: Seq<NodeV>, text: Seq<char>, w: WorldV)
    requires
        w.node < g.len(),
        g[w.node as int].check == CheckV::Start,
    ensures
        step(g, text, w) is Some <==> w.idx == 0,
        step(g, text, w) matches Some(ws) ==> forall|i: int| 0 <= i < ws.len() ==> #[trigger] ws[i].idx == w.idx,
{
}

/// `$` lets a world go on exactly at the end of the text; the node that
/// completes a match always lets it go on; neither moves.
pub proof fn law_end_anchor(g: Seq<NodeV>, text: Seq<char>, w: WorldV, at_end: bool)
    requires
        w.node < g.len(),
        g[w.node as int].check == CheckV::End(at_end),
    ensures
        step(g, text, w) is Some <==> (!at_end || w.idx == text.len()),
        step(g, text, w) matches Some(ws) ==> forall|i: int| 0 <= i < ws.len() ==> #[trigger] ws[i].idx == w.idx,
{
}

/// Opening group `x` records the current position as its start and moves
/// nowhere; closing it records the range from that start to the current
/// position, and fails where the group was never opened.
pub proof fn law_group_marks(g: Seq<NodeV>, text: Seq<char>, w: WorldV, x: usize)
    requires
        w.node < g.len(),
        x < w.groups.len(),
        x < w.register.len(),
    ensures
        g[w.node as int].check == CheckV::StartGroup(x) ==> (step(g, text, w) matches Some(ws) && forall|i: int|
            0 <= i < ws.len() ==> (#[trigger] ws[i]).idx == w.idx && ws[i].register[x as int] == Some(w.idx)),
        g[w.node as int].check == CheckV::EndGroup(x) ==> (step(g, text, w) is Some <==> w.register[x as int] is Some),
        g[w.node as int].check == CheckV::EndGroup(x) ==> (w.register[x as int] matches Some(r) ==> (step(g, text, w) matches Some(ws)
            && forall|i: int| 0 <= i < ws.len() ==> (#[trigger] ws[i]).idx == w.idx && ws[i].groups[x as int] == Some((r, w.idx)))),
{
}

/// A repetition raises its count by one; below its least count it can only
/// loop back, up to its most count it offers both ways (looping first when
/// greedy), and otherwise (at least its least count and beyond its most
/// count) the world stops.
pub proof fn law_repetition_counts(g: Seq<NodeV>, text: Seq<char>, w: WorldV, target: usize, c: usize, lo: usize, hi: usize, greedy: bool)
    requires
        w.node < g.len(),
        g[w.node as int].check == CheckV::MultipleOf(target, c, lo, hi, greedy),
        c < w.times.len(),
    ensures
        step(g, text, w) is Some <==> (w.times[c as int] + 1 < lo || w.times[c as int] + 1 <= hi),
        step(g, text, w) matches Some(ws) ==> forall|i: int| 0 <= i < ws.len() ==> (#[trigger] ws[i]).idx == w.idx
            && ws[i].times[c as int] == w.times[c as int] + 1,
        w.times[c as int] + 1 < lo ==> (step(g, text, w) matches Some(ws) && ws.len() == 1 && ws[0].node == target),
        lo <= w.times[c as int] + 1 <= hi ==> (step(g, text, w) matches Some(ws) && ws.len() == g[w.node as int].nexts.len() + 1
            && (greedy ==> ws[0].node == target) && (!greedy ==> ws[ws.len() - 1].node == target)),
{
    let a = advance(g, w);
    assert(a.times[c as int] == w.times[c as int] + 1);
    if let Some(ws) = step(g, text, w) {
        assert forall|i: int| 0 <= i < ws.len() implies (#[trigger] ws[i]).idx == w.idx && ws[i].times[c as int] == w.times[c as int] + 1 by {
            assert(ws[i].times == a.times);
        }
        let t = a.times[c as int];
        if lo <= t && t <= hi {
            let v = g[w.node as int].nexts.push(target);
            if greedy {
                assert(v.reverse()[0] == v[v.len() - 1]);
            }
        }
    }
}

} // verus!
