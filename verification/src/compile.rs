//! Building the matching graph from a pattern.
use vstd::prelude::*;
use crate::chars::{
    char_is_numeric, class_chars, class_chars_vec, digits_value, find_char, index_of, lemma_index_of_from, lower,
    numeral_value, parse_numeral, to_lower, numeric_char,
};
use crate::world::World;
use crate::graph::{check_wf, copy_vec, edges_ok, view_nodes, wf_nodes, Check, CheckV, Node, NodeV};
use crate::parse::{
    class_end, expand, group_end, is_class_key, is_special, lemma_class_end_from,
    lemma_group_end_from, lemma_root_bars_from, nesting_start, root_bars, root_bars_from, static_end,
    scan_root_bars, scan_group_end, scan_class_end, scan_static_end, expand_class, is_special_char,
    is_class_key_char, ints,
    ClassNesting,
};

verus! {

/// Where a freshly built node is attached: to the list of entry nodes, or at the
/// front of the successors of a node.
#[derive(Clone, Copy)]
pub enum Target {
    Root,
    Front(usize),
}

/// The graph under construction.
pub struct BuildV {
    pub nodes: Seq<NodeV>,
    pub groups: Seq<usize>,
    pub sames: nat,
    pub roots: Seq<usize>,
}

pub open spec fn with_node(st: BuildV, c: CheckV) -> BuildV {
    BuildV { nodes: st.nodes.push(NodeV { check: c, nexts: Seq::empty() }), ..st }
}

pub open spec fn push_target(st: BuildV, t: Target, e: usize) -> BuildV {
    match t {
        Target::Root => BuildV { roots: st.roots.push(e), ..st },
        Target::Front(id) => BuildV {
            nodes: st.nodes.update(
                id as int,
                NodeV { check: st.nodes[id as int].check, nexts: st.nodes[id as int].nexts.insert(0, e) },
            ),
            ..st
        },
    }
}

pub open spec fn add_next(st: BuildV, at: usize, e: usize) -> BuildV {
    BuildV {
        nodes: st.nodes.update(
            at as int,
            NodeV { check: st.nodes[at as int].check, nexts: st.nodes[at as int].nexts.push(e) },
        ),
        ..st
    }
}

pub open spec fn set_check(st: BuildV, at: usize, c: CheckV) -> BuildV {
    BuildV { nodes: st.nodes.update(at as int, NodeV { check: c, nexts: st.nodes[at as int].nexts }), ..st }
}

/// Appends `e` to the successors of each node in `leaves`, in order.
pub open spec fn attach(st: BuildV, leaves: Seq<usize>, e: usize) -> BuildV
    decreases leaves.len(),
{
    if leaves.len() == 0 {
        st
    } else {
        add_next(attach(st, leaves.drop_last(), e), leaves.last(), e)
    }
}

/// `acc` followed by the elements of `more` it lacks, in order.
pub open spec fn merge(acc: Seq<usize>, more: Seq<usize>) -> Seq<usize>
    decreases more.len(),
{
    if more.len() == 0 {
        acc
    } else {
        let a = merge(acc, more.drop_last());
        if a.contains(more.last()) {
            a
        } else {
            a.push(more.last())
        }
    }
}

/// The nodes without successors reached from `of`, first reached first;
/// `None` where a path longer than `fuel` edges leaves `of`, which in a graph
/// of `fuel` nodes means a cycle.
pub open spec fn leafs(g: Seq<NodeV>, of: int, fuel: nat) -> Option<Seq<usize>>
    decreases fuel, 0nat, 0nat,
{
    if g[of].nexts.len() == 0 {
        Some(seq![of as usize])
    } else if fuel == 0 {
        None
    } else {
        leafs_list(g, g[of].nexts, 0, Seq::empty(), (fuel - 1) as nat)
    }
}

pub open spec fn leafs_list(g: Seq<NodeV>, ns: Seq<usize>, j: nat, acc: Seq<usize>, fuel: nat) -> Option<Seq<usize>>
    decreases fuel, 1nat, ns.len() - j,
{
    if j >= ns.len() {
        Some(acc)
    } else {
        match leafs(g, ns[j as int] as int, fuel) {
            None => None,
            Some(ls) => leafs_list(g, ns, j + 1, merge(acc, ls), fuel),
        }
    }
}

/// Characters that an escape must not precede to read as a class, a
/// back-reference or an error: the special characters and `\`.
pub open spec fn is_meta(c: char) -> bool {
    is_special(c) || c == '\\'
}

/// Number of numeric characters in a row from position `i` on.
pub open spec fn numeric_run(p: Seq<char>, i: nat) -> nat
    decreases p.len() - i,
{
    if i < p.len() && numeric_char(p[i as int]) {
        1 + numeric_run(p, i + 1)
    } else {
        0
    }
}

/// A literal run with each escaping `\` removed (`\\` stays one `\`).
pub open spec fn unescape_from(s: Seq<char>, i: nat, esc: bool) -> Seq<char>
    decreases s.len() - i,
{
    if i >= s.len() {
        Seq::empty()
    } else if s[i as int] == '\\' {
        if esc {
            seq!['\\'] + unescape_from(s, i + 1, false)
        } else {
            unescape_from(s, i + 1, true)
        }
    } else {
        seq![s[i as int]] + unescape_from(s, i + 1, false)
    }
}

pub open spec fn unescape(s: Seq<char>) -> Seq<char> {
    unescape_from(s, 0, false)
}

/// Bounds of the `k`-th alternative of `p`, split at `bars`.
pub open spec fn alt_lo(bars: Seq<int>, k: int) -> int {
    if k == 0 {
        0
    } else {
        bars[k - 1] + 1
    }
}

pub open spec fn alt_hi(p: Seq<char>, bars: Seq<int>, k: int) -> int {
    if k == bars.len() {
        p.len() as int
    } else {
        bars[k]
    }
}

/// The graph after `pattern` has been added below the nodes `parents`, the
/// entry of what it builds attached to `t`; `push_end` asks for a final `End`
/// node where the pattern is used up. `None` where the pattern cannot be read.
pub open spec fn sub_construct(p: Seq<char>, st: BuildV, parents: Seq<usize>, t: Target, push_end: bool) -> Option<BuildV>
    decreases p.len(), 2nat, 0nat,
{
    if p.len() == 0 {
        if push_end {
            Some(push_target(with_node(st, CheckV::End(false)), t, st.nodes.len() as usize))
        } else {
            Some(st)
        }
    } else {
        match root_bars(p) {
            None => None,
            Some(bars) => if bars.len() > 0 {
                alternatives(p, bars, 0, st, parents, t, push_end)
            } else {
                single(p, st, parents, t, push_end)
            },
        }
    }
}

/// Builds alternatives `k..` of `p` one after the other.
pub open spec fn alternatives(
    p: Seq<char>,
    bars: Seq<int>,
    k: nat,
    st: BuildV,
    parents: Seq<usize>,
    t: Target,
    push_end: bool,
) -> Option<BuildV>
    decreases p.len(), 1nat, bars.len() + 1 - k,
{
    if k > bars.len() || root_bars(p) != Some(bars) || bars.len() == 0 {
        Some(st)
    } else {
        proof {
            lemma_root_bars_from(p, 0, nesting_start());
            assert(root_bars_from(p, 0, nesting_start()).unwrap() == bars);
            if k > 0 {
                assert(0 <= bars[k - 1] < p.len());
            }
            if k < bars.len() {
                assert(0 <= bars[k as int] < p.len());
            }
            if 0 < k < bars.len() {
                assert(bars[k - 1] < bars[k as int]);
            }
        }
        let seg = p.subrange(alt_lo(bars, k as int), alt_hi(p, bars, k as int));
        match sub_construct(seg, st, parents, t, push_end) {
            None => None,
            Some(st2) => alternatives(p, bars, k + 1, st2, parents, t, push_end),
        }
    }
}

/// A new node checking `c`, followed by what `rest` builds; returns the graph
/// and the new node. `append` puts the new node on the parents of `rest`.
pub open spec fn create(c: CheckV, rest: Seq<char>, st: BuildV, parents: Seq<usize>, push_end: bool, append: bool) -> Option<(BuildV, usize)>
    decreases rest.len(), 3nat, 0nat,
{
    let id = st.nodes.len() as usize;
    let ps = if append { parents.push(id) } else { parents };
    match sub_construct(rest, with_node(st, c), ps, Target::Front(id), push_end) {
        None => None,
        Some(s) => Some((s, id)),
    }
}

/// `create`, then the new node attached to `t`.
pub open spec fn link(c: CheckV, rest: Seq<char>, st: BuildV, parents: Seq<usize>, t: Target, push_end: bool) -> Option<BuildV>
    decreases rest.len(), 4nat, 0nat,
{
    match create(c, rest, st, parents, push_end, true) {
        None => None,
        Some((s, id)) => Some(push_target(s, t, id)),
    }
}

/// A repetition node looping back to the last parent, counted by a fresh
/// counter between `lo` and `hi`; `skip` also lets the parent before the last
/// one go straight to it.
pub open spec fn quantified(
    rest: Seq<char>,
    st: BuildV,
    parents: Seq<usize>,
    t: Target,
    push_end: bool,
    lo: usize,
    hi: usize,
    skip: bool,
) -> Option<BuildV>
    decreases rest.len(), 4nat, 0nat,
{
    if parents.len() == 0 || (skip && parents.len() < 2) {
        None
    } else {
        let last = parents.last();
        let ggp = parents[parents.len() - 2];
        let same = st.sames as usize;
        let st1 = BuildV { sames: st.sames + 1, ..st };
        match create(CheckV::MultipleOf(last, same, lo, hi, true), rest, st1, parents, push_end, true) {
            None => None,
            Some((s, r)) => {
                let s2 = if skip { add_next(s, ggp, r) } else { s };
                Some(push_target(s2, t, r))
            },
        }
    }
}

/// A pattern that is not split by a bar at its outermost level.
pub open spec fn single(p: Seq<char>, st: BuildV, parents: Seq<usize>, t: Target, push_end: bool) -> Option<BuildV>
    decreases p.len(), 1nat, 0nat,
{
    if p.len() == 0 {
        Some(st)
    } else {
        let c0 = p[0];
        if c0 == '(' && p.len() >= 2 && p[1] == '?' {
            None
        } else if c0 == '(' {
            group(p, st, parents, t, push_end)
        } else if c0 == '[' {
            match class_end(p) {
                Some(Some(end)) => {
                    proof {
                        lemma_class_end_from(p, 0, ClassNesting { inside: 0, escaped: false });
                    }
                    let negated = p.len() >= 2 && p[1] == '^';
                    let body = if negated { p.subrange(2, end) } else { p.subrange(1, end) };
                    if end < 1 || (negated && end < 2) {
                        None
                    } else {
                        match expand(body) {
                            None => None,
                            Some(set) => link(
                                if negated { CheckV::NoneOf(set) } else { CheckV::AnyOf(set) },
                                p.skip(end + 1),
                                st,
                                parents,
                                t,
                                push_end,
                            ),
                        }
                    }
                },
                _ => None,
            }
        } else if c0 == '.' {
            link(CheckV::NoneOf(Seq::empty()), p.skip(1), st, parents, t, push_end)
        } else if c0 == '?' {
            if parents.len() == 0 || parents.last() >= st.nodes.len() {
                None
            } else {
                let last = parents.last();
                match st.nodes[last as int].check {
                    CheckV::MultipleOf(a, b, lo, hi, greedy) => if !greedy {
                        None
                    } else {
                        sub_construct(
                            p.skip(1),
                            set_check(st, last, CheckV::MultipleOf(a, b, lo, hi, false)),
                            parents,
                            t,
                            push_end,
                        )
                    },
                    _ => quantified(p.skip(1), st, parents, t, push_end, 0, 1, true),
                }
            }
        } else if c0 == '*' {
            quantified(p.skip(1), st, parents, t, push_end, 0, usize::MAX, true)
        } else if c0 == '+' {
            quantified(p.skip(1), st, parents, t, push_end, 1, usize::MAX, false)
        } else if c0 == '^' {
            link(CheckV::Start, p.skip(1), st, parents, t, push_end)
        } else if c0 == '$' {
            link(CheckV::End(true), p.skip(1), st, parents, t, push_end)
        } else if c0 == '\\' && p.len() >= 2 && !is_meta(p[1]) {
            let c = p[1];
            if is_class_key(c) {
                link(
                    if lower(c) == c { CheckV::AnyOf(class_chars(c)) } else { CheckV::NoneOf(class_chars(lower(c))) },
                    p.skip(2),
                    st,
                    parents,
                    t,
                    push_end,
                )
            } else if numeric_char(c) {
                let n: int = 1 + numeric_run(p, 2) as int;
                if n + 1 > p.len() {
                    None
                } else {
                    match numeral_value(p.subrange(1, n + 1)) {
                        None => None,
                        Some(g) => link(
                            CheckV::SameAs(g),
                            p.skip(n + 1),
                            BuildV { sames: st.sames + 1, ..st },
                            parents,
                            t,
                            push_end,
                        ),
                    }
                }
            } else {
                None
            }
        } else if c0 == '{' {
            brace(p, st, parents, t, push_end)
        } else {
            let end = static_end(p);
            if end <= 0 || end > p.len() {
                None
            } else {
                link(CheckV::Static(unescape(p.take(end))), p.skip(end), st, parents, t, push_end)
            }
        }
    }
}

/// A capture group at the start of `p`.
pub open spec fn group(p: Seq<char>, st: BuildV, parents: Seq<usize>, t: Target, push_end: bool) -> Option<BuildV>
    decreases p.len(), 0nat, 0nat,
{
    match group_end(p) {
        Some(Some(end)) => {
            proof {
                lemma_group_end_from(p, 0, nesting_start());
            }
            if end < 1 {
                None
            } else {
                let gid = st.groups.len() as usize;
                let st1 = BuildV { groups: st.groups.push(usize::MAX), ..st };
                match create(CheckV::StartGroup(gid), p.subrange(1, end), st1, Seq::empty(), false, true) {
                    None => None,
                    Some((st2, id)) => {
                        let st3 = BuildV { groups: st2.groups.update(gid as int, id), ..st2 };
                        match create(CheckV::EndGroup(gid), p.skip(end + 1), st3, parents.push(id), push_end, false) {
                            None => None,
                            Some((st4, end_id)) => match leafs(st4.nodes, id as int, st4.nodes.len()) {
                                None => None,
                                Some(ls) => Some(push_target(attach(st4, ls, end_id), t, id)),
                            },
                        }
                    },
                }
            }
        },
        _ => None,
    }
}

/// A counted repetition `{n}`, `{m,n}`, `{m,}` or `{,n}` at the start of `p`.
pub open spec fn brace(p: Seq<char>, st: BuildV, parents: Seq<usize>, t: Target, push_end: bool) -> Option<BuildV>
    decreases p.len(), 0nat, 0nat,
{
    match index_of(p, '}') {
        None => None,
        Some(end) => {
            proof {
                crate::chars::lemma_index_of_from(p, '}', 0);
            }
            if end < 1 || end >= p.len() {
                None
            } else {
                let inner = p.subrange(1, end);
                let rest = p.skip(end + 1);
                match index_of(inner, ',') {
                    Some(k) => {
                        let a = inner.take(k);
                        let b = inner.skip(k + 1);
                        if b.contains(',') {
                            None
                        } else {
                            let lo = if a.len() == 0 { Some(0usize) } else { numeral_value(a) };
                            let hi = if b.len() == 0 { Some(usize::MAX) } else { numeral_value(b) };
                            match (lo, hi) {
                                (Some(lo), Some(hi)) => quantified(rest, st, parents, t, push_end, lo, hi, lo == 0),
                                _ => None,
                            }
                        }
                    },
                    None => match numeral_value(inner) {
                        None => None,
                        Some(n) => if n == 0 {
                            None
                        } else {
                            quantified(rest, st, parents, t, push_end, n, n, false)
                        },
                    },
                }
            }
        },
    }
}

} // verus!

verus! {

/// The graph under construction, as executable data.
pub struct Builder {
    pub nodes: Vec<Node>,
    pub groups: Vec<usize>,
    pub sames: usize,
    pub roots: Vec<usize>,
}

impl View for Builder {
    type V = BuildV;

    open spec fn view(&self) -> BuildV {
        BuildV { nodes: view_nodes(self.nodes@), groups: self.groups@, sames: self.sames as nat, roots: self.roots@ }
    }
}

pub open spec fn wf_build(st: BuildV) -> bool {
    &&& wf_nodes(st.nodes, st.groups.len(), st.sames)
    &&& forall|i: int| 0 <= i < st.roots.len() ==> #[trigger] st.roots[i] < st.nodes.len()
}

pub open spec fn ids_ok(ps: Seq<usize>, n: nat) -> bool {
    forall|i: int| 0 <= i < ps.len() ==> #[trigger] ps[i] < n
}

pub open spec fn target_ok(t: Target, n: nat) -> bool {
    match t {
        Target::Root => true,
        Target::Front(id) => id < n,
    }
}

/// `b` has at least the nodes, groups and counters of `a`.
pub open spec fn grows(a: BuildV, b: BuildV) -> bool {
    &&& a.nodes.len() <= b.nodes.len()
    &&& a.groups.len() <= b.groups.len()
    &&& a.sames <= b.sames
}

pub proof fn lemma_wf_widen(g: Seq<NodeV>, ng: nat, ns: nat, ng2: nat, ns2: nat)
    requires
        wf_nodes(g, ng, ns),
        ng <= ng2,
        ns <= ns2,
    ensures
        wf_nodes(g, ng2, ns2),
{
    assert forall|i: int| 0 <= i < g.len() implies check_wf(#[trigger] g[i].check, g.len(), ng2, ns2) by {
        assert(check_wf(g[i].check, g.len(), ng, ns));
    }
}

/// The characters of `p` from `lo` up to `hi`.
pub fn sub_vec(p: &Vec<char>, lo: usize, hi: usize) -> (r: Vec<char>)
    requires
        lo <= hi <= p@.len(),
    ensures
        r@ == p@.subrange(lo as int, hi as int),
{
    let mut r: Vec<char> = Vec::new();
    let mut k = lo;
    while k < hi
        invariant
            lo <= k <= hi,
            hi <= p@.len(),
            r@ == p@.subrange(lo as int, k as int),
        decreases hi - k,
    {
        r.push(p[k]);
        k = k + 1;
        assert(p@.subrange(lo as int, k as int) == p@.subrange(lo as int, k - 1).push(p@[k - 1]));
    }
    r
}

pub fn skip_vec(p: &Vec<char>, lo: usize) -> (r: Vec<char>)
    requires
        lo <= p@.len(),
    ensures
        r@ == p@.skip(lo as int),
{
    sub_vec(p, lo, p.len())
}

pub fn contains_usize(v: &Vec<usize>, x: usize) -> (r: bool)
    ensures
        r == v@.contains(x),
{
    let mut i: usize = 0;
    while i < v.len()
        invariant
            i <= v.len(),
            forall|j: int| 0 <= j < i ==> v@[j] != x,
        decreases v.len() - i,
    {
        if v[i] == x {
            return true;
        }
        i = i + 1;
    }
    false
}

pub fn merge_into(acc: &mut Vec<usize>, more: &Vec<usize>)
    ensures
        final(acc)@ == merge(old(acc)@, more@),
{
    let ghost start = acc@;
    let mut i: usize = 0;
    while i < more.len()
        invariant
            i <= more.len(),
            acc@ == merge(start, more@.take(i as int)),
        decreases more.len() - i,
    {
        let x = more[i];
        assert(more@.take(i + 1).drop_last() == more@.take(i as int));
        if !contains_usize(acc, x) {
            acc.push(x);
        }
        i = i + 1;
    }
    assert(more@.take(more.len() as int) == more@);
}

proof fn lemma_merge_in(acc: Seq<usize>, more: Seq<usize>, n: nat)
    requires
        forall|i: int| 0 <= i < acc.len() ==> #[trigger] acc[i] < n,
        forall|i: int| 0 <= i < more.len() ==> #[trigger] more[i] < n,
    ensures
        forall|i: int| 0 <= i < merge(acc, more).len() ==> #[trigger] merge(acc, more)[i] < n,
    decreases more.len(),
{
    if more.len() > 0 {
        lemma_merge_in(acc, more.drop_last(), n);
        let a = merge(acc, more.drop_last());
        let x = more.last();
        assert(x == more[more.len() - 1]);
        assert(x < n);
        if !a.contains(x) {
            assert forall|i: int| 0 <= i < a.push(x).len() implies #[trigger] a.push(x)[i] < n by {
                if i < a.len() {
                    assert(a.push(x)[i] == a[i]);
                }
            }
        }
    }
}

impl World {
    /// The nodes without successors reached from `of`; `None` where some path
    /// from `of` is longer than `fuel` edges.
    pub fn leafs(nodes: &Vec<Node>, of: usize, fuel: usize) -> (r: Option<Vec<usize>>)
        requires
            edges_ok(view_nodes(nodes@)),
            of < nodes@.len(),
        ensures
            match leafs(view_nodes(nodes@), of as int, fuel as nat) {
                None => r is None,
                Some(l) => r matches Some(v) && v@ == l,
            },
            r matches Some(v) ==> forall|i: int| 0 <= i < v@.len() ==> #[trigger] v@[i] < nodes@.len(),
        decreases fuel,
    {
        let ghost g = view_nodes(nodes@);
        assert(g[of as int].nexts == nodes@[of as int].nexts@);
        if nodes[of].nexts.len() == 0 {
            let mut v = Vec::new();
            v.push(of);
            return Some(v);
        }
        if fuel == 0 {
            return None;
        }
        let ns = &nodes[of].nexts;
        let mut acc: Vec<usize> = Vec::new();
        let mut j: usize = 0;
        while j < ns.len()
            invariant
                j <= ns@.len(),
                g == view_nodes(nodes@),
                edges_ok(g),
                of < g.len(),
                ns@ == g[of as int].nexts,
                fuel > 0,
                leafs(g, of as int, fuel as nat) == leafs_list(g, ns@, j as nat, acc@, (fuel - 1) as nat),
                forall|i: int| 0 <= i < acc@.len() ==> #[trigger] acc@[i] < g.len(),
            decreases ns@.len() - j,
        {
            let nx = ns[j];
            assert(g[of as int].nexts[j as int] < g.len());
            match World::leafs(nodes, nx, fuel - 1) {
                None => {
                    return None;
                },
                Some(ls) => {
                    proof {
                        lemma_merge_in(acc@, ls@, g.len());
                    }
                    merge_into(&mut acc, &ls);
                },
            }
            j = j + 1;
        }
        Some(acc)
    }
}

impl Builder {
    pub fn add_node(&mut self, c: Check) -> (id: usize)
        ensures
            final(self)@ == with_node(old(self)@, c@),
            id == old(self)@.nodes.len(),
    {
        let id = self.nodes.len();
        self.nodes.push(Node { check: c, nexts: Vec::new() });
        assert(view_nodes(self.nodes@) =~= view_nodes(old(self).nodes@).push(
            NodeV { check: c@, nexts: Seq::empty() },
        ));
        id
    }

    pub fn push_to(&mut self, t: Target, e: usize)
        requires
            target_ok(t, old(self)@.nodes.len()),
        ensures
            final(self)@ == push_target(old(self)@, t, e),
    {
        match t {
            Target::Root => {
                self.roots.push(e);
            },
            Target::Front(id) => {
                self.nodes[id].nexts.insert(0, e);
                assert(view_nodes(self.nodes@) =~= view_nodes(old(self).nodes@).update(
                    id as int,
                    NodeV {
                        check: view_nodes(old(self).nodes@)[id as int].check,
                        nexts: view_nodes(old(self).nodes@)[id as int].nexts.insert(0, e),
                    },
                ));
            },
        }
    }

    pub fn add_next_to(&mut self, at: usize, e: usize)
        requires
            at < old(self)@.nodes.len(),
        ensures
            final(self)@ == add_next(old(self)@, at, e),
    {
        self.nodes[at].nexts.push(e);
        assert(view_nodes(self.nodes@) =~= view_nodes(old(self).nodes@).update(
            at as int,
            NodeV {
                check: view_nodes(old(self).nodes@)[at as int].check,
                nexts: view_nodes(old(self).nodes@)[at as int].nexts.push(e),
            },
        ));
    }

    pub fn set_check_at(&mut self, at: usize, c: Check)
        requires
            at < old(self)@.nodes.len(),
        ensures
            final(self)@ == set_check(old(self)@, at, c@),
    {
        self.nodes[at].check = c;
        assert(view_nodes(self.nodes@) =~= view_nodes(old(self).nodes@).update(
            at as int,
            NodeV { check: c@, nexts: view_nodes(old(self).nodes@)[at as int].nexts },
        ));
    }

    pub fn attach_all(&mut self, leaves: &Vec<usize>, e: usize)
        requires
            forall|i: int| 0 <= i < leaves@.len() ==> #[trigger] leaves@[i] < old(self)@.nodes.len(),
        ensures
            final(self)@ == attach(old(self)@, leaves@, e),
    {
        let ghost start = self@;
        let mut i: usize = 0;
        while i < leaves.len()
            invariant
                i <= leaves@.len(),
                forall|k: int| 0 <= k < leaves@.len() ==> #[trigger] leaves@[k] < start.nodes.len(),
                self@ == attach(start, leaves@.take(i as int), e),
                self@.nodes.len() == start.nodes.len(),
            decreases leaves@.len() - i,
        {
            assert(leaves@.take(i + 1).drop_last() == leaves@.take(i as int));
            self.add_next_to(leaves[i], e);
            i = i + 1;
        }
        assert(leaves@.take(leaves@.len() as int) == leaves@);
    }
}

} // verus!

verus! {

/// `new` keeps the graph well formed, keeps what `old` had, and added at most
/// `n` counters.
pub open spec fn built(old: BuildV, new: BuildV, n: nat) -> bool {
    &&& wf_build(new)
    &&& grows(old, new)
    &&& new.sames <= old.sames + n
    &&& keeps(old, new)
}

pub proof fn lemma_with_node(st: BuildV, c: CheckV)
    requires
        wf_build(st),
        check_wf(c, st.nodes.len() + 1, st.groups.len(), st.sames),
    ensures
        wf_build(with_node(st, c)),
{
    let s2 = with_node(st, c);
    assert forall|i: int| 0 <= i < s2.nodes.len() implies check_wf(#[trigger] s2.nodes[i].check, s2.nodes.len(), s2.groups.len(), s2.sames) by {
        if i < st.nodes.len() {
            assert(check_wf(st.nodes[i].check, st.nodes.len(), st.groups.len(), st.sames));
        }
    }
    assert forall|i: int, j: int| 0 <= i < s2.nodes.len() && 0 <= j < s2.nodes[i].nexts.len() implies #[trigger] s2.nodes[i].nexts[j] < s2.nodes.len() by {
        if i < st.nodes.len() {
            assert(st.nodes[i].nexts[j] < st.nodes.len());
        }
    }
}

pub proof fn lemma_push_target(st: BuildV, t: Target, e: usize)
    requires
        wf_build(st),
        target_ok(t, st.nodes.len()),
        e < st.nodes.len(),
    ensures
        wf_build(push_target(st, t, e)),
        push_target(st, t, e).nodes.len() == st.nodes.len(),
        push_target(st, t, e).groups == st.groups,
        push_target(st, t, e).sames == st.sames,
{
    let s2 = push_target(st, t, e);
    if let Target::Front(id) = t {
        assert forall|i: int| 0 <= i < s2.nodes.len() implies check_wf(#[trigger] s2.nodes[i].check, s2.nodes.len(), s2.groups.len(), s2.sames) by {
            assert(check_wf(st.nodes[i].check, st.nodes.len(), st.groups.len(), st.sames));
        }
        assert forall|i: int, j: int| 0 <= i < s2.nodes.len() && 0 <= j < s2.nodes[i].nexts.len() implies #[trigger] s2.nodes[i].nexts[j] < s2.nodes.len() by {
            if i == id {
                if j > 0 {
                    assert(s2.nodes[i].nexts[j] == st.nodes[i].nexts[j - 1]);
                }
            } else {
                assert(st.nodes[i].nexts[j] < st.nodes.len());
            }
        }
    }
}

pub proof fn lemma_add_next(st: BuildV, at: usize, e: usize)
    requires
        wf_build(st),
        at < st.nodes.len(),
        e < st.nodes.len(),
    ensures
        wf_build(add_next(st, at, e)),
        add_next(st, at, e).nodes.len() == st.nodes.len(),
        add_next(st, at, e).groups == st.groups,
        add_next(st, at, e).sames == st.sames,
{
    let s2 = add_next(st, at, e);
    assert forall|i: int| 0 <= i < s2.nodes.len() implies check_wf(#[trigger] s2.nodes[i].check, s2.nodes.len(), s2.groups.len(), s2.sames) by {
        assert(check_wf(st.nodes[i].check, st.nodes.len(), st.groups.len(), st.sames));
    }
    assert forall|i: int, j: int| 0 <= i < s2.nodes.len() && 0 <= j < s2.nodes[i].nexts.len() implies #[trigger] s2.nodes[i].nexts[j] < s2.nodes.len() by {
        if i == at {
            if j < st.nodes[i].nexts.len() {
                assert(s2.nodes[i].nexts[j] == st.nodes[i].nexts[j]);
            }
        } else {
            assert(st.nodes[i].nexts[j] < st.nodes.len());
        }
    }
}

pub proof fn lemma_set_check(st: BuildV, at: usize, c: CheckV)
    requires
        wf_build(st),
        at < st.nodes.len(),
        check_wf(c, st.nodes.len(), st.groups.len(), st.sames),
    ensures
        wf_build(set_check(st, at, c)),
        set_check(st, at, c).nodes.len() == st.nodes.len(),
        set_check(st, at, c).groups == st.groups,
        set_check(st, at, c).sames == st.sames,
{
    let s2 = set_check(st, at, c);
    assert forall|i: int| 0 <= i < s2.nodes.len() implies check_wf(#[trigger] s2.nodes[i].check, s2.nodes.len(), s2.groups.len(), s2.sames) by {
        assert(check_wf(st.nodes[i].check, st.nodes.len(), st.groups.len(), st.sames));
    }
    assert forall|i: int, j: int| 0 <= i < s2.nodes.len() && 0 <= j < s2.nodes[i].nexts.len() implies #[trigger] s2.nodes[i].nexts[j] < s2.nodes.len() by {
        assert(st.nodes[i].nexts[j] < st.nodes.len());
    }
}

pub proof fn lemma_attach(st: BuildV, leaves: Seq<usize>, e: usize)
    requires
        wf_build(st),
        forall|i: int| 0 <= i < leaves.len() ==> #[trigger] leaves[i] < st.nodes.len(),
        e < st.nodes.len(),
    ensures
        wf_build(attach(st, leaves, e)),
        attach(st, leaves, e).nodes.len() == st.nodes.len(),
        attach(st, leaves, e).groups == st.groups,
        attach(st, leaves, e).sames == st.sames,
    decreases leaves.len(),
{
    if leaves.len() > 0 {
        lemma_attach(st, leaves.drop_last(), e);
        assert(leaves.last() == leaves[leaves.len() - 1]);
        lemma_add_next(attach(st, leaves.drop_last(), e), leaves.last(), e);
    }
}

/// The two checks are equal, or are repetitions that differ at most in which
/// way they try first.
pub open spec fn same_but_order(a: CheckV, b: CheckV) -> bool {
    a == b || (a matches CheckV::MultipleOf(t, k, lo, hi, _) && b matches CheckV::MultipleOf(t2, k2, lo2, hi2, _)
        && t == t2 && k == k2 && lo == lo2 && hi == hi2)
}

/// What `b` keeps of the graph `a` it was built from: no node, group or entry
/// is lost or moved; the nodes of `a` keep their checks (a repetition may
/// change which way it tries first) and their edges; every edge or entry
/// added leads to a node that `a` did not have; and each group added starts at
/// a node that `a` did not have, one that records the start of that group.
pub open spec fn keeps(a: BuildV, b: BuildV) -> bool {
    &&& a.nodes.len() <= b.nodes.len()
    &&& a.groups.len() <= b.groups.len()
    &&& a.roots.len() <= b.roots.len()
    &&& forall|i: int| 0 <= i < a.groups.len() ==> #[trigger] b.groups[i] == a.groups[i]
    &&& forall|i: int|
        a.groups.len() <= i < b.groups.len() ==> a.nodes.len() <= #[trigger] b.groups[i] < b.nodes.len()
            && b.nodes[b.groups[i] as int].check == CheckV::StartGroup(i as usize)
    &&& forall|i: int| 0 <= i < a.roots.len() ==> #[trigger] b.roots[i] == a.roots[i]
    &&& forall|i: int| a.roots.len() <= i < b.roots.len() ==> #[trigger] b.roots[i] >= a.nodes.len()
    &&& forall|i: int| 0 <= i < a.nodes.len() ==> same_but_order(a.nodes[i].check, #[trigger] b.nodes[i].check)
    &&& forall|i: int, j: int|
        0 <= i < a.nodes.len() && 0 <= j < a.nodes[i].nexts.len() ==> b.nodes[i].nexts.contains(#[trigger] a.nodes[i].nexts[j])
    &&& forall|i: int, j: int|
        0 <= i < b.nodes.len() && 0 <= j < b.nodes[i].nexts.len() ==> (#[trigger] b.nodes[i].nexts[j] >= a.nodes.len()
            || (i < a.nodes.len() && a.nodes[i].nexts.contains(b.nodes[i].nexts[j])))
}

pub proof fn lemma_keeps_refl(a: BuildV)
    ensures
        keeps(a, a),
{
    assert forall|i: int, j: int| 0 <= i < a.nodes.len() && 0 <= j < a.nodes[i].nexts.len()
        implies a.nodes[i].nexts.contains(#[trigger] a.nodes[i].nexts[j]) by {
    }
}

pub proof fn lemma_keeps_trans(a: BuildV, b: BuildV, c: BuildV)
    requires
        keeps(a, b),
        keeps(b, c),
    ensures
        keeps(a, c),
{
    assert forall|i: int, j: int| 0 <= i < a.nodes.len() && 0 <= j < a.nodes[i].nexts.len()
        implies c.nodes[i].nexts.contains(#[trigger] a.nodes[i].nexts[j]) by {
        let x = a.nodes[i].nexts[j];
        assert(b.nodes[i].nexts.contains(x));
        let k = choose|k: int| 0 <= k < b.nodes[i].nexts.len() && b.nodes[i].nexts[k] == x;
        assert(c.nodes[i].nexts.contains(b.nodes[i].nexts[k]));
    }
    assert forall|i: int, j: int| 0 <= i < c.nodes.len() && 0 <= j < c.nodes[i].nexts.len()
        implies (#[trigger] c.nodes[i].nexts[j] >= a.nodes.len()
            || (i < a.nodes.len() && a.nodes[i].nexts.contains(c.nodes[i].nexts[j]))) by {
        let y = c.nodes[i].nexts[j];
        if y < b.nodes.len() {
            assert(i < b.nodes.len() && b.nodes[i].nexts.contains(y));
            let k = choose|k: int| 0 <= k < b.nodes[i].nexts.len() && b.nodes[i].nexts[k] == y;
            assert(b.nodes[i].nexts[k] >= a.nodes.len() || (i < a.nodes.len() && a.nodes[i].nexts.contains(b.nodes[i].nexts[k])));
        }
    }
    assert forall|i: int| 0 <= i < a.nodes.len() implies same_but_order(a.nodes[i].check, #[trigger] c.nodes[i].check) by {
        assert(same_but_order(a.nodes[i].check, b.nodes[i].check));
        assert(same_but_order(b.nodes[i].check, c.nodes[i].check));
    }
    assert forall|i: int| a.roots.len() <= i < c.roots.len() implies #[trigger] c.roots[i] >= a.nodes.len() by {
        if i < b.roots.len() {
            assert(c.roots[i] == b.roots[i]);
        }
    }
    assert forall|i: int| 0 <= i < a.groups.len() implies #[trigger] c.groups[i] == a.groups[i] by {
        assert(c.groups[i] == b.groups[i]);
    }
    assert forall|i: int| 0 <= i < a.roots.len() implies #[trigger] c.roots[i] == a.roots[i] by {
        assert(c.roots[i] == b.roots[i]);
    }
}

pub proof fn lemma_keeps_with_node(a: BuildV, b: BuildV, c: CheckV)
    requires
        keeps(a, b),
    ensures
        keeps(a, with_node(b, c)),
{
    let s = with_node(b, c);
    assert forall|i: int, j: int| 0 <= i < a.nodes.len() && 0 <= j < a.nodes[i].nexts.len()
        implies s.nodes[i].nexts.contains(#[trigger] a.nodes[i].nexts[j]) by {
        assert(s.nodes[i] == b.nodes[i]);
        assert(b.nodes[i].nexts.contains(a.nodes[i].nexts[j]));
    }
    assert forall|i: int, j: int| 0 <= i < s.nodes.len() && 0 <= j < s.nodes[i].nexts.len()
        implies (#[trigger] s.nodes[i].nexts[j] >= a.nodes.len()
            || (i < a.nodes.len() && a.nodes[i].nexts.contains(s.nodes[i].nexts[j]))) by {
        assert(s.nodes[i] == b.nodes[i]);
        assert(b.nodes[i].nexts[j] >= a.nodes.len() || (i < a.nodes.len() && a.nodes[i].nexts.contains(b.nodes[i].nexts[j])));
    }
    assert forall|i: int| 0 <= i < a.nodes.len() implies same_but_order(a.nodes[i].check, #[trigger] s.nodes[i].check) by {
        assert(s.nodes[i] == b.nodes[i]);
        assert(same_but_order(a.nodes[i].check, b.nodes[i].check));
    }
}

/// Adding the edge `at -> e` to `b` keeps `a` where `e` is a node `a` did not
/// have.
pub proof fn lemma_keeps_add_next(a: BuildV, b: BuildV, at: usize, e: usize)
    requires
        keeps(a, b),
        at < b.nodes.len(),
        e >= a.nodes.len(),
    ensures
        keeps(a, add_next(b, at, e)),
{
    let s = add_next(b, at, e);
    assert forall|i: int, j: int| 0 <= i < a.nodes.len() && 0 <= j < a.nodes[i].nexts.len()
        implies s.nodes[i].nexts.contains(#[trigger] a.nodes[i].nexts[j]) by {
        let x = a.nodes[i].nexts[j];
        assert(b.nodes[i].nexts.contains(x));
        let k = choose|k: int| 0 <= k < b.nodes[i].nexts.len() && b.nodes[i].nexts[k] == x;
        assert(s.nodes[i].nexts[k] == x);
    }
    assert forall|i: int, j: int| 0 <= i < s.nodes.len() && 0 <= j < s.nodes[i].nexts.len()
        implies (#[trigger] s.nodes[i].nexts[j] >= a.nodes.len()
            || (i < a.nodes.len() && a.nodes[i].nexts.contains(s.nodes[i].nexts[j]))) by {
        if i != at || j < b.nodes[i].nexts.len() {
            assert(s.nodes[i].nexts[j] == b.nodes[i].nexts[j]);
            assert(b.nodes[i].nexts[j] >= a.nodes.len() || (i < a.nodes.len() && a.nodes[i].nexts.contains(b.nodes[i].nexts[j])));
        }
    }
    assert forall|i: int| 0 <= i < a.nodes.len() implies same_but_order(a.nodes[i].check, #[trigger] s.nodes[i].check) by {
        assert(same_but_order(a.nodes[i].check, b.nodes[i].check));
    }
}

/// Attaching `e` to `t` in `b` keeps `a` where `e` is a node `a` did not have.
pub proof fn lemma_keeps_push_target(a: BuildV, b: BuildV, t: Target, e: usize)
    requires
        keeps(a, b),
        target_ok(t, b.nodes.len()),
        e >= a.nodes.len(),
    ensures
        keeps(a, push_target(b, t, e)),
{
    let s = push_target(b, t, e);
    match t {
        Target::Root => {
            assert forall|i: int| a.roots.len() <= i < s.roots.len() implies #[trigger] s.roots[i] >= a.nodes.len() by {
                if i < b.roots.len() {
                    assert(s.roots[i] == b.roots[i]);
                }
            }
            assert forall|i: int| 0 <= i < a.roots.len() implies #[trigger] s.roots[i] == a.roots[i] by {
                assert(s.roots[i] == b.roots[i]);
            }
        },
        Target::Front(at) => {
            assert forall|i: int, j: int| 0 <= i < a.nodes.len() && 0 <= j < a.nodes[i].nexts.len()
                implies s.nodes[i].nexts.contains(#[trigger] a.nodes[i].nexts[j]) by {
                let x = a.nodes[i].nexts[j];
                assert(b.nodes[i].nexts.contains(x));
                let k = choose|k: int| 0 <= k < b.nodes[i].nexts.len() && b.nodes[i].nexts[k] == x;
                if i == at {
                    assert(s.nodes[i].nexts[k + 1] == x);
                } else {
                    assert(s.nodes[i].nexts[k] == x);
                }
            }
            assert forall|i: int, j: int| 0 <= i < s.nodes.len() && 0 <= j < s.nodes[i].nexts.len()
                implies (#[trigger] s.nodes[i].nexts[j] >= a.nodes.len()
                    || (i < a.nodes.len() && a.nodes[i].nexts.contains(s.nodes[i].nexts[j]))) by {
                if i != at {
                    assert(s.nodes[i].nexts[j] == b.nodes[i].nexts[j]);
                    assert(b.nodes[i].nexts[j] >= a.nodes.len() || (i < a.nodes.len() && a.nodes[i].nexts.contains(b.nodes[i].nexts[j])));
                } else if j > 0 {
                    assert(s.nodes[i].nexts[j] == b.nodes[i].nexts[j - 1]);
                    assert(b.nodes[i].nexts[j - 1] >= a.nodes.len() || (i < a.nodes.len() && a.nodes[i].nexts.contains(b.nodes[i].nexts[j - 1])));
                }
            }
            assert forall|i: int| 0 <= i < a.nodes.len() implies same_but_order(a.nodes[i].check, #[trigger] s.nodes[i].check) by {
                assert(same_but_order(a.nodes[i].check, b.nodes[i].check));
            }
        },
    }
}

pub proof fn lemma_keeps_attach(a: BuildV, b: BuildV, leaves: Seq<usize>, e: usize)
    requires
        keeps(a, b),
        forall|i: int| 0 <= i < leaves.len() ==> #[trigger] leaves[i] < b.nodes.len(),
        e >= a.nodes.len(),
    ensures
        keeps(a, attach(b, leaves, e)),
        attach(b, leaves, e).nodes.len() == b.nodes.len(),
    decreases leaves.len(),
{
    if leaves.len() > 0 {
        lemma_keeps_attach(a, b, leaves.drop_last(), e);
        assert(leaves.last() == leaves[leaves.len() - 1]);
        lemma_keeps_add_next(a, attach(b, leaves.drop_last(), e), leaves.last(), e);
    }
}

/// Changing which way the repetition at `at` tries first keeps `a`.
pub proof fn lemma_keeps_set_check(a: BuildV, b: BuildV, at: usize, c: CheckV)
    requires
        keeps(a, b),
        at < b.nodes.len(),
        same_but_order(b.nodes[at as int].check, c),
    ensures
        keeps(a, set_check(b, at, c)),
{
    let s = set_check(b, at, c);
    assert forall|i: int, j: int| 0 <= i < a.nodes.len() && 0 <= j < a.nodes[i].nexts.len()
        implies s.nodes[i].nexts.contains(#[trigger] a.nodes[i].nexts[j]) by {
        assert(s.nodes[i].nexts == b.nodes[i].nexts);
        assert(b.nodes[i].nexts.contains(a.nodes[i].nexts[j]));
    }
    assert forall|i: int, j: int| 0 <= i < s.nodes.len() && 0 <= j < s.nodes[i].nexts.len()
        implies (#[trigger] s.nodes[i].nexts[j] >= a.nodes.len()
            || (i < a.nodes.len() && a.nodes[i].nexts.contains(s.nodes[i].nexts[j]))) by {
        assert(s.nodes[i].nexts == b.nodes[i].nexts);
        assert(b.nodes[i].nexts[j] >= a.nodes.len() || (i < a.nodes.len() && a.nodes[i].nexts.contains(b.nodes[i].nexts[j])));
    }
    assert forall|i: int| 0 <= i < a.nodes.len() implies same_but_order(a.nodes[i].check, #[trigger] s.nodes[i].check) by {
        assert(same_but_order(a.nodes[i].check, b.nodes[i].check));
    }
}

/// Opening a group: a slot is reserved for it, what follows is built, and the
/// slot is set to the node that records the group's start.
pub proof fn lemma_keeps_group(a: BuildV, g1: BuildV, g2: BuildV, g3: BuildV, id: usize)
    requires
        g1.nodes == a.nodes,
        g1.roots == a.roots,
        g1.groups == a.groups.push(usize::MAX),
        keeps(g1, g2),
        id == a.nodes.len(),
        id < g2.nodes.len(),
        g2.nodes[id as int].check == CheckV::StartGroup(a.groups.len() as usize),
        g3 == (BuildV { groups: g2.groups.update(a.groups.len() as int, id), ..g2 }),
    ensures
        keeps(a, g3),
{
    let gid = a.groups.len() as int;
    assert forall|i: int| 0 <= i < a.groups.len() implies #[trigger] g3.groups[i] == a.groups[i] by {
        assert(g2.groups[i] == g1.groups[i]);
    }
    assert forall|i: int| a.groups.len() <= i < g3.groups.len() implies a.nodes.len() <= #[trigger] g3.groups[i] < g3.nodes.len()
        && g3.nodes[g3.groups[i] as int].check == CheckV::StartGroup(i as usize) by {
        if i > gid {
            assert(g3.groups[i] == g2.groups[i]);
        }
    }
    assert forall|i: int, j: int| 0 <= i < a.nodes.len() && 0 <= j < a.nodes[i].nexts.len()
        implies g3.nodes[i].nexts.contains(#[trigger] a.nodes[i].nexts[j]) by {
        assert(a.nodes[i].nexts[j] == g1.nodes[i].nexts[j]);
    }
    assert forall|i: int, j: int| 0 <= i < g3.nodes.len() && 0 <= j < g3.nodes[i].nexts.len()
        implies (#[trigger] g3.nodes[i].nexts[j] >= a.nodes.len()
            || (i < a.nodes.len() && a.nodes[i].nexts.contains(g3.nodes[i].nexts[j]))) by {
        assert(g2.nodes[i].nexts[j] >= g1.nodes.len() || (i < g1.nodes.len() && g1.nodes[i].nexts.contains(g2.nodes[i].nexts[j])));
    }
    assert forall|i: int| 0 <= i < a.nodes.len() implies same_but_order(a.nodes[i].check, #[trigger] g3.nodes[i].check) by {
        assert(same_but_order(g1.nodes[i].check, g2.nodes[i].check));
    }
    assert forall|i: int| a.roots.len() <= i < g3.roots.len() implies #[trigger] g3.roots[i] >= a.nodes.len() by {
        assert(g3.roots[i] == g2.roots[i]);
    }
    assert forall|i: int| 0 <= i < a.roots.len() implies #[trigger] g3.roots[i] == a.roots[i] by {
        assert(g3.roots[i] == g2.roots[i]);
    }
}

/// The nodes of `a` other than those in `parents` and the one `t` attaches to
/// are as they were in `b`.
pub open spec fn untouched(a: BuildV, b: BuildV, parents: Seq<usize>, t: Target) -> bool {
    &&& a.nodes.len() <= b.nodes.len()
    &&& forall|i: int|
        0 <= i < a.nodes.len() && !parents.contains(i as usize) && t != Target::Front(i as usize) ==> #[trigger] b.nodes[i]
            == a.nodes[i]
}

/// Every repetition that `b` added to `a` loops back to one of `parents` or to
/// a node that `a` did not have.
pub open spec fn loops_within(a: BuildV, b: BuildV, parents: Seq<usize>) -> bool {
    forall|i: int|
        a.nodes.len() <= i < b.nodes.len() ==> (#[trigger] b.nodes[i].check matches CheckV::MultipleOf(tg, _, _, _, _) ==> (
        parents.contains(tg) || tg >= a.nodes.len()))
}

/// A node `x` that a step may change: one of `parents`, the one `t` attaches
/// to, or one that `a` did not have.
pub open spec fn may_touch(a: BuildV, parents: Seq<usize>, t: Target, x: int) -> bool {
    parents.contains(x as usize) || t == Target::Front(x as usize) || x >= a.nodes.len() || x < 0
}

/// One step from `b` to `b2` that changes at most the node `x` and adds nodes
/// whose repetitions loop where allowed keeps both properties.
pub proof fn lemma_frame_step(a: BuildV, b: BuildV, b2: BuildV, parents: Seq<usize>, t: Target, x: int)
    requires
        untouched(a, b, parents, t),
        loops_within(a, b, parents),
        b.nodes.len() <= b2.nodes.len(),
        may_touch(a, parents, t, x),
        forall|i: int| 0 <= i < b.nodes.len() && i != x ==> #[trigger] b2.nodes[i] == b.nodes[i],
        0 <= x < b.nodes.len() ==> same_but_order(b.nodes[x].check, b2.nodes[x].check),
        forall|i: int|
            b.nodes.len() <= i < b2.nodes.len() ==> (#[trigger] b2.nodes[i].check matches CheckV::MultipleOf(tg, _, _, _, _) ==> (
            parents.contains(tg) || tg >= a.nodes.len())),
    ensures
        untouched(a, b2, parents, t),
        loops_within(a, b2, parents),
{
    assert forall|i: int|
        0 <= i < a.nodes.len() && !parents.contains(i as usize) && t != Target::Front(i as usize) implies #[trigger] b2.nodes[i]
            == a.nodes[i] by {
        assert(i != x);
        assert(b2.nodes[i] == b.nodes[i]);
    }
    assert forall|i: int| a.nodes.len() <= i < b2.nodes.len() implies (#[trigger] b2.nodes[i].check matches CheckV::MultipleOf(tg, _, _, _, _)
        ==> (parents.contains(tg) || tg >= a.nodes.len())) by {
        if i < b.nodes.len() {
            if i == x {
                assert(same_but_order(b.nodes[x].check, b2.nodes[x].check));
            } else {
                assert(b2.nodes[i] == b.nodes[i]);
            }
            assert(b.nodes[i].check matches CheckV::MultipleOf(tg, _, _, _, _) ==> (parents.contains(tg) || tg >= a.nodes.len()));
        }
    }
}

/// Two stretches of building compose where the second one's parents and
/// target are allowed to the first.
pub proof fn lemma_frame_trans(
    a: BuildV,
    b: BuildV,
    c: BuildV,
    ps1: Seq<usize>,
    t1: Target,
    ps2: Seq<usize>,
    t2: Target,
)
    requires
        untouched(a, b, ps1, t1),
        loops_within(a, b, ps1),
        untouched(b, c, ps2, t2),
        loops_within(b, c, ps2),
        keeps(b, c),
        forall|y: usize| #[trigger] ps2.contains(y) ==> ps1.contains(y) || y >= a.nodes.len(),
        t2 == t1 || t2 == Target::Root || (t2 matches Target::Front(y) && y >= a.nodes.len()),
    ensures
        untouched(a, c, ps1, t1),
        loops_within(a, c, ps1),
{
    assert forall|i: int|
        0 <= i < a.nodes.len() && !ps1.contains(i as usize) && t1 != Target::Front(i as usize) implies #[trigger] c.nodes[i]
            == a.nodes[i] by {
        if ps2.contains(i as usize) {
            assert(ps1.contains(i as usize) || i >= a.nodes.len());
        }
        assert(c.nodes[i] == b.nodes[i]);
    }
    assert forall|i: int| a.nodes.len() <= i < c.nodes.len() implies (#[trigger] c.nodes[i].check matches CheckV::MultipleOf(tg, _, _, _, _)
        ==> (ps1.contains(tg) || tg >= a.nodes.len())) by {
        if i < b.nodes.len() {
            assert(same_but_order(b.nodes[i].check, c.nodes[i].check));
            assert(b.nodes[i].check matches CheckV::MultipleOf(tg, _, _, _, _) ==> (ps1.contains(tg) || tg >= a.nodes.len()));
        } else {
            if let CheckV::MultipleOf(tg, _, _, _, _) = c.nodes[i].check {
                assert(ps2.contains(tg) || tg >= b.nodes.len());
            }
        }
    }
}

pub proof fn lemma_frame_refl(a: BuildV, parents: Seq<usize>, t: Target)
    ensures
        untouched(a, a, parents, t),
        loops_within(a, a, parents),
{
}

/// All nodes from `o` on have their edges from `o` on.
pub open spec fn closed_from(g: Seq<NodeV>, o: nat) -> bool {
    forall|i: int, j: int| o <= i < g.len() && 0 <= j < g[i].nexts.len() ==> #[trigger] g[i].nexts[j] >= o
}

proof fn lemma_merge_within(acc: Seq<usize>, more: Seq<usize>, o: nat)
    requires
        forall|k: int| 0 <= k < acc.len() ==> #[trigger] acc[k] >= o,
        forall|k: int| 0 <= k < more.len() ==> #[trigger] more[k] >= o,
    ensures
        forall|k: int| 0 <= k < merge(acc, more).len() ==> #[trigger] merge(acc, more)[k] >= o,
    decreases more.len(),
{
    if more.len() > 0 {
        assert(forall|k: int| 0 <= k < more.drop_last().len() ==> #[trigger] more.drop_last()[k] == more[k]);
        lemma_merge_within(acc, more.drop_last(), o);
        let m = merge(acc, more.drop_last());
        assert(more.last() >= o);
        if !m.contains(more.last()) {
            assert forall|k: int| 0 <= k < m.push(more.last()).len() implies #[trigger] m.push(more.last())[k] >= o by {
                if k < m.len() {
                    assert(m.push(more.last())[k] == m[k]);
                }
            }
        }
    }
}

/// The leaves reached from a node from `o` on, in a graph closed from `o` on,
/// lie from `o` on.
proof fn lemma_leafs_within(g: Seq<NodeV>, of: int, fuel: nat, o: nat)
    requires
        edges_ok(g),
        closed_from(g, o),
        o <= of < g.len(),
        g.len() <= usize::MAX,
    ensures
        leafs(g, of, fuel) matches Some(l) ==> forall|k: int| 0 <= k < l.len() ==> #[trigger] l[k] >= o,
    decreases fuel, 0nat, 0nat,
{
    if g[of].nexts.len() == 0 {
        let l = seq![of as usize];
        assert(leafs(g, of, fuel) == Some(l));
        assert(l[0] == of);
    } else if fuel > 0 {
        let ns = g[of].nexts;
        assert forall|k: int| 0 <= k < ns.len() implies #[trigger] ns[k] >= o && ns[k] < g.len() by {
            assert(g[of].nexts[k] >= o);
            assert(g[of].nexts[k] < g.len());
        }
        lemma_leafs_list_within(g, ns, 0, Seq::empty(), (fuel - 1) as nat, o);
    }
}

proof fn lemma_leafs_list_within(g: Seq<NodeV>, ns: Seq<usize>, j: nat, acc: Seq<usize>, fuel: nat, o: nat)
    requires
        edges_ok(g),
        closed_from(g, o),
        g.len() <= usize::MAX,
        forall|k: int| 0 <= k < ns.len() ==> #[trigger] ns[k] >= o && ns[k] < g.len(),
        forall|k: int| 0 <= k < acc.len() ==> #[trigger] acc[k] >= o,
    ensures
        leafs_list(g, ns, j, acc, fuel) matches Some(l) ==> forall|k: int| 0 <= k < l.len() ==> #[trigger] l[k] >= o,
    decreases fuel, 1nat, ns.len() - j,
{
    if j < ns.len() {
        lemma_leafs_within(g, ns[j as int] as int, fuel, o);
        if let Some(ls) = leafs(g, ns[j as int] as int, fuel) {
            lemma_merge_within(acc, ls, o);
            lemma_leafs_list_within(g, ns, j + 1, merge(acc, ls), fuel, o);
        }
    }
}

/// Attaching `e` to leaves that `a` did not have keeps both properties.
pub proof fn lemma_frame_attach(a: BuildV, b: BuildV, parents: Seq<usize>, t: Target, leaves: Seq<usize>, e: usize)
    requires
        untouched(a, b, parents, t),
        loops_within(a, b, parents),
        forall|i: int| 0 <= i < leaves.len() ==> a.nodes.len() <= #[trigger] leaves[i] < b.nodes.len(),
    ensures
        untouched(a, attach(b, leaves, e), parents, t),
        loops_within(a, attach(b, leaves, e), parents),
        attach(b, leaves, e).nodes.len() == b.nodes.len(),
    decreases leaves.len(),
{
    if leaves.len() > 0 {
        assert(forall|i: int| 0 <= i < leaves.drop_last().len() ==> #[trigger] leaves.drop_last()[i] == leaves[i]);
        lemma_frame_attach(a, b, parents, t, leaves.drop_last(), e);
        let b1 = attach(b, leaves.drop_last(), e);
        let x = leaves.last();
        assert(x == leaves[leaves.len() - 1]);
        lemma_frame_step(a, b1, add_next(b1, x, e), parents, t, x as int);
    }
}

pub proof fn lemma_frame_with_node(a: BuildV, b: BuildV, parents: Seq<usize>, t: Target, c: CheckV)
    requires
        untouched(a, b, parents, t),
        loops_within(a, b, parents),
        c matches CheckV::MultipleOf(tg, _, _, _, _) ==> (parents.contains(tg) || tg >= a.nodes.len()),
    ensures
        untouched(a, with_node(b, c), parents, t),
        loops_within(a, with_node(b, c), parents),
{
    let b2 = with_node(b, c);
    assert(b2.nodes[b.nodes.len() as int].check == c);
    lemma_frame_step(a, b, b2, parents, t, -1);
}

pub proof fn lemma_frame_push_target(a: BuildV, b: BuildV, parents: Seq<usize>, t: Target, t2: Target, e: usize)
    requires
        untouched(a, b, parents, t),
        loops_within(a, b, parents),
        target_ok(t2, b.nodes.len()),
        t2 == t || t2 == Target::Root || (t2 matches Target::Front(y) && (y >= a.nodes.len() || parents.contains(y))),
    ensures
        untouched(a, push_target(b, t2, e), parents, t),
        loops_within(a, push_target(b, t2, e), parents),
{
    let b2 = push_target(b, t2, e);
    match t2 {
        Target::Root => {
            lemma_frame_step(a, b, b2, parents, t, -1);
        },
        Target::Front(y) => {
            lemma_frame_step(a, b, b2, parents, t, y as int);
        },
    }
}

pub proof fn lemma_frame_add_next(a: BuildV, b: BuildV, parents: Seq<usize>, t: Target, at: usize, e: usize)
    requires
        untouched(a, b, parents, t),
        loops_within(a, b, parents),
        at < b.nodes.len(),
        parents.contains(at) || at >= a.nodes.len(),
    ensures
        untouched(a, add_next(b, at, e), parents, t),
        loops_within(a, add_next(b, at, e), parents),
{
    lemma_frame_step(a, b, add_next(b, at, e), parents, t, at as int);
}

pub proof fn lemma_frame_set_check(a: BuildV, b: BuildV, parents: Seq<usize>, t: Target, at: usize, c: CheckV)
    requires
        untouched(a, b, parents, t),
        loops_within(a, b, parents),
        at < b.nodes.len(),
        parents.contains(at) || at >= a.nodes.len(),
        same_but_order(b.nodes[at as int].check, c),
    ensures
        untouched(a, set_check(b, at, c), parents, t),
        loops_within(a, set_check(b, at, c), parents),
{
    lemma_frame_step(a, b, set_check(b, at, c), parents, t, at as int);
}

/// What building from no parents into the entry list leaves of the graph it
/// started from: every node before is as it was, the edges and repetition
/// loops of each added node lead to added nodes, and the groups added match
/// the group-start nodes added one to one: each added group starts at an added
/// node that records its start, and each added group-start node is where the
/// added group of its number starts.
pub proof fn lemma_fresh_build(a: BuildV, b: BuildV)
    requires
        keeps(a, b),
        untouched(a, b, Seq::empty(), Target::Root),
        loops_within(a, b, Seq::empty()),
        starts_match(a, b),
    ensures
        b.nodes.take(a.nodes.len() as int) == a.nodes,
        b.groups.take(a.groups.len() as int) == a.groups,
        b.roots.take(a.roots.len() as int) == a.roots,
        forall|i: int, j: int|
            a.nodes.len() <= i < b.nodes.len() && 0 <= j < b.nodes[i].nexts.len() ==> a.nodes.len() <= #[trigger] b.nodes[i].nexts[j],
        forall|i: int|
            a.nodes.len() <= i < b.nodes.len() ==> (#[trigger] b.nodes[i].check matches CheckV::MultipleOf(tg, _, _, _, _) ==> a.nodes.len() <= tg),
        forall|i: int| a.roots.len() <= i < b.roots.len() ==> a.nodes.len() <= #[trigger] b.roots[i],
        forall|g: int|
            a.groups.len() <= g < b.groups.len() ==> a.nodes.len() <= #[trigger] b.groups[g] < b.nodes.len()
                && b.nodes[b.groups[g] as int].check == CheckV::StartGroup(g as usize),
        forall|i: int|
            a.nodes.len() <= i < b.nodes.len() ==> (#[trigger] b.nodes[i].check matches CheckV::StartGroup(g) ==> a.groups.len()
                <= g < b.groups.len() && b.groups[g as int] == i),
{
    assert(b.nodes.take(a.nodes.len() as int) =~= a.nodes) by {
        assert forall|i: int| 0 <= i < a.nodes.len() implies #[trigger] b.nodes.take(a.nodes.len() as int)[i] == a.nodes[i] by {
            assert(!Seq::<usize>::empty().contains(i as usize));
            assert(b.nodes[i] == a.nodes[i]);
        }
    }
    assert(b.groups.take(a.groups.len() as int) =~= a.groups);
    assert(b.roots.take(a.roots.len() as int) =~= a.roots);
    assert forall|i: int, j: int| a.nodes.len() <= i < b.nodes.len() && 0 <= j < b.nodes[i].nexts.len()
        implies a.nodes.len() <= #[trigger] b.nodes[i].nexts[j] by {
        assert(b.nodes[i].nexts[j] >= a.nodes.len() || (i < a.nodes.len() && a.nodes[i].nexts.contains(b.nodes[i].nexts[j])));
    }
    assert forall|i: int| a.nodes.len() <= i < b.nodes.len() implies (#[trigger] b.nodes[i].check matches CheckV::MultipleOf(tg, _, _, _, _)
        ==> a.nodes.len() <= tg) by {
        if let CheckV::MultipleOf(tg, _, _, _, _) = b.nodes[i].check {
            assert(!Seq::<usize>::empty().contains(tg));
        }
    }
}

/// Each group-start node that `b` added to `a` records a group that `b`
/// added, and that group starts at it.
pub open spec fn starts_match(a: BuildV, b: BuildV) -> bool {
    forall|i: int|
        a.nodes.len() <= i < b.nodes.len() ==> (#[trigger] b.nodes[i].check matches CheckV::StartGroup(g) ==> a.groups.len()
            <= g < b.groups.len() && b.groups[g as int] == i)
}

pub proof fn lemma_starts_refl(a: BuildV)
    ensures
        starts_match(a, a),
{
}

pub proof fn lemma_starts_trans(a: BuildV, b: BuildV, c: BuildV)
    requires
        starts_match(a, b),
        starts_match(b, c),
        keeps(a, b),
        keeps(b, c),
    ensures
        starts_match(a, c),
{
    assert forall|i: int| a.nodes.len() <= i < c.nodes.len() implies (#[trigger] c.nodes[i].check matches CheckV::StartGroup(g)
        ==> a.groups.len() <= g < c.groups.len() && c.groups[g as int] == i) by {
        if i < b.nodes.len() {
            assert(same_but_order(b.nodes[i].check, c.nodes[i].check));
            if let CheckV::StartGroup(g) = c.nodes[i].check {
                assert(b.nodes[i].check == c.nodes[i].check);
                assert(c.groups[g as int] == b.groups[g as int]);
            }
        }
    }
}

/// A step that changes no group, adds no node and keeps each check up to
/// the order of a repetition keeps `starts_match`.
pub proof fn lemma_starts_same(a: BuildV, b: BuildV, b2: BuildV)
    requires
        starts_match(a, b),
        b2.nodes.len() == b.nodes.len(),
        b2.groups == b.groups,
        forall|i: int| 0 <= i < b.nodes.len() ==> same_but_order(b.nodes[i].check, #[trigger] b2.nodes[i].check),
    ensures
        starts_match(a, b2),
{
    assert forall|i: int| a.nodes.len() <= i < b2.nodes.len() implies (#[trigger] b2.nodes[i].check matches CheckV::StartGroup(g)
        ==> a.groups.len() <= g < b2.groups.len() && b2.groups[g as int] == i) by {
        assert(same_but_order(b.nodes[i].check, b2.nodes[i].check));
    }
}

pub proof fn lemma_attach_checks(b: BuildV, leaves: Seq<usize>, e: usize)
    requires
        forall|i: int| 0 <= i < leaves.len() ==> #[trigger] leaves[i] < b.nodes.len(),
    ensures
        attach(b, leaves, e).nodes.len() == b.nodes.len(),
        attach(b, leaves, e).groups == b.groups,
        forall|i: int| 0 <= i < b.nodes.len() ==> #[trigger] attach(b, leaves, e).nodes[i].check == b.nodes[i].check,
    decreases leaves.len(),
{
    if leaves.len() > 0 {
        assert(forall|i: int| 0 <= i < leaves.drop_last().len() ==> #[trigger] leaves.drop_last()[i] == leaves[i]);
        lemma_attach_checks(b, leaves.drop_last(), e);
        assert(leaves.last() == leaves[leaves.len() - 1]);
    }
}

/// A node that starts no group, followed by what was built below it.
pub proof fn lemma_starts_create(a: BuildV, c: CheckV, s: BuildV)
    requires
        starts_match(with_node(a, c), s),
        !(c is StartGroup),
        a.nodes.len() < s.nodes.len(),
        same_but_order(c, s.nodes[a.nodes.len() as int].check),
    ensures
        starts_match(a, s),
{
    let m = with_node(a, c);
    assert forall|i: int| a.nodes.len() <= i < s.nodes.len() implies (#[trigger] s.nodes[i].check matches CheckV::StartGroup(g)
        ==> a.groups.len() <= g < s.groups.len() && s.groups[g as int] == i) by {
        if i > a.nodes.len() {
            assert(m.nodes.len() <= i);
        }
    }
}

/// Opening a group: the slot reserved for it is set to its start node.
pub proof fn lemma_starts_group(a: BuildV, g1: BuildV, g2: BuildV, g3: BuildV, id: usize)
    requires
        g1.nodes == a.nodes,
        g1.groups == a.groups.push(usize::MAX),
        g1.groups.len() <= usize::MAX,
        starts_match(with_node(g1, CheckV::StartGroup(a.groups.len() as usize)), g2),
        id == a.nodes.len(),
        id < g2.nodes.len(),
        g2.groups.len() >= g1.groups.len(),
        g2.nodes[id as int].check == CheckV::StartGroup(a.groups.len() as usize),
        g3 == (BuildV { groups: g2.groups.update(a.groups.len() as int, id), ..g2 }),
    ensures
        starts_match(a, g3),
{
    let m = with_node(g1, CheckV::StartGroup(a.groups.len() as usize));
    assert forall|i: int| a.nodes.len() <= i < g3.nodes.len() implies (#[trigger] g3.nodes[i].check matches CheckV::StartGroup(g)
        ==> a.groups.len() <= g < g3.groups.len() && g3.groups[g as int] == i) by {
        if i == a.nodes.len() {
            assert(g3.groups[a.groups.len() as int] == id);
        } else {
            assert(m.nodes.len() <= i);
            if let CheckV::StartGroup(g) = g2.nodes[i].check {
                assert(m.groups.len() <= g);
                assert(g3.groups[g as int] == g2.groups[g as int]);
            }
        }
    }
}

/// `b` added to `a` no node that completes a match.
pub open spec fn no_end_added(a: BuildV, b: BuildV) -> bool {
    forall|i: int| a.nodes.len() <= i < b.nodes.len() ==> #[trigger] b.nodes[i].check != CheckV::End(false)
}

pub proof fn lemma_no_end_trans(a: BuildV, b: BuildV, c: BuildV)
    requires
        no_end_added(a, b),
        no_end_added(b, c),
        keeps(b, c),
        a.nodes.len() <= b.nodes.len(),
    ensures
        no_end_added(a, c),
{
    assert forall|i: int| a.nodes.len() <= i < c.nodes.len() implies #[trigger] c.nodes[i].check != CheckV::End(false) by {
        if i < b.nodes.len() {
            assert(same_but_order(b.nodes[i].check, c.nodes[i].check));
            assert(b.nodes[i].check != CheckV::End(false));
        }
    }
}

pub proof fn lemma_no_end_same(a: BuildV, b: BuildV, b2: BuildV)
    requires
        no_end_added(a, b),
        b2.nodes.len() == b.nodes.len(),
        forall|i: int| 0 <= i < b.nodes.len() ==> same_but_order(b.nodes[i].check, #[trigger] b2.nodes[i].check),
    ensures
        no_end_added(a, b2),
{
    assert forall|i: int| a.nodes.len() <= i < b2.nodes.len() implies #[trigger] b2.nodes[i].check != CheckV::End(false) by {
        assert(same_but_order(b.nodes[i].check, b2.nodes[i].check));
        assert(b.nodes[i].check != CheckV::End(false));
    }
}

pub proof fn lemma_no_end_create(a: BuildV, c: CheckV, s: BuildV)
    requires
        no_end_added(with_node(a, c), s),
        c != CheckV::End(false),
        a.nodes.len() < s.nodes.len(),
        same_but_order(c, s.nodes[a.nodes.len() as int].check),
    ensures
        no_end_added(a, s),
{
    assert forall|i: int| a.nodes.len() <= i < s.nodes.len() implies #[trigger] s.nodes[i].check != CheckV::End(false) by {
        if i > a.nodes.len() {
            assert(with_node(a, c).nodes.len() <= i);
        }
    }
}

pub fn unescape_vec(s: &Vec<char>) -> (r: Vec<char>)
    ensures
        r@ == unescape(s@),
{
    let mut r: Vec<char> = Vec::new();
    let mut esc = false;
    let mut i: usize = 0;
    while i < s.len()
        invariant
            i <= s.len(),
            r@ + unescape_from(s@, i as nat, esc) == unescape(s@),
        decreases s.len() - i,
    {
        let c = s[i];
        let ghost before = r@;
        if c == '\\' {
            if esc {
                esc = false;
                r.push(c);
                assert(before + (seq!['\\'] + unescape_from(s@, (i + 1) as nat, false)) == r@ + unescape_from(s@, (i + 1) as nat, false));
            } else {
                esc = true;
            }
        } else {
            esc = false;
            r.push(c);
            assert(before + (seq![c] + unescape_from(s@, (i + 1) as nat, false)) == r@ + unescape_from(s@, (i + 1) as nat, false));
        }
        i = i + 1;
    }
    assert(r@ + Seq::<char>::empty() == r@);
    r
}

} // verus!

verus! {

impl Builder {
    /// Adds what `p` describes below `parents`, its entry attached to `t`;
    /// `false` where `p` cannot be read. What was built before stays (see
    /// `keeps`): no node, edge, group or entry is lost, and whatever is added
    /// leads to new nodes.
    pub fn sub_construct(&mut self, p: &Vec<char>, parents: Vec<usize>, t: Target, push_end: bool) -> (ok: bool)
        requires
            wf_build(old(self)@),
            ids_ok(parents@, old(self)@.nodes.len()),
            target_ok(t, old(self)@.nodes.len()),
            old(self)@.sames + p@.len() <= usize::MAX,
        ensures
            match sub_construct(p@, old(self)@, parents@, t, push_end) {
                None => !ok,
                Some(s) => ok && final(self)@ == s,
            },
            ok ==> built(old(self)@, final(self)@, p@.len()),
            ok ==> keeps(old(self)@, final(self)@),
            ok ==> untouched(old(self)@, final(self)@, parents@, t) && loops_within(old(self)@, final(self)@, parents@),
            ok ==> starts_match(old(self)@, final(self)@),
            ok && !push_end ==> no_end_added(old(self)@, final(self)@),
        decreases p@.len(), 2nat, 0nat,
    {
        if p.len() == 0 {
            proof {
                lemma_keeps_refl(self@);
                lemma_frame_refl(self@, parents@, t);
                lemma_starts_refl(self@);
            }
            if push_end {
                proof {
                    lemma_with_node(self@, CheckV::End(false));
                    lemma_keeps_with_node(self@, self@, CheckV::End(false));
                    lemma_frame_with_node(self@, self@, parents@, t, CheckV::End(false));
                }
                let id = self.add_node(Check::End(false));
                proof {
                    lemma_push_target(self@, t, id);
                    lemma_keeps_push_target(old(self)@, self@, t, id);
                    lemma_frame_push_target(old(self)@, self@, parents@, t, t, id);
                    assert(starts_match(old(self)@, self@));
                }
                let ghost before_push = self@;
                self.push_to(t, id);
                proof {
                    lemma_starts_same(old(self)@, before_push, self@);
                }
            }
            return true;
        }
        match scan_root_bars(p) {
            None => false,
            Some(bars) => {
                if bars.len() == 0 {
                    return self.single(p, parents, t, push_end);
                }
                let ghost b = ints(bars@);
                let ghost st0 = self@;
                proof {
                    lemma_root_bars_from(p@, 0, nesting_start());
                    assert(root_bars_from(p@, 0, nesting_start()).unwrap() == b);
                }
                let n = bars.len();
                let mut k: usize = 0;
                proof {
                    lemma_keeps_refl(st0);
                    lemma_frame_refl(st0, parents@, t);
                    lemma_starts_refl(st0);
                }
                loop
                    invariant
                        n == bars@.len(),
                        n > 0,
                        k <= n,
                        b == ints(bars@),
                        root_bars(p@) == Some(b),
                        forall|i: int| 0 <= i < b.len() ==> 0 <= #[trigger] b[i] < p@.len(),
                        forall|i: int, j: int| 0 <= i < j < b.len() ==> #[trigger] b[i] < #[trigger] b[j],
                        alternatives(p@, b, 0, st0, parents@, t, push_end) == alternatives(p@, b, k as nat, self@, parents@, t, push_end),
                        st0 == old(self)@,
                        wf_build(self@),
                        grows(st0, self@),
                        keeps(st0, self@),
                        untouched(st0, self@, parents@, t),
                        loops_within(st0, self@, parents@),
                        starts_match(st0, self@),
                        !push_end ==> no_end_added(st0, self@),
                        ids_ok(parents@, st0.nodes.len()),
                        target_ok(t, st0.nodes.len()),
                        st0.sames + p@.len() <= usize::MAX,
                        self@.sames <= st0.sames + (if k == 0 { 0 } else { alt_hi(p@, b, k - 1) }),
                    decreases n - k,
                {
                    let lo = if k == 0 { 0 } else { bars[k - 1] + 1 };
                    let hi = if k == n { p.len() } else { bars[k] };
                    proof {
                        if k > 0 {
                            assert(b[k - 1] == bars@[k - 1]);
                        }
                        if k < n {
                            assert(b[k as int] == bars@[k as int]);
                        }
                        if k > 0 {
                            assert(0 <= b[k - 1] < p@.len());
                        }
                        if k < n {
                            assert(0 <= b[k as int] < p@.len());
                        }
                        if 0 < k < n {
                            assert(b[k - 1] < b[k as int]);
                        }
                        assert(lo == alt_lo(b, k as int));
                        assert(hi == alt_hi(p@, b, k as int));
                        if k > 0 {
                            assert(alt_hi(p@, b, k - 1) == b[k - 1]);
                        }
                    }
                    let seg = sub_vec(p, lo, hi);
                    let ps = copy_vec(&parents);
                    let ghost before = self@;
                    proof {
                        assert(sub_construct(p@, st0, parents@, t, push_end) == alternatives(p@, b, 0, st0, parents@, t, push_end));
                        assert(seg@ == p@.subrange(alt_lo(b, k as int), alt_hi(p@, b, k as int)));
                    }
                    let ok = self.sub_construct(&seg, ps, t, push_end);
                    if !ok {
                        assert(alternatives(p@, b, k as nat, before, parents@, t, push_end) is None);
                        return false;
                    }
                    proof {
                        lemma_keeps_trans(st0, before, self@);
                        assert(ps@ == parents@);
                        lemma_frame_trans(st0, before, self@, parents@, t, parents@, t);
                        lemma_starts_trans(st0, before, self@);
                        if !push_end {
                            lemma_no_end_trans(st0, before, self@);
                        }
                    }
                    assert(alternatives(p@, b, k as nat, before, parents@, t, push_end) == alternatives(p@, b, (k + 1) as nat, self@, parents@, t, push_end));
                    if k == n {
                        assert(alternatives(p@, b, (k + 1) as nat, self@, parents@, t, push_end) == Some(self@));
                        return true;
                    }
                    k = k + 1;
                }
            },
        }
    }
}

} // verus!

verus! {

impl Builder {
    /// A node checking `c`, then what `rest` builds below it.
    pub fn create(&mut self, c: Check, rest: &Vec<char>, parents: Vec<usize>, push_end: bool, append: bool) -> (r: (bool, usize))
        requires
            wf_build(old(self)@),
            ids_ok(parents@, old(self)@.nodes.len()),
            check_wf(c@, old(self)@.nodes.len() + 1, old(self)@.groups.len(), old(self)@.sames),
            old(self)@.sames + rest@.len() <= usize::MAX,
            c@ matches CheckV::MultipleOf(tg, _, _, _, _) ==> parents@.contains(tg),
        ensures
            match create(c@, rest@, old(self)@, parents@, push_end, append) {
                None => !r.0,
                Some((s, id)) => r.0 && final(self)@ == s && r.1 == id,
            },
            r.1 == old(self)@.nodes.len(),
            r.0 ==> built(old(self)@, final(self)@, rest@.len()) && r.1 < final(self)@.nodes.len(),
            r.0 ==> same_but_order(c@, final(self)@.nodes[r.1 as int].check),
            r.0 ==> untouched(old(self)@, final(self)@, parents@, Target::Root) && loops_within(old(self)@, final(self)@, parents@),
            r.0 ==> starts_match(with_node(old(self)@, c@), final(self)@),
            r.0 && !push_end ==> no_end_added(with_node(old(self)@, c@), final(self)@),
        decreases rest@.len(), 3nat, 0nat,
    {
        proof {
            lemma_with_node(self@, c@);
            lemma_keeps_refl(self@);
            lemma_keeps_with_node(self@, self@, c@);
            lemma_frame_refl(self@, parents@, Target::Root);
            lemma_frame_with_node(self@, self@, parents@, Target::Root, c@);
        }
        let id = self.add_node(c);
        let ghost mid = self@;
        let ghost parents0 = parents@;
        let mut ps = parents;
        if append {
            ps.push(id);
        }
        assert(forall|y: usize| #[trigger] ps@.contains(y) ==> parents0.contains(y) || y >= old(self)@.nodes.len()) by {
            assert forall|y: usize| #[trigger] ps@.contains(y) implies parents0.contains(y) || y >= old(self)@.nodes.len() by {
                if append {
                    let k = choose|k: int| 0 <= k < ps@.len() && ps@[k] == y;
                    if k < parents0.len() {
                        assert(parents0[k] == y);
                    }
                }
            }
        }
        let ok = self.sub_construct(rest, ps, Target::Front(id), push_end);
        proof {
            if ok {
                lemma_keeps_trans(old(self)@, mid, self@);
                lemma_frame_trans(old(self)@, mid, self@, parents0, Target::Root, ps@, Target::Front(id));
                assert(mid.nodes[id as int].check == c@);
                assert(same_but_order(mid.nodes[id as int].check, self@.nodes[id as int].check));
            }
        }
        (ok, id)
    }

    /// `create`, then the new node attached to `t`.
    pub fn link(&mut self, c: Check, rest: &Vec<char>, parents: Vec<usize>, t: Target, push_end: bool) -> (ok: bool)
        requires
            wf_build(old(self)@),
            ids_ok(parents@, old(self)@.nodes.len()),
            target_ok(t, old(self)@.nodes.len()),
            check_wf(c@, old(self)@.nodes.len() + 1, old(self)@.groups.len(), old(self)@.sames),
            old(self)@.sames + rest@.len() <= usize::MAX,
            !(c@ is MultipleOf),
            !(c@ is StartGroup),
            c@ != CheckV::End(false),
        ensures
            match link(c@, rest@, old(self)@, parents@, t, push_end) {
                None => !ok,
                Some(s) => ok && final(self)@ == s,
            },
            ok ==> built(old(self)@, final(self)@, rest@.len()),
            ok ==> untouched(old(self)@, final(self)@, parents@, t) && loops_within(old(self)@, final(self)@, parents@),
            ok ==> starts_match(old(self)@, final(self)@),
            ok && !push_end ==> no_end_added(old(self)@, final(self)@),
        decreases rest@.len(), 4nat, 0nat,
    {
        let ghost parents0 = parents@;
        let (ok, id) = self.create(c, rest, parents, push_end, true);
        if !ok {
            return false;
        }
        proof {
            lemma_push_target(self@, t, id);
            lemma_keeps_push_target(old(self)@, self@, t, id);
            assert(untouched(old(self)@, self@, parents0, t));
            lemma_frame_push_target(old(self)@, self@, parents0, t, t, id);
            lemma_starts_create(old(self)@, c@, self@);
            if !push_end {
                lemma_no_end_create(old(self)@, c@, self@);
            }
        }
        let ghost before_push = self@;
        self.push_to(t, id);
        proof {
            lemma_starts_same(old(self)@, before_push, self@);
            if !push_end {
                lemma_no_end_same(old(self)@, before_push, self@);
            }
        }
        true
    }

    /// A repetition node over the last parent; see the spec `quantified`.
    pub fn quantified(
        &mut self,
        rest: &Vec<char>,
        parents: Vec<usize>,
        t: Target,
        push_end: bool,
        lo: usize,
        hi: usize,
        skip: bool,
    ) -> (ok: bool)
        requires
            wf_build(old(self)@),
            ids_ok(parents@, old(self)@.nodes.len()),
            target_ok(t, old(self)@.nodes.len()),
            old(self)@.sames + 1 + rest@.len() <= usize::MAX,
        ensures
            match quantified(rest@, old(self)@, parents@, t, push_end, lo, hi, skip) {
                None => !ok,
                Some(s) => ok && final(self)@ == s,
            },
            ok ==> built(old(self)@, final(self)@, rest@.len() + 1),
            ok ==> untouched(old(self)@, final(self)@, parents@, t) && loops_within(old(self)@, final(self)@, parents@),
            ok ==> starts_match(old(self)@, final(self)@),
            ok && !push_end ==> no_end_added(old(self)@, final(self)@),
        decreases rest@.len(), 4nat, 0nat,
    {
        if parents.len() == 0 || (skip && parents.len() < 2) {
            return false;
        }
        let ghost parents0 = parents@;
        let last = parents[parents.len() - 1];
        let ggp = if skip { parents[parents.len() - 2] } else { 0 };
        assert(parents0.contains(last)) by {
            assert(parents0[parents0.len() - 1] == last);
        }
        assert(skip ==> parents0.contains(ggp)) by {
            if skip {
                assert(parents0[parents0.len() - 2] == ggp);
            }
        }
        assert(last < self@.nodes.len());
        assert(skip ==> ggp == parents@[parents@.len() - 2] && ggp < self@.nodes.len());
        let same = self.sames;
        self.sames = self.sames + 1;
        proof {
            lemma_wf_widen(self@.nodes, self@.groups.len(), old(self)@.sames, self@.groups.len(), self@.sames);
            lemma_keeps_refl(old(self)@);
            assert(keeps(old(self)@, self@));
            lemma_frame_refl(old(self)@, parents0, t);
            assert(untouched(old(self)@, self@, parents0, t));
        }
        let ghost st1 = self@;
        let (ok, r) = self.create(Check::MultipleOf(last, same, lo, hi, true), rest, parents, push_end, true);
        if !ok {
            return false;
        }
        proof {
            lemma_keeps_trans(old(self)@, st1, self@);
            lemma_frame_trans(old(self)@, st1, self@, parents0, t, parents0, Target::Root);
            lemma_starts_create(st1, CheckV::MultipleOf(last, same, lo, hi, true), self@);
            lemma_starts_refl(old(self)@);
            assert(starts_match(old(self)@, st1));
            lemma_starts_trans(old(self)@, st1, self@);
            if !push_end {
                lemma_no_end_create(st1, CheckV::MultipleOf(last, same, lo, hi, true), self@);
                assert(no_end_added(old(self)@, st1));
                lemma_no_end_trans(old(self)@, st1, self@);
            }
        }
        if skip {
            proof {
                lemma_add_next(self@, ggp, r);
                lemma_keeps_add_next(old(self)@, self@, ggp, r);
                lemma_frame_add_next(old(self)@, self@, parents0, t, ggp, r);
            }
            let ghost before_add = self@;
            self.add_next_to(ggp, r);
            proof {
                lemma_starts_same(old(self)@, before_add, self@);
                if !push_end {
                    lemma_no_end_same(old(self)@, before_add, self@);
                }
            }
        }
        proof {
            lemma_push_target(self@, t, r);
            lemma_keeps_push_target(old(self)@, self@, t, r);
            lemma_frame_push_target(old(self)@, self@, parents0, t, t, r);
        }
        let ghost before_push = self@;
        self.push_to(t, r);
        proof {
            lemma_starts_same(old(self)@, before_push, self@);
            if !push_end {
                lemma_no_end_same(old(self)@, before_push, self@);
            }
        }
        true
    }

    /// A capture group at the start of `p`.
    pub fn group(&mut self, p: &Vec<char>, parents: Vec<usize>, t: Target, push_end: bool) -> (ok: bool)
        requires
            wf_build(old(self)@),
            ids_ok(parents@, old(self)@.nodes.len()),
            target_ok(t, old(self)@.nodes.len()),
            old(self)@.sames + p@.len() <= usize::MAX,
        ensures
            match group(p@, old(self)@, parents@, t, push_end) {
                None => !ok,
                Some(s) => ok && final(self)@ == s,
            },
            ok ==> built(old(self)@, final(self)@, p@.len()),
            ok ==> untouched(old(self)@, final(self)@, parents@, t) && loops_within(old(self)@, final(self)@, parents@),
            ok ==> starts_match(old(self)@, final(self)@),
            ok && !push_end ==> no_end_added(old(self)@, final(self)@),
        decreases p@.len(), 0nat, 0nat,
    {
        match scan_group_end(p) {
            Some(Some(end)) => {
                proof {
                    lemma_group_end_from(p@, 0, nesting_start());
                }
                if end < 1 {
                    return false;
                }
                let ghost parents0 = parents@;
                let gid = self.groups.len();
                self.groups.push(usize::MAX);
                let gl1 = self.groups.len();
                proof {
                    lemma_wf_widen(self@.nodes, old(self)@.groups.len(), self@.sames, self@.groups.len(), self@.sames);
                }
                let ghost g1 = self@;
                proof {
                    lemma_frame_refl(old(self)@, parents0, t);
                    assert(untouched(old(self)@, g1, parents0, t) && loops_within(old(self)@, g1, parents0));
                }
                let inner = sub_vec(p, 1, end);
                let (ok, id) = self.create(Check::StartGroup(gid), &inner, Vec::new(), false, true);
                if !ok {
                    return false;
                }
                let ghost g2 = self@;
                self.groups.set(gid, id);
                proof {
                    assert(g1.groups =~= old(self)@.groups.push(usize::MAX));
                    assert(self@ == (BuildV { groups: g2.groups.update(gid as int, id), ..g2 }));
                    lemma_keeps_group(old(self)@, g1, g2, self@, id);
                    assert(g1.groups.len() == gl1);
                    lemma_starts_group(old(self)@, g1, g2, self@, id);
                    lemma_no_end_create(g1, CheckV::StartGroup(gid), g2);
                    assert(no_end_added(old(self)@, self@));
                    lemma_frame_trans(old(self)@, g1, g2, parents0, t, Seq::empty(), Target::Root);
                    assert(untouched(old(self)@, self@, parents0, t) && loops_within(old(self)@, self@, parents0));
                }
                let ghost g3 = self@;
                let mut ps = parents;
                ps.push(id);
                assert(forall|y: usize| #[trigger] ps@.contains(y) ==> parents0.contains(y) || y >= old(self)@.nodes.len()) by {
                    assert forall|y: usize| #[trigger] ps@.contains(y) implies parents0.contains(y) || y >= old(self)@.nodes.len() by {
                        let k = choose|k: int| 0 <= k < ps@.len() && ps@[k] == y;
                        if k < parents0.len() {
                            assert(parents0[k] == y);
                        }
                    }
                }
                let rest = skip_vec(p, end + 1);
                let (ok2, end_id) = self.create(Check::EndGroup(gid), &rest, ps, push_end, false);
                if !ok2 {
                    return false;
                }
                proof {
                    lemma_keeps_trans(old(self)@, g3, self@);
                    lemma_frame_trans(old(self)@, g3, self@, parents0, t, ps@, Target::Root);
                    lemma_starts_create(g3, CheckV::EndGroup(gid), self@);
                    lemma_starts_trans(old(self)@, g3, self@);
                    if !push_end {
                        lemma_no_end_create(g3, CheckV::EndGroup(gid), self@);
                        lemma_no_end_trans(old(self)@, g3, self@);
                    }
                }
                let n = self.nodes.len();
                match World::leafs(&self.nodes, id, n) {
                    None => false,
                    Some(ls) => {
                        proof {
                            let g4 = self@;
                            assert(closed_from(g4.nodes, old(self)@.nodes.len())) by {
                                assert forall|i: int, j: int| old(self)@.nodes.len() <= i < g4.nodes.len() && 0 <= j < g4.nodes[i].nexts.len()
                                    implies #[trigger] g4.nodes[i].nexts[j] >= old(self)@.nodes.len() by {
                                    assert(g4.nodes[i].nexts[j] >= old(self)@.nodes.len() || (i < old(self)@.nodes.len()
                                        && old(self)@.nodes[i].nexts.contains(g4.nodes[i].nexts[j])));
                                }
                            }
                            lemma_leafs_within(g4.nodes, id as int, n as nat, old(self)@.nodes.len());
                            lemma_attach(self@, ls@, end_id);
                            lemma_keeps_attach(old(self)@, self@, ls@, end_id);
                            lemma_frame_attach(old(self)@, self@, parents0, t, ls@, end_id);
                            lemma_attach_checks(self@, ls@, end_id);
                            lemma_starts_same(old(self)@, self@, attach(self@, ls@, end_id));
                            if !push_end {
                                lemma_no_end_same(old(self)@, self@, attach(self@, ls@, end_id));
                            }
                        }
                        self.attach_all(&ls, end_id);
                        proof {
                            lemma_push_target(self@, t, id);
                            lemma_keeps_push_target(old(self)@, self@, t, id);
                            lemma_frame_push_target(old(self)@, self@, parents0, t, t, id);
                        }
                        let ghost before_push = self@;
                        self.push_to(t, id);
                        proof {
                            lemma_starts_same(old(self)@, before_push, self@);
                            if !push_end {
                                lemma_no_end_same(old(self)@, before_push, self@);
                            }
                        }
                        true
                    },
                }
            },
            _ => false,
        }
    }
}

} // verus!

verus! {

impl Builder {
    /// A counted repetition at the start of `p`.
    pub fn brace(&mut self, p: &Vec<char>, parents: Vec<usize>, t: Target, push_end: bool) -> (ok: bool)
        requires
            wf_build(old(self)@),
            ids_ok(parents@, old(self)@.nodes.len()),
            target_ok(t, old(self)@.nodes.len()),
            old(self)@.sames + p@.len() <= usize::MAX,
        ensures
            match brace(p@, old(self)@, parents@, t, push_end) {
                None => !ok,
                Some(s) => ok && final(self)@ == s,
            },
            ok ==> built(old(self)@, final(self)@, p@.len()),
            ok ==> untouched(old(self)@, final(self)@, parents@, t) && loops_within(old(self)@, final(self)@, parents@),
            ok ==> starts_match(old(self)@, final(self)@),
            ok && !push_end ==> no_end_added(old(self)@, final(self)@),
        decreases p@.len(), 0nat, 0nat,
    {
        match find_char(p, '}') {
            None => false,
            Some(end) => {
                proof {
                    lemma_index_of_from(p@, '}', 0);
                }
                if end < 1 || end >= p.len() {
                    return false;
                }
                let inner = sub_vec(p, 1, end);
                let rest = skip_vec(p, end + 1);
                match find_char(&inner, ',') {
                    Some(k) => {
                        proof {
                            lemma_index_of_from(inner@, ',', 0);
                        }
                        let a = sub_vec(&inner, 0, k);
                        let b = skip_vec(&inner, k + 1);
                        assert(a@ == inner@.take(k as int));
                        proof {
                            lemma_index_of_from(b@, ',', 0);
                            if index_of(b@, ',') is None {
                                assert(!b@.contains(','));
                            } else {
                                assert(b@[index_of(b@, ',').unwrap()] == ',');
                                assert(b@.contains(','));
                            }
                        }
                        if find_char(&b, ',').is_some() {
                            return false;
                        }
                        let lo = if a.len() == 0 { Some(0usize) } else { parse_numeral(&a) };
                        let hi = if b.len() == 0 { Some(usize::MAX) } else { parse_numeral(&b) };
                        match lo {
                            None => false,
                            Some(lo) => match hi {
                                None => false,
                                Some(hi) => self.quantified(&rest, parents, t, push_end, lo, hi, lo == 0),
                            },
                        }
                    },
                    None => match parse_numeral(&inner) {
                        None => false,
                        Some(n) => {
                            if n == 0 {
                                false
                            } else {
                                self.quantified(&rest, parents, t, push_end, n, n, false)
                            }
                        },
                    },
                }
            },
        }
    }

    /// A pattern with no bar at its outermost level.
    pub fn single(&mut self, p: &Vec<char>, parents: Vec<usize>, t: Target, push_end: bool) -> (ok: bool)
        requires
            wf_build(old(self)@),
            ids_ok(parents@, old(self)@.nodes.len()),
            target_ok(t, old(self)@.nodes.len()),
            old(self)@.sames + p@.len() <= usize::MAX,
        ensures
            match single(p@, old(self)@, parents@, t, push_end) {
                None => !ok,
                Some(s) => ok && final(self)@ == s,
            },
            ok ==> built(old(self)@, final(self)@, p@.len()),
            ok ==> untouched(old(self)@, final(self)@, parents@, t) && loops_within(old(self)@, final(self)@, parents@),
            ok ==> starts_match(old(self)@, final(self)@),
            ok && !push_end ==> no_end_added(old(self)@, final(self)@),
        decreases p@.len(), 1nat, 0nat,
    {
        if p.len() == 0 {
            proof {
                lemma_keeps_refl(self@);
                lemma_frame_refl(self@, parents@, t);
                lemma_starts_refl(self@);
            }
            return true;
        }
        let ghost parents0 = parents@;
        let c0 = p[0];
        if c0 == '(' && p.len() >= 2 && p[1] == '?' {
            false
        } else if c0 == '(' {
            self.group(p, parents, t, push_end)
        } else if c0 == '[' {
            match scan_class_end(p) {
                Some(Some(end)) => {
                    proof {
                        lemma_class_end_from(p@, 0, ClassNesting { inside: 0, escaped: false });
                    }
                    let negated = p.len() >= 2 && p[1] == '^';
                    if end < 1 || (negated && end < 2) {
                        return false;
                    }
                    let body = if negated { sub_vec(p, 2, end) } else { sub_vec(p, 1, end) };
                    match expand_class(&body) {
                        None => false,
                        Some(set) => {
                            let rest = skip_vec(p, end + 1);
                            let c = if negated { Check::NoneOf(set) } else { Check::AnyOf(set) };
                            self.link(c, &rest, parents, t, push_end)
                        },
                    }
                },
                _ => false,
            }
        } else if c0 == '.' {
            let rest = skip_vec(p, 1);
            self.link(Check::NoneOf(Vec::new()), &rest, parents, t, push_end)
        } else if c0 == '?' {
            if parents.len() == 0 {
                return false;
            }
            let last = parents[parents.len() - 1];
            assert(last < self@.nodes.len());
            assert(self@.nodes[last as int].check == self.nodes@[last as int].check@);
            let info: Option<(usize, usize, usize, usize, bool)> = match &self.nodes[last].check {
                Check::MultipleOf(a, b, lo, hi, g) => Some((*a, *b, *lo, *hi, *g)),
                _ => None,
            };
            let rest = skip_vec(p, 1);
            match info {
                Some((a, b, lo, hi, g)) => {
                    if !g {
                        return false;
                    }
                    proof {
                        assert(check_wf(self@.nodes[last as int].check, self@.nodes.len(), self@.groups.len(), self@.sames));
                        lemma_set_check(self@, last, CheckV::MultipleOf(a, b, lo, hi, false));
                        lemma_keeps_refl(self@);
                        lemma_keeps_set_check(self@, self@, last, CheckV::MultipleOf(a, b, lo, hi, false));
                        lemma_frame_refl(self@, parents0, t);
                        assert(parents0[parents0.len() - 1] == last);
                        lemma_frame_set_check(self@, self@, parents0, t, last, CheckV::MultipleOf(a, b, lo, hi, false));
                        lemma_starts_refl(self@);
                    }
                    self.set_check_at(last, Check::MultipleOf(a, b, lo, hi, false));
                    let ghost s1 = self@;
                    proof {
                        lemma_starts_same(old(self)@, old(self)@, s1);
                        lemma_no_end_same(old(self)@, old(self)@, s1);
                    }
                    let ok = self.sub_construct(&rest, parents, t, push_end);
                    proof {
                        if ok {
                            lemma_keeps_trans(old(self)@, s1, self@);
                            lemma_frame_trans(old(self)@, s1, self@, parents0, t, parents0, t);
                            lemma_starts_trans(old(self)@, s1, self@);
                            if !push_end {
                                lemma_no_end_trans(old(self)@, s1, self@);
                            }
                        }
                    }
                    ok
                },
                None => self.quantified(&rest, parents, t, push_end, 0, 1, true),
            }
        } else if c0 == '*' {
            let rest = skip_vec(p, 1);
            self.quantified(&rest, parents, t, push_end, 0, usize::MAX, true)
        } else if c0 == '+' {
            let rest = skip_vec(p, 1);
            self.quantified(&rest, parents, t, push_end, 1, usize::MAX, false)
        } else if c0 == '^' {
            let rest = skip_vec(p, 1);
            self.link(Check::Start, &rest, parents, t, push_end)
        } else if c0 == '$' {
            let rest = skip_vec(p, 1);
            self.link(Check::End(true), &rest, parents, t, push_end)
        } else if c0 == '\\' && p.len() >= 2 && !(is_special_char(p[1]) || p[1] == '\\') {
            let c = p[1];
            if is_class_key_char(c) {
                let rest = skip_vec(p, 2);
                let check = if to_lower(c) == c {
                    Check::AnyOf(class_chars_vec(c))
                } else {
                    Check::NoneOf(class_chars_vec(to_lower(c)))
                };
                self.link(check, &rest, parents, t, push_end)
            } else if char_is_numeric(c) {
                let mut i: usize = 2;
                while i < p.len() && char_is_numeric(p[i])
                    invariant
                        2 <= i <= p@.len(),
                        numeric_run(p@, 2) == (i - 2) + numeric_run(p@, i as nat),
                    decreases p@.len() - i,
                {
                    i = i + 1;
                }
                assert(numeric_run(p@, i as nat) == 0);
                let digits = sub_vec(p, 1, i);
                match parse_numeral(&digits) {
                    None => false,
                    Some(g) => {
                        let rest = skip_vec(p, i);
                        self.sames = self.sames + 1;
                        proof {
                            lemma_wf_widen(self@.nodes, self@.groups.len(), old(self)@.sames, self@.groups.len(), self@.sames);
                            lemma_keeps_refl(old(self)@);
                            assert(keeps(old(self)@, self@));
                            lemma_frame_refl(old(self)@, parents0, t);
                            assert(untouched(old(self)@, self@, parents0, t));
                        }
                        let ghost s1 = self@;
                        let ok = self.link(Check::SameAs(g), &rest, parents, t, push_end);
                        proof {
                            if ok {
                                lemma_keeps_trans(old(self)@, s1, self@);
                                lemma_frame_trans(old(self)@, s1, self@, parents0, t, parents0, t);
                                lemma_starts_refl(old(self)@);
                                assert(starts_match(old(self)@, s1));
                                lemma_starts_trans(old(self)@, s1, self@);
                                if !push_end {
                                    assert(no_end_added(old(self)@, s1));
                                    lemma_no_end_trans(old(self)@, s1, self@);
                                }
                            }
                        }
                        ok
                    },
                }
            } else {
                false
            }
        } else if c0 == '{' {
            self.brace(p, parents, t, push_end)
        } else {
            let end = scan_static_end(p);
            if end == 0 {
                return false;
            }
            let lit = sub_vec(p, 0, end);
            assert(lit@ == p@.take(end as int));
            let text = unescape_vec(&lit);
            let rest = skip_vec(p, end);
            self.link(Check::Static(text), &rest, parents, t, push_end)
        }
    }
}

} // verus!

verus! {

/// A pattern compiled into its matching graph; matching starts at node 0.
pub struct Compiled {
    pub nodes: Seq<NodeV>,
    pub ngroups: nat,
    pub nsames: nat,
}

/// The whole pattern is read as group 0.
pub open spec fn wrap(p: Seq<char>) -> Seq<char> {
    seq!['('] + p + seq![')']
}

pub open spec fn empty_build() -> BuildV {
    BuildV { nodes: Seq::empty(), groups: Seq::empty(), sames: 0, roots: Seq::empty() }
}

/// The graph of `p`, or `None` where `p` cannot be read: a construction
/// failure or an entry other than node 0.
pub open spec fn compile(p: Seq<char>) -> Option<Compiled> {
    match sub_construct(wrap(p), empty_build(), Seq::empty(), Target::Root, true) {
        None => None,
        Some(st) => if st.roots.len() > 0 && st.roots[0] == 0 {
            Some(Compiled { nodes: st.nodes, ngroups: st.groups.len(), nsames: st.sames })
        } else {
            None
        },
    }
}

/// A compiled graph is well formed and has its entry node.
pub open spec fn wf_compiled(c: Compiled) -> bool {
    &&& wf_nodes(c.nodes, c.ngroups, c.nsames)
    &&& c.nodes.len() > 0
}

} // verus!

verus! {

fn wrap_vec(p: &Vec<char>) -> (r: Vec<char>)
    requires
        p@.len() + 2 <= usize::MAX,
    ensures
        r@ == wrap(p@),
{
    let mut r: Vec<char> = Vec::new();
    r.push('(');
    let mut i: usize = 0;
    while i < p.len()
        invariant
            i <= p@.len(),
            r@ == seq!['('] + p@.take(i as int),
        decreases p@.len() - i,
    {
        r.push(p[i]);
        i = i + 1;
        assert(p@.take(i as int) == p@.take(i - 1).push(p@[i - 1]));
    }
    r.push(')');
    assert(p@.take(p@.len() as int) == p@);
    r
}

/// Builds the graph of `p`: its nodes, number of groups and number of
/// repetition counters; `None` where `p` cannot be read.
pub fn compile_pattern(p: &Vec<char>) -> (r: Option<(Vec<Node>, usize, usize)>)
    requires
        p@.len() + 2 <= usize::MAX,
    ensures
        match compile(p@) {
            None => r is None,
            Some(c) => r matches Some((nodes, ng, ns)) && view_nodes(nodes@) == c.nodes
                && ng == c.ngroups && ns == c.nsames,
        },
        r matches Some((nodes, ng, ns)) ==> wf_compiled(Compiled { nodes: view_nodes(nodes@), ngroups: ng as nat, nsames: ns as nat }),
{
    let w = wrap_vec(p);
    let mut b = Builder { nodes: Vec::new(), groups: Vec::new(), sames: 0, roots: Vec::new() };
    assert(view_nodes(b.nodes@) =~= Seq::<NodeV>::empty());
    assert(b@ == empty_build());
    if !b.sub_construct(&w, Vec::new(), Target::Root, true) {
        return None;
    }
    if b.roots.len() == 0 || b.roots[0] != 0 {
        return None;
    }
    let ng = b.groups.len();
    Some((b.nodes, ng, b.sames))
}

} // verus!

verus! {

/// `b` is well formed, has all that `a` had, and keeps the check of each node
/// of `a` (up to the order a repetition tries first).
pub open spec fn checks_kept(a: BuildV, b: BuildV) -> bool {
    &&& wf_build(b)
    &&& grows(a, b)
    &&& forall|i: int| 0 <= i < a.nodes.len() ==> same_but_order(a.nodes[i].check, #[trigger] b.nodes[i].check)
}

proof fn lemma_ck_refl(a: BuildV)
    requires
        wf_build(a),
    ensures
        checks_kept(a, a),
{
}

proof fn lemma_ck_trans(a: BuildV, b: BuildV, c: BuildV)
    requires
        checks_kept(a, b),
        checks_kept(b, c),
    ensures
        checks_kept(a, c),
{
    assert forall|i: int| 0 <= i < a.nodes.len() implies same_but_order(a.nodes[i].check, #[trigger] c.nodes[i].check) by {
        assert(same_but_order(a.nodes[i].check, b.nodes[i].check));
        assert(same_but_order(b.nodes[i].check, c.nodes[i].check));
    }
}

proof fn lemma_ck_with_node(st: BuildV, c: CheckV)
    requires
        wf_build(st),
        check_wf(c, st.nodes.len() + 1, st.groups.len(), st.sames),
    ensures
        checks_kept(st, with_node(st, c)),
        with_node(st, c).nodes[st.nodes.len() as int].check == c,
{
    lemma_with_node(st, c);
    let s = with_node(st, c);
    assert forall|i: int| 0 <= i < st.nodes.len() implies same_but_order(st.nodes[i].check, #[trigger] s.nodes[i].check) by {
        assert(s.nodes[i] == st.nodes[i]);
    }
}

proof fn lemma_ck_push_target(st: BuildV, t: Target, e: usize)
    requires
        wf_build(st),
        target_ok(t, st.nodes.len()),
        e < st.nodes.len(),
    ensures
        checks_kept(st, push_target(st, t, e)),
{
    lemma_push_target(st, t, e);
    let s = push_target(st, t, e);
    assert forall|i: int| 0 <= i < st.nodes.len() implies same_but_order(st.nodes[i].check, #[trigger] s.nodes[i].check) by {
        assert(s.nodes[i].check == st.nodes[i].check);
    }
}

proof fn lemma_ck_add_next(st: BuildV, at: usize, e: usize)
    requires
        wf_build(st),
        at < st.nodes.len(),
        e < st.nodes.len(),
    ensures
        checks_kept(st, add_next(st, at, e)),
{
    lemma_add_next(st, at, e);
    let s = add_next(st, at, e);
    assert forall|i: int| 0 <= i < st.nodes.len() implies same_but_order(st.nodes[i].check, #[trigger] s.nodes[i].check) by {
        assert(s.nodes[i].check == st.nodes[i].check);
    }
}

proof fn lemma_ck_attach(st: BuildV, leaves: Seq<usize>, e: usize)
    requires
        wf_build(st),
        forall|i: int| 0 <= i < leaves.len() ==> #[trigger] leaves[i] < st.nodes.len(),
        e < st.nodes.len(),
    ensures
        checks_kept(st, attach(st, leaves, e)),
{
    lemma_attach(st, leaves, e);
    lemma_attach_checks(st, leaves, e);
    let s = attach(st, leaves, e);
    assert forall|i: int| 0 <= i < st.nodes.len() implies same_but_order(st.nodes[i].check, #[trigger] s.nodes[i].check) by {
        assert(s.nodes[i].check == st.nodes[i].check);
    }
}

proof fn lemma_merge_below(acc: Seq<usize>, more: Seq<usize>, n: nat)
    requires
        forall|k: int| 0 <= k < acc.len() ==> #[trigger] acc[k] < n,
        forall|k: int| 0 <= k < more.len() ==> #[trigger] more[k] < n,
    ensures
        forall|k: int| 0 <= k < merge(acc, more).len() ==> #[trigger] merge(acc, more)[k] < n,
    decreases more.len(),
{
    if more.len() > 0 {
        assert(forall|k: int| 0 <= k < more.drop_last().len() ==> #[trigger] more.drop_last()[k] == more[k]);
        lemma_merge_below(acc, more.drop_last(), n);
        let m = merge(acc, more.drop_last());
        assert(more.last() < n);
        if !m.contains(more.last()) {
            assert forall|k: int| 0 <= k < m.push(more.last()).len() implies #[trigger] m.push(more.last())[k] < n by {
                if k < m.len() {
                    assert(m.push(more.last())[k] == m[k]);
                }
            }
        }
    }
}

proof fn lemma_leafs_in_graph(g: Seq<NodeV>, of: int, fuel: nat)
    requires
        edges_ok(g),
        0 <= of < g.len(),
        of <= usize::MAX,
    ensures
        leafs(g, of, fuel) matches Some(l) ==> forall|k: int| 0 <= k < l.len() ==> #[trigger] l[k] < g.len(),
    decreases fuel, 0nat, 0nat,
{
    if g[of].nexts.len() == 0 {
        let l = seq![of as usize];
        assert(leafs(g, of, fuel) == Some(l));
        assert(l[0] == of);
    } else if fuel > 0 {
        let ns = g[of].nexts;
        assert forall|k: int| 0 <= k < ns.len() implies #[trigger] ns[k] < g.len() by {
            assert(g[of].nexts[k] < g.len());
        }
        lemma_leafs_list_in_graph(g, ns, 0, Seq::empty(), (fuel - 1) as nat);
    }
}

proof fn lemma_leafs_list_in_graph(g: Seq<NodeV>, ns: Seq<usize>, j: nat, acc: Seq<usize>, fuel: nat)
    requires
        edges_ok(g),
        forall|k: int| 0 <= k < ns.len() ==> #[trigger] ns[k] < g.len(),
        forall|k: int| 0 <= k < acc.len() ==> #[trigger] acc[k] < g.len(),
    ensures
        leafs_list(g, ns, j, acc, fuel) matches Some(l) ==> forall|k: int| 0 <= k < l.len() ==> #[trigger] l[k] < g.len(),
    decreases fuel, 1nat, ns.len() - j,
{
    if j < ns.len() {
        lemma_leafs_in_graph(g, ns[j as int] as int, fuel);
        if let Some(ls) = leafs(g, ns[j as int] as int, fuel) {
            lemma_merge_below(acc, ls, g.len());
            lemma_leafs_list_in_graph(g, ns, j + 1, merge(acc, ls), fuel);
        }
    }
}

proof fn lemma_ck_sub_construct(p: Seq<char>, st: BuildV, parents: Seq<usize>, t: Target, push_end: bool)
    requires
        wf_build(st),
        ids_ok(parents, st.nodes.len()),
        target_ok(t, st.nodes.len()),
    ensures
        sub_construct(p, st, parents, t, push_end) matches Some(s) ==> checks_kept(st, s),
    decreases p.len(), 2nat, 0nat,
{
    if p.len() == 0 {
        if push_end {
            lemma_ck_with_node(st, CheckV::End(false));
            let s1 = with_node(st, CheckV::End(false));
            lemma_ck_push_target(s1, t, st.nodes.len() as usize);
            lemma_ck_trans(st, s1, push_target(s1, t, st.nodes.len() as usize));
        } else {
            lemma_ck_refl(st);
        }
    } else {
        match root_bars(p) {
            None => {},
            Some(bars) => if bars.len() > 0 {
                lemma_ck_alternatives(p, bars, 0, st, parents, t, push_end);
            } else {
                lemma_ck_single(p, st, parents, t, push_end);
            },
        }
    }
}

proof fn lemma_ck_alternatives(
    p: Seq<char>,
    bars: Seq<int>,
    k: nat,
    st: BuildV,
    parents: Seq<usize>,
    t: Target,
    push_end: bool,
)
    requires
        wf_build(st),
        ids_ok(parents, st.nodes.len()),
        target_ok(t, st.nodes.len()),
    ensures
        alternatives(p, bars, k, st, parents, t, push_end) matches Some(s) ==> checks_kept(st, s),
    decreases p.len(), 1nat, bars.len() + 1 - k,
{
    if k > bars.len() || root_bars(p) != Some(bars) || bars.len() == 0 {
        lemma_ck_refl(st);
    } else {
        lemma_root_bars_from(p, 0, nesting_start());
        assert(root_bars_from(p, 0, nesting_start()).unwrap() == bars);
        if k > 0 {
            assert(0 <= bars[k - 1] < p.len());
        }
        if k < bars.len() {
            assert(0 <= bars[k as int] < p.len());
        }
        if 0 < k < bars.len() {
            assert(bars[k - 1] < bars[k as int]);
        }
        let seg = p.subrange(alt_lo(bars, k as int), alt_hi(p, bars, k as int));
        lemma_ck_sub_construct(seg, st, parents, t, push_end);
        if let Some(st2) = sub_construct(seg, st, parents, t, push_end) {
            lemma_ck_alternatives(p, bars, k + 1, st2, parents, t, push_end);
            if let Some(s) = alternatives(p, bars, k + 1, st2, parents, t, push_end) {
                lemma_ck_trans(st, st2, s);
            }
        }
    }
}

proof fn lemma_ck_create(c: CheckV, rest: Seq<char>, st: BuildV, parents: Seq<usize>, push_end: bool, append: bool)
    requires
        wf_build(st),
        ids_ok(parents, st.nodes.len()),
        check_wf(c, st.nodes.len() + 1, st.groups.len(), st.sames),
    ensures
        create(c, rest, st, parents, push_end, append) matches Some((s, id)) ==> checks_kept(st, s)
            && id == st.nodes.len() as usize && id < s.nodes.len() && st.nodes.len() < s.nodes.len()
            && same_but_order(c, s.nodes[st.nodes.len() as int].check),
    decreases rest.len(), 3nat, 0nat,
{
    lemma_ck_with_node(st, c);
    let m = with_node(st, c);
    let id = st.nodes.len() as usize;
    let ps = if append { parents.push(id) } else { parents };
    assert(ids_ok(ps, m.nodes.len())) by {
        assert forall|i: int| 0 <= i < ps.len() implies #[trigger] ps[i] < m.nodes.len() by {
            if i < parents.len() {
                assert(ps[i] == parents[i]);
            }
        }
    }
    lemma_ck_sub_construct(rest, m, ps, Target::Front(id), push_end);
    if let Some(s) = sub_construct(rest, m, ps, Target::Front(id), push_end) {
        lemma_ck_trans(st, m, s);
        if st.nodes.len() <= usize::MAX {
            assert(id == st.nodes.len());
        }
        assert(same_but_order(m.nodes[st.nodes.len() as int].check, s.nodes[st.nodes.len() as int].check));
    }
}

proof fn lemma_ck_link(c: CheckV, rest: Seq<char>, st: BuildV, parents: Seq<usize>, t: Target, push_end: bool)
    requires
        wf_build(st),
        ids_ok(parents, st.nodes.len()),
        target_ok(t, st.nodes.len()),
        check_wf(c, st.nodes.len() + 1, st.groups.len(), st.sames),
    ensures
        link(c, rest, st, parents, t, push_end) matches Some(s) ==> checks_kept(st, s),
    decreases rest.len(), 4nat, 0nat,
{
    lemma_ck_create(c, rest, st, parents, push_end, true);
    if let Some((s, id)) = create(c, rest, st, parents, push_end, true) {
        lemma_ck_push_target(s, t, id);
        lemma_ck_trans(st, s, push_target(s, t, id));
    }
}

proof fn lemma_ck_quantified(
    rest: Seq<char>,
    st: BuildV,
    parents: Seq<usize>,
    t: Target,
    push_end: bool,
    lo: usize,
    hi: usize,
    skip: bool,
)
    requires
        wf_build(st),
        ids_ok(parents, st.nodes.len()),
        target_ok(t, st.nodes.len()),
    ensures
        quantified(rest, st, parents, t, push_end, lo, hi, skip) matches Some(s) ==> (checks_kept(st, s)
            && parents.len() > 0 && st.nodes.len() < s.nodes.len()
            && (s.nodes[st.nodes.len() as int].check matches CheckV::MultipleOf(tg, _, l, h, _)
            && tg == parents.last() && l == lo && h == hi)),
    decreases rest.len(), 4nat, 0nat,
{
    if !(parents.len() == 0 || (skip && parents.len() < 2)) {
        let last = parents.last();
        let ggp = parents[parents.len() - 2];
        let same = st.sames as usize;
        let st1 = BuildV { sames: st.sames + 1, ..st };
        lemma_wf_widen(st.nodes, st.groups.len(), st.sames, st1.groups.len(), st1.sames);
        assert(checks_kept(st, st1));
        assert(last < st.nodes.len());
        assert(same < st1.sames) by {
            if st.sames <= usize::MAX {
                assert(same == st.sames);
            }
        }
        let c = CheckV::MultipleOf(last, same, lo, hi, true);
        lemma_ck_create(c, rest, st1, parents, push_end, true);
        if let Some((s, r)) = create(c, rest, st1, parents, push_end, true) {
            lemma_ck_trans(st, st1, s);
            let s2 = if skip { add_next(s, ggp, r) } else { s };
            if skip {
                assert(ggp < st.nodes.len()) by {
                    assert(parents[parents.len() - 2] < st.nodes.len());
                }
                lemma_ck_add_next(s, ggp, r);
            } else {
                lemma_ck_refl(s);
            }
            lemma_ck_trans(st, s, s2);
            lemma_ck_push_target(s2, t, r);
            lemma_ck_trans(st, s2, push_target(s2, t, r));
            let fin = push_target(s2, t, r);
            assert(same_but_order(s.nodes[r as int].check, s2.nodes[r as int].check));
            assert(same_but_order(s2.nodes[r as int].check, fin.nodes[r as int].check));
        }
    }
}

proof fn lemma_ck_group(p: Seq<char>, st: BuildV, parents: Seq<usize>, t: Target, push_end: bool)
    requires
        wf_build(st),
        ids_ok(parents, st.nodes.len()),
        target_ok(t, st.nodes.len()),
    ensures
        group(p, st, parents, t, push_end) matches Some(s) ==> checks_kept(st, s),
    decreases p.len(), 0nat, 0nat,
{
    if let Some(Some(end)) = group_end(p) {
        lemma_group_end_from(p, 0, nesting_start());
        if end >= 1 {
            let gid = st.groups.len() as usize;
            let st1 = BuildV { groups: st.groups.push(usize::MAX), ..st };
            lemma_wf_widen(st.nodes, st.groups.len(), st.sames, st1.groups.len(), st1.sames);
            assert(checks_kept(st, st1));
            assert(gid < st1.groups.len()) by {
                if st.groups.len() <= usize::MAX {
                    assert(gid == st.groups.len());
                }
            }
            let c1 = CheckV::StartGroup(gid);
            lemma_ck_create(c1, p.subrange(1, end), st1, Seq::empty(), false, true);
            if let Some((st2, id)) = create(c1, p.subrange(1, end), st1, Seq::empty(), false, true) {
                lemma_ck_trans(st, st1, st2);
                let st3 = BuildV { groups: st2.groups.update(gid as int, id), ..st2 };
                assert(st3.groups.len() == st2.groups.len());
                assert(checks_kept(st2, st3));
                lemma_ck_trans(st, st2, st3);
                let ps = parents.push(id);
                assert(ids_ok(ps, st3.nodes.len())) by {
                    assert forall|i: int| 0 <= i < ps.len() implies #[trigger] ps[i] < st3.nodes.len() by {
                        if i < parents.len() {
                            assert(ps[i] == parents[i]);
                        }
                    }
                }
                let c2 = CheckV::EndGroup(gid);
                lemma_ck_create(c2, p.skip(end + 1), st3, ps, push_end, false);
                if let Some((st4, end_id)) = create(c2, p.skip(end + 1), st3, ps, push_end, false) {
                    lemma_ck_trans(st, st3, st4);
                    lemma_leafs_in_graph(st4.nodes, id as int, st4.nodes.len());
                    if let Some(ls) = leafs(st4.nodes, id as int, st4.nodes.len()) {
                        lemma_ck_attach(st4, ls, end_id);
                        let s5 = attach(st4, ls, end_id);
                        lemma_ck_trans(st, st4, s5);
                        lemma_ck_push_target(s5, t, id);
                        lemma_ck_trans(st, s5, push_target(s5, t, id));
                    }
                }
            }
        }
    }
}

proof fn lemma_ck_brace(p: Seq<char>, st: BuildV, parents: Seq<usize>, t: Target, push_end: bool)
    requires
        wf_build(st),
        ids_ok(parents, st.nodes.len()),
        target_ok(t, st.nodes.len()),
    ensures
        brace(p, st, parents, t, push_end) matches Some(s) ==> checks_kept(st, s),
    decreases p.len(), 0nat, 0nat,
{
    if let Some(end) = index_of(p, '}') {
        lemma_index_of_from(p, '}', 0);
        if !(end < 1 || end >= p.len()) {
            let inner = p.subrange(1, end);
            let rest = p.skip(end + 1);
            match index_of(inner, ',') {
                Some(k) => {
                    let a = inner.take(k);
                    let b = inner.skip(k + 1);
                    let lo = if a.len() == 0 { Some(0usize) } else { numeral_value(a) };
                    let hi = if b.len() == 0 { Some(usize::MAX) } else { numeral_value(b) };
                    if let (Some(lo), Some(hi)) = (lo, hi) {
                        lemma_ck_quantified(rest, st, parents, t, push_end, lo, hi, lo == 0);
                    }
                },
                None => if let Some(n) = numeral_value(inner) {
                    lemma_ck_quantified(rest, st, parents, t, push_end, n, n, false);
                },
            }
        }
    }
}

proof fn lemma_ck_single(p: Seq<char>, st: BuildV, parents: Seq<usize>, t: Target, push_end: bool)
    requires
        wf_build(st),
        ids_ok(parents, st.nodes.len()),
        target_ok(t, st.nodes.len()),
    ensures
        single(p, st, parents, t, push_end) matches Some(s) ==> checks_kept(st, s),
    decreases p.len(), 1nat, 0nat,
{
    if p.len() == 0 {
        lemma_ck_refl(st);
    } else {
        let c0 = p[0];
        if c0 == '(' && p.len() >= 2 && p[1] == '?' {
        } else if c0 == '(' {
            lemma_ck_group(p, st, parents, t, push_end);
        } else if c0 == '[' {
            if let Some(Some(end)) = class_end(p) {
                lemma_class_end_from(p, 0, ClassNesting { inside: 0, escaped: false });
                let negated = p.len() >= 2 && p[1] == '^';
                let body = if negated { p.subrange(2, end) } else { p.subrange(1, end) };
                if !(end < 1 || (negated && end < 2)) {
                    if let Some(set) = expand(body) {
                        lemma_ck_link(
                            if negated { CheckV::NoneOf(set) } else { CheckV::AnyOf(set) },
                            p.skip(end + 1),
                            st,
                            parents,
                            t,
                            push_end,
                        );
                    }
                }
            }
        } else if c0 == '.' {
            lemma_ck_link(CheckV::NoneOf(Seq::empty()), p.skip(1), st, parents, t, push_end);
        } else if c0 == '?' {
            if !(parents.len() == 0 || parents.last() >= st.nodes.len()) {
                let last = parents.last();
                match st.nodes[last as int].check {
                    CheckV::MultipleOf(a, b, lo, hi, greedy) => if greedy {
                        let c = CheckV::MultipleOf(a, b, lo, hi, false);
                        assert(check_wf(st.nodes[last as int].check, st.nodes.len(), st.groups.len(), st.sames));
                        lemma_set_check(st, last, c);
                        let s1 = set_check(st, last, c);
                        assert(checks_kept(st, s1)) by {
                            assert forall|i: int| 0 <= i < st.nodes.len() implies same_but_order(st.nodes[i].check, #[trigger] s1.nodes[i].check) by {
                                if i != last {
                                    assert(s1.nodes[i] == st.nodes[i]);
                                }
                            }
                        }
                        lemma_ck_sub_construct(p.skip(1), s1, parents, t, push_end);
                        if let Some(s) = sub_construct(p.skip(1), s1, parents, t, push_end) {
                            lemma_ck_trans(st, s1, s);
                        }
                    },
                    _ => {
                        lemma_ck_quantified(p.skip(1), st, parents, t, push_end, 0, 1, true);
                    },
                }
            }
        } else if c0 == '*' {
            lemma_ck_quantified(p.skip(1), st, parents, t, push_end, 0, usize::MAX, true);
        } else if c0 == '+' {
            lemma_ck_quantified(p.skip(1), st, parents, t, push_end, 1, usize::MAX, false);
        } else if c0 == '^' {
            lemma_ck_link(CheckV::Start, p.skip(1), st, parents, t, push_end);
        } else if c0 == '$' {
            lemma_ck_link(CheckV::End(true), p.skip(1), st, parents, t, push_end);
        } else if c0 == '\\' && p.len() >= 2 && !is_meta(p[1]) {
            let c = p[1];
            if is_class_key(c) {
                lemma_ck_link(
                    if lower(c) == c { CheckV::AnyOf(class_chars(c)) } else { CheckV::NoneOf(class_chars(lower(c))) },
                    p.skip(2),
                    st,
                    parents,
                    t,
                    push_end,
                );
            } else if numeric_char(c) {
                let n: int = 1 + numeric_run(p, 2) as int;
                if n + 1 <= p.len() {
                    if let Some(g) = numeral_value(p.subrange(1, n + 1)) {
                        let st1 = BuildV { sames: st.sames + 1, ..st };
                        lemma_wf_widen(st.nodes, st.groups.len(), st.sames, st1.groups.len(), st1.sames);
                        assert(checks_kept(st, st1));
                        lemma_ck_link(CheckV::SameAs(g), p.skip(n + 1), st1, parents, t, push_end);
                        if let Some(s) = link(CheckV::SameAs(g), p.skip(n + 1), st1, parents, t, push_end) {
                            lemma_ck_trans(st, st1, s);
                        }
                    }
                }
            }
        } else if c0 == '{' {
            lemma_ck_brace(p, st, parents, t, push_end);
        } else {
            let end = static_end(p);
            if !(end <= 0 || end > p.len()) {
                lemma_ck_link(CheckV::Static(unescape(p.take(end))), p.skip(end), st, parents, t, push_end);
            }
        }
    }
}

} // verus!

verus! {

proof fn lemma_first_at(s: Seq<char>, c: char, e: int)
    requires
        0 <= e < s.len(),
        s[e] == c,
        forall|j: int| 0 <= j < e ==> s[j] != c,
    ensures
        index_of(s, c) == Some(e),
{
    lemma_index_of_from(s, c, 0);
    match index_of(s, c) {
        Some(k) => {
            if k < e {
                assert(s[k] != c);
            } else if k > e {
                assert(s[e] != c);
            }
        },
        None => {
            assert(s[e] != c);
        },
    }
}

proof fn lemma_digits_numeral(a: Seq<char>)
    requires
        a.len() > 0,
        forall|i: int| 0 <= i < a.len() ==> '0' <= #[trigger] a[i] <= '9',
        digits_value(a) <= usize::MAX,
    ensures
        numeral_value(a) == Some(digits_value(a) as usize),
        !a.contains(','),
        !a.contains('}'),
{
    assert(a[0] != '+');
    assert(crate::chars::all_digits(a));
    if a.contains(',') {
        let j = choose|j: int| 0 <= j < a.len() && a[j] == ',';
        assert('0' <= a[j] <= '9');
    }
    if a.contains('}') {
        let j = choose|j: int| 0 <= j < a.len() && a[j] == '}';
        assert('0' <= a[j] <= '9');
    }
}

/// The parts of `{a,b}rest` as `brace` reads them.
proof fn lemma_counted_parts(p: Seq<char>, a: Seq<char>, b: Seq<char>, rest: Seq<char>)
    requires
        a.len() > 0,
        b.len() > 0,
        forall|i: int| 0 <= i < a.len() ==> '0' <= #[trigger] a[i] <= '9',
        forall|i: int| 0 <= i < b.len() ==> '0' <= #[trigger] b[i] <= '9',
        digits_value(a) <= usize::MAX,
        digits_value(b) <= usize::MAX,
        p == seq!['{'] + a + seq![','] + b + seq!['}'] + rest,
    ensures
        ({
            let e = a.len() + b.len() + 2;
            let inner = p.subrange(1, e as int);
            &&& index_of(p, '}') == Some(e as int)
            &&& 1 <= e < p.len()
            &&& index_of(inner, ',') == Some(a.len() as int)
            &&& inner.take(a.len() as int) == a
            &&& inner.skip(a.len() + 1 as int) == b
            &&& p.skip(e + 1 as int) == rest
        }),
        numeral_value(a) == Some(digits_value(a) as usize),
        numeral_value(b) == Some(digits_value(b) as usize),
        !b.contains(','),
{
    lemma_digits_numeral(a);
    lemma_digits_numeral(b);
    let e = a.len() + b.len() + 2;
    assert(p[e as int] == '}');
    assert forall|j: int| 0 <= j < e implies p[j] != '}' by {
        if j == 0 {
            assert(p[j] == '{');
        } else if j <= a.len() {
            assert(p[j] == a[j - 1]);
            assert(a.contains(a[j - 1]));
        } else if j == a.len() + 1 {
            assert(p[j] == ',');
        } else {
            assert(p[j] == b[j - a.len() - 2]);
            assert(b.contains(b[j - a.len() - 2]));
        }
    }
    lemma_first_at(p, '}', e as int);
    let inner = p.subrange(1, e as int);
    assert(inner =~= a + seq![','] + b);
    let ka = a.len() as int;
    assert(inner[ka] == ',');
    assert forall|j: int| 0 <= j < ka implies inner[j] != ',' by {
        assert(inner[j] == a[j]);
        assert(a.contains(a[j]));
    }
    lemma_first_at(inner, ',', ka);
    assert(inner.take(ka) =~= a);
    assert(inner.skip(ka + 1) =~= b);
    assert(p.skip(e + 1 as int) =~= rest);
}

/// A counted repetition `{m,n}` with both counts written in decimal digits
/// adds, as its first node, a repetition that loops back to the last parent
/// and counts from `m` up to `n`; what follows the closing brace keeps those
/// bounds.
#[verifier::rlimit(40)]
pub proof fn law_counted_repetition_bounds(
    p: Seq<char>,
    st: BuildV,
    parents: Seq<usize>,
    t: Target,
    push_end: bool,
    a: Seq<char>,
    b: Seq<char>,
    rest: Seq<char>,
)
    requires
        wf_build(st),
        ids_ok(parents, st.nodes.len()),
        target_ok(t, st.nodes.len()),
        a.len() > 0,
        b.len() > 0,
        forall|i: int| 0 <= i < a.len() ==> '0' <= #[trigger] a[i] <= '9',
        forall|i: int| 0 <= i < b.len() ==> '0' <= #[trigger] b[i] <= '9',
        digits_value(a) <= usize::MAX,
        digits_value(b) <= usize::MAX,
        p == seq!['{'] + a + seq![','] + b + seq!['}'] + rest,
    ensures
        brace(p, st, parents, t, push_end) matches Some(s) ==> (st.nodes.len() < s.nodes.len() && (
        s.nodes[st.nodes.len() as int].check matches CheckV::MultipleOf(tg, _, lo, hi, _) && tg == parents.last()
            && lo == digits_value(a) && hi == digits_value(b))),
{
    lemma_counted_parts(p, a, b, rest);
    crate::chars::lemma_digits_value_grows(a, 0);
    crate::chars::lemma_digits_value_grows(b, 0);
    let lo = digits_value(a) as usize;
    let hi = digits_value(b) as usize;
    let e = a.len() + b.len() + 2;
    let inner = p.subrange(1, e as int);
    assert(index_of(p, '}') == Some(e as int));
    assert(index_of(inner, ',') == Some(a.len() as int));
    assert(inner.take(a.len() as int) == a);
    assert(inner.skip(a.len() + 1 as int) == b);
    assert(p.skip(e + 1 as int) == rest);
    assert(brace(p, st, parents, t, push_end) == quantified(rest, st, parents, t, push_end, lo, hi, lo == 0));
    lemma_ck_quantified(rest, st, parents, t, push_end, lo, hi, lo == 0);
}

} // verus!

verus! {

proof fn lemma_unescape_concat(x: Seq<char>, y: Seq<char>, i: nat, esc: bool)
    requires
        i <= x.len(),
        esc == crate::parse::escaped_at(x, i),
    ensures
        unescape_from(x + y, i, esc) == unescape_from(x, i, esc) + unescape_from(y, 0, crate::parse::escaped_at(x, x.len())),
    decreases x.len() - i,
{
    let s = x + y;
    if i == x.len() {
        assert(s.skip(x.len() as int) =~= y);
        lemma_unescape_shift(x, y, 0, esc);
        assert(unescape_from(x, i, esc) =~= Seq::<char>::empty());
        assert(Seq::<char>::empty() + unescape_from(y, 0, esc) =~= unescape_from(y, 0, esc));
    } else {
        let c = x[i as int];
        assert(s[i as int] == c);
        assert(crate::parse::escaped_at(x, i + 1) == (c == '\\' && !esc));
        if c == '\\' {
            if esc {
                lemma_unescape_concat(x, y, i + 1, false);
                assert(seq!['\\'] + (unescape_from(x, i + 1, false) + unescape_from(y, 0, crate::parse::escaped_at(x, x.len())))
                    =~= (seq!['\\'] + unescape_from(x, i + 1, false)) + unescape_from(y, 0, crate::parse::escaped_at(x, x.len())));
            } else {
                lemma_unescape_concat(x, y, i + 1, true);
            }
        } else {
            lemma_unescape_concat(x, y, i + 1, false);
            assert(seq![c] + (unescape_from(x, i + 1, false) + unescape_from(y, 0, crate::parse::escaped_at(x, x.len())))
                =~= (seq![c] + unescape_from(x, i + 1, false)) + unescape_from(y, 0, crate::parse::escaped_at(x, x.len())));
        }
    }
}

proof fn lemma_unescape_shift(x: Seq<char>, y: Seq<char>, j: nat, esc: bool)
    requires
        j <= y.len(),
    ensures
        unescape_from(x + y, x.len() + j, esc) == unescape_from(y, j, esc),
    decreases y.len() - j,
{
    let s = x + y;
    if j < y.len() {
        assert(s[x.len() + j as int] == y[j as int]);
        lemma_unescape_shift(x, y, j + 1, false);
        lemma_unescape_shift(x, y, j + 1, true);
    }
}

/// Reading a literal run removes exactly the backslashes that escape: a
/// character other than `\` stands for itself, an escaped `\` stands for one
/// `\`, and an escaping `\` at the end stands for nothing.
pub proof fn law_unescape_steps(x: Seq<char>, c: char)
    ensures
        c != '\\' ==> unescape(x + seq![c]) == unescape(x).push(c),
        !crate::parse::escaped_at(x, x.len()) ==> unescape(x + seq!['\\', '\\']) == unescape(x).push('\\'),
        !crate::parse::escaped_at(x, x.len()) ==> unescape(x + seq!['\\', c]) == unescape(x).push(c),
        !crate::parse::escaped_at(x, x.len()) ==> unescape(x + seq!['\\']) == unescape(x),
        crate::parse::escaped_at(x, x.len()) ==> unescape(x + seq!['\\']) == unescape(x).push('\\'),
{
    let e = crate::parse::escaped_at(x, x.len());
    lemma_unescape_concat(x, seq![c], 0, false);
    lemma_unescape_concat(x, seq!['\\', '\\'], 0, false);
    lemma_unescape_concat(x, seq!['\\', c], 0, false);
    lemma_unescape_concat(x, seq!['\\'], 0, false);
    let t1 = seq![c];
    assert(unescape_from(t1, 1, false) =~= Seq::<char>::empty());
    assert(unescape_from(t1, 1, true) =~= Seq::<char>::empty());
    if c != '\\' {
        assert(unescape_from(t1, 0, e) =~= seq![c]);
    }
    let t2 = seq!['\\', '\\'];
    assert(unescape_from(t2, 2, false) =~= Seq::<char>::empty());
    assert(unescape_from(t2, 1, true) =~= seq!['\\']);
    let t3 = seq!['\\', c];
    assert(unescape_from(t3, 2, false) =~= Seq::<char>::empty());
    assert(unescape_from(t3, 1, true) =~= seq![c]);
    let t4 = seq!['\\'];
    assert(unescape_from(t4, 1, false) =~= Seq::<char>::empty());
    assert(unescape_from(t4, 1, true) =~= Seq::<char>::empty());
    assert(unescape_from(t4, 0, true) =~= seq!['\\']);
    assert(unescape_from(t4, 0, false) =~= Seq::<char>::empty());
    assert(unescape(x).push(c) =~= unescape(x) + seq![c]);
    assert(unescape(x).push('\\') =~= unescape(x) + seq!['\\']);
    assert(unescape(x) + Seq::<char>::empty() =~= unescape(x));
}

} // verus!
