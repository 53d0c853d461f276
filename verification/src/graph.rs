//! The matching graph: each node checks one thing at the current position of
//! the text and names the nodes that may come next.
use vstd::prelude::*;

verus! {

/// What a node checks at the current position.
pub enum Check {
    /// The position is the start of the text.
    Start,
    /// `End(true)`: the position is the end of the text; `End(false)`: the
    /// match is complete.
    End(bool),
    /// Records the start of a capture group.
    StartGroup(usize),
    /// Closes a capture group opened before.
    EndGroup(usize),
    /// The text continues with these characters.
    Static(Vec<char>),
    /// The next character is one of these.
    AnyOf(Vec<char>),
    /// There is a next character and it is none of these.
    NoneOf(Vec<char>),
    /// A repetition counter: loop target, counter, least and most times, and
    /// whether more repetitions are tried first.
    MultipleOf(usize, usize, usize, usize, bool),
    /// The text continues with what a capture group holds.
    SameAs(usize),
}

pub enum CheckV {
    Start,
    End(bool),
    StartGroup(usize),
    EndGroup(usize),
    Static(Seq<char>),
    AnyOf(Seq<char>),
    NoneOf(Seq<char>),
    MultipleOf(usize, usize, usize, usize, bool),
    SameAs(usize),
}

impl View for Check {
    type V = CheckV;

    open spec fn view(&self) -> CheckV {
        match self {
            Check::Start => CheckV::Start,
            Check::End(b) => CheckV::End(*b),
            Check::StartGroup(g) => CheckV::StartGroup(*g),
            Check::EndGroup(g) => CheckV::EndGroup(*g),
            Check::Static(s) => CheckV::Static(s@),
            Check::AnyOf(s) => CheckV::AnyOf(s@),
            Check::NoneOf(s) => CheckV::NoneOf(s@),
            Check::MultipleOf(t, c, lo, hi, g) => CheckV::MultipleOf(*t, *c, *lo, *hi, *g),
            Check::SameAs(g) => CheckV::SameAs(*g),
        }
    }
}

/// A node of the matching graph.
pub struct Node {
    pub check: Check,
    pub nexts: Vec<usize>,
}

pub struct NodeV {
    pub check: CheckV,
    pub nexts: Seq<usize>,
}

impl View for Node {
    type V = NodeV;

    open spec fn view(&self) -> NodeV {
        NodeV { check: self.check@, nexts: self.nexts@ }
    }
}

pub open spec fn view_nodes(v: Seq<Node>) -> Seq<NodeV> {
    v.map_values(|n: Node| n@)
}

/// The indices a check names lie inside the graph and its tables of groups and
/// counters (a back-reference may name any group).
pub open spec fn check_wf(c: CheckV, n: nat, ngroups: nat, nsames: nat) -> bool {
    match c {
        CheckV::StartGroup(g) => g < ngroups,
        CheckV::EndGroup(g) => g < ngroups,
        CheckV::MultipleOf(t, s, _, _, _) => t < n && s < nsames,
        _ => true,
    }
}

/// Every edge stays inside the graph.
pub open spec fn edges_ok(g: Seq<NodeV>) -> bool {
    forall|i: int, j: int| 0 <= i < g.len() && 0 <= j < g[i].nexts.len() ==> #[trigger] g[i].nexts[j] < g.len()
}

/// Every edge and every index a check holds stays inside the graph.
pub open spec fn wf_nodes(g: Seq<NodeV>, ngroups: nat, nsames: nat) -> bool {
    &&& edges_ok(g)
    &&& forall|i: int| 0 <= i < g.len() ==> check_wf(#[trigger] g[i].check, g.len(), ngroups, nsames)
}

/// Every back-reference names a group the graph has.
pub open spec fn backrefs_ok(g: Seq<NodeV>, ngroups: nat) -> bool {
    forall|i: int| 0 <= i < g.len() ==> (#[trigger] g[i].check matches CheckV::SameAs(x) ==> x < ngroups)
}

} // verus!

verus! {

/// A copy of a vector of plain values.
pub fn copy_vec<T: Copy>(v: &Vec<T>) -> (r: Vec<T>)
    ensures
        r@ == v@,
{
    let mut r: Vec<T> = Vec::new();
    let mut i: usize = 0;
    while i < v.len()
        invariant
            i <= v.len(),
            r@ == v@.take(i as int),
        decreases v.len() - i,
    {
        r.push(v[i]);
        i = i + 1;
        assert(v@.take(i as int) == v@.take(i - 1).push(v@[i - 1]));
    }
    assert(v@.take(v.len() as int) == v@);
    r
}

pub fn copy_check(c: &Check) -> (r: Check)
    ensures
        r@ == c@,
{
    match c {
        Check::Start => Check::Start,
        Check::End(b) => Check::End(*b),
        Check::StartGroup(g) => Check::StartGroup(*g),
        Check::EndGroup(g) => Check::EndGroup(*g),
        Check::Static(s) => Check::Static(copy_vec(s)),
        Check::AnyOf(s) => Check::AnyOf(copy_vec(s)),
        Check::NoneOf(s) => Check::NoneOf(copy_vec(s)),
        Check::MultipleOf(t, k, lo, hi, g) => Check::MultipleOf(*t, *k, *lo, *hi, *g),
        Check::SameAs(g) => Check::SameAs(*g),
    }
}

/// A copy of a graph.
pub fn copy_nodes(v: &Vec<Node>) -> (r: Vec<Node>)
    ensures
        view_nodes(r@) == view_nodes(v@),
{
    let mut r: Vec<Node> = Vec::new();
    let mut i: usize = 0;
    while i < v.len()
        invariant
            i <= v.len(),
            r@.len() == i,
            forall|j: int| 0 <= j < i ==> (#[trigger] r@[j])@ == v@[j]@,
        decreases v.len() - i,
    {
        r.push(Node { check: copy_check(&v[i].check), nexts: copy_vec(&v[i].nexts) });
        i = i + 1;
    }
    assert(view_nodes(r@) =~= view_nodes(v@));
    r
}

} // verus!
