//! A small regular-expression engine. A pattern is compiled into a graph of
//! checks; matching explores that graph breadth first from every start
//! position of the text and reports, for each match, the text of each
//! capture group (group 0 being the whole match).
use vstd::prelude::*;

pub mod chars;
pub mod compile;
pub mod graph;
pub mod parse;
pub mod world;

use chars::chars_of;
use compile::{compile, compile_pattern, wf_compiled, Compiled};
use graph::{backrefs_ok, view_nodes, Node};
use world::{all_matches, backrefs_within, first_match, first_match_in, matches_in, search_safe, strs_view};

verus! {

/// A compiled pattern.
pub struct RedGex {
    nodes: Vec<Node>,
    groups: usize,
    time_same: usize,
}

impl View for RedGex {
    type V = Compiled;

    closed spec fn view(&self) -> Compiled {
        Compiled { nodes: view_nodes(self.nodes@), ngroups: self.groups as nat, nsames: self.time_same as nat }
    }
}

impl Clone for RedGex {
    fn clone(&self) -> (r: Self)
        ensures
            r@ == self@,
    {
        proof {
            use_type_invariant(self);
        }
        RedGex { nodes: graph::copy_nodes(&self.nodes), groups: self.groups, time_same: self.time_same }
    }
}

impl RedGex {
    #[verifier::type_invariant]
    closed spec fn inv(self) -> bool {
        wf_compiled(self@)
    }

    /// Compiles `pattern`; the whole pattern is group 0.
    pub fn new(pattern: &str) -> (r: Self)
        requires
            compile(pattern@) is Some,
            pattern@.len() + 2 <= usize::MAX,
        ensures
            r@ == compile(pattern@).unwrap(),
            wf_compiled(r@),
    {
        let p = chars_of(pattern);
        let (nodes, groups, time_same) = compile_pattern(&p).unwrap();
        RedGex { nodes, groups, time_same }
    }

    /// Compiles `pattern`, or `None` where it cannot be compiled (or is too
    /// long to be wrapped as group 0).
    pub fn try_new(pattern: &str) -> (r: Option<Self>)
        ensures
            r is Some <==> (pattern@.len() + 2 <= usize::MAX && compile(pattern@) is Some),
            r matches Some(x) ==> x@ == compile(pattern@).unwrap() && wf_compiled(x@),
    {
        let p = chars_of(pattern);
        if p.len() > usize::MAX - 2 {
            return None;
        }
        match compile_pattern(&p) {
            None => None,
            Some((nodes, groups, time_same)) => Some(RedGex { nodes, groups, time_same }),
        }
    }

    /// Whether every back-reference of the pattern names one of its groups;
    /// where it does, any text can be searched (`lemma_known_refs_are_safe`).
    pub fn refs_known(&self) -> (r: bool)
        ensures
            r == backrefs_ok(self@.nodes, self@.ngroups),
            r ==> forall|text: Seq<char>, first: bool| #[trigger] search_safe(self@, text, first),
    {
        proof {
            use_type_invariant(self);
        }
        let r = backrefs_within(&self.nodes, self.groups);
        proof {
            if r {
                assert forall|text: Seq<char>, first: bool| #[trigger] search_safe(self@, text, first) by {
                    world::lemma_known_refs_are_safe(self@, text, first);
                }
            }
        }
        r
    }

    /// The first match in `text`: the text of each group. The search must not
    /// reach a back-reference to a group the pattern does not have.
    pub fn first_match<'a>(&self, text: &'a str) -> (r: Option<Vec<&'a str>>)
        requires
            search_safe(self@, text@, true),
        ensures
            match first_match(self@, text@) {
                None => r is None,
                Some(m) => r matches Some(v) && v@.map_values(|s: &str| s@) == m,
            },
    {
        proof {
            use_type_invariant(self);
        }
        first_match_in(&self.nodes, self.groups, self.time_same, text)
    }

    /// All matches in `text`, without repeats, in the order they are found.
    /// The search must not reach a back-reference to a group the pattern does
    /// not have.
    pub fn all_matchs_vec<'a>(&self, text: &'a str) -> (r: Vec<Vec<&'a str>>)
        requires
            search_safe(self@, text@, false),
        ensures
            strs_view(r@) == all_matches(self@, text@),
    {
        proof {
            use_type_invariant(self);
        }
        matches_in(&self.nodes, self.groups, self.time_same, text)
    }

    /// All matches in `text`, as `all_matchs_vec` lists them.
    pub fn all_matchs<'a>(&self, text: &'a str) -> (r: Vec<Vec<&'a str>>)
        requires
            search_safe(self@, text@, false),
        ensures
            strs_view(r@) == all_matches(self@, text@),
    {
        self.all_matchs_vec(text)
    }
}

} // verus!
