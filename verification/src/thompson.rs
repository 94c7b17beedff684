use vstd::prelude::*;
use crate::label::{Label, StateID};
use crate::model::{Automaton, StateModel, fresh_state};
use crate::builder::{add_edge, mark_accepting};

verus! {

/// What an automaton is to be built from: a tree over the three operations of
/// Thompson's construction, with single edges as leaves.
#[derive(PartialEq, Eq, Debug)]
pub enum Spec {
    Single(Label),
    Union(Box<Spec>, Box<Spec>),
    Concat(Box<Spec>, Box<Spec>),
    Star(Box<Spec>),
}

impl Spec {
    /// A boxed leaf with one edge labelled `l`.
    pub fn single(l: Label) -> (res: Box<Spec>)
        ensures
            *res == Spec::Single(l),
    {
        Box::new(Spec::Single(l))
    }

    /// A boxed choice between `s1` and `s2`.
    pub fn union(s1: Box<Spec>, s2: Box<Spec>) -> (res: Box<Spec>)
        ensures
            *res == Spec::Union(s1, s2),
    {
        Box::new(Spec::Union(s1, s2))
    }

    /// A boxed sequence of `s1`, then `s2`.
    pub fn concat(s1: Box<Spec>, s2: Box<Spec>) -> (res: Box<Spec>)
        ensures
            *res == Spec::Concat(s1, s2),
    {
        Box::new(Spec::Concat(s1, s2))
    }

    /// A boxed repetition of `s`, zero or more times.
    pub fn star(s: Box<Spec>) -> (res: Box<Spec>)
        ensures
            *res == Spec::Star(s),
    {
        Box::new(Spec::Star(s))
    }

    /// A deep copy of this tree.
    pub fn duplicate(&self) -> (res: Spec)
        ensures
            res == *self,
        decreases *self,
    {
        match self {
            Spec::Single(l) => Spec::Single(*l),
            Spec::Union(a, b) => Spec::Union(Box::new(a.duplicate()), Box::new(b.duplicate())),
            Spec::Concat(a, b) => Spec::Concat(Box::new(a.duplicate()), Box::new(b.duplicate())),
            Spec::Star(a) => Spec::Star(Box::new(a.duplicate())),
        }
    }
}

impl Clone for Spec {
    fn clone(&self) -> (res: Self)
        ensures
            res == *self,
    {
        self.duplicate()
    }
}

/// The two ends of a sub-automaton: where it starts and where it accepts.
#[derive(Clone, Copy, Debug)]
pub struct NFAid {
    pub start: StateID,
    pub accept: StateID,
}

/// A sub-automaton inside an arena: the arena, and the identifiers of the
/// state where the sub-automaton starts and of the one where it ends.
pub struct Fragment {
    pub states: Seq<StateModel>,
    pub start: StateID,
    pub accept: StateID,
}

/// Two fresh states joined by one edge labelled `l`.
pub open spec fn single_fragment(a: Seq<StateModel>, l: Label) -> Fragment {
    let st = a.len() as StateID;
    let acc = (a.len() + 1) as StateID;
    Fragment {
        states: add_edge(a.push(fresh_state()).push(fresh_state()), st, acc, l),
        start: st,
        accept: acc,
    }
}

/// A fresh start with epsilon edges to both starts, and a fresh end that both
/// ends have an epsilon edge to.
pub open spec fn union_fragment(
    a: Seq<StateModel>,
    s1: StateID,
    a1: StateID,
    s2: StateID,
    a2: StateID,
) -> Fragment {
    let st = a.len() as StateID;
    let b = add_edge(add_edge(a.push(fresh_state()), st, s1, Label::Epsilon), st, s2, Label::Epsilon);
    let acc = b.len() as StateID;
    let c = add_edge(
        add_edge(b.push(fresh_state()), a1, acc, Label::Epsilon),
        a2,
        acc,
        Label::Epsilon,
    );
    Fragment { states: c, start: st, accept: acc }
}

/// An epsilon edge from the end of the first to the start of the second.
pub open spec fn concat_fragment(
    a: Seq<StateModel>,
    s1: StateID,
    a1: StateID,
    s2: StateID,
    a2: StateID,
) -> Fragment {
    Fragment { states: add_edge(a, a1, s2, Label::Epsilon), start: s1, accept: a2 }
}

/// A fresh start and a fresh end around the inner sub-automaton, with epsilon
/// edges to enter it, to leave it, to pass it by and to go through it again.
pub open spec fn star_fragment(a: Seq<StateModel>, s1: StateID, a1: StateID) -> Fragment {
    let st = a.len() as StateID;
    let acc = (a.len() + 1) as StateID;
    let b = a.push(fresh_state()).push(fresh_state());
    let c = add_edge(b, st, s1, Label::Epsilon);
    let d = add_edge(c, a1, acc, Label::Epsilon);
    let e = add_edge(d, st, acc, Label::Epsilon);
    let f = add_edge(e, a1, s1, Label::Epsilon);
    Fragment { states: f, start: st, accept: acc }
}

/// Thompson's construction: the arena `a` extended by the states and edges of
/// `s`, children before parents and left before right.
pub open spec fn thompson(a: Seq<StateModel>, s: Spec) -> Fragment
    decreases s,
{
    match s {
        Spec::Single(l) => single_fragment(a, l),
        Spec::Union(x, y) => {
            let f1 = thompson(a, *x);
            let f2 = thompson(f1.states, *y);
            union_fragment(f2.states, f1.start, f1.accept, f2.start, f2.accept)
        },
        Spec::Concat(x, y) => {
            let f1 = thompson(a, *x);
            let f2 = thompson(f1.states, *y);
            concat_fragment(f2.states, f1.start, f1.accept, f2.start, f2.accept)
        },
        Spec::Star(x) => {
            let f1 = thompson(a, *x);
            star_fragment(f1.states, f1.start, f1.accept)
        },
    }
}

/// The automaton of a single tree: its construction in an empty arena, with
/// the end marked as accepting.
pub open spec fn thompson_nfa(s: Spec) -> Automaton {
    let f = thompson(Seq::empty(), s);
    Automaton { start: f.start, states: mark_accepting(f.states, f.accept, None) }
}

/// The arena after each tree of `specs` was built into `a` in turn, together
/// with the two ends of each sub-automaton.
pub open spec fn thompson_all(a: Seq<StateModel>, specs: Seq<Spec>) -> (Seq<StateModel>, Seq<NFAid>)
    decreases specs.len(),
{
    if specs.len() == 0 {
        (a, Seq::empty())
    } else {
        let (b, ends) = thompson_all(a, specs.drop_last());
        let f = thompson(b, specs.last());
        (f.states, ends.push(NFAid { start: f.start, accept: f.accept }))
    }
}

/// The arena after the first `n` sub-automata of `ends` were tied to the shared
/// start `st`: an epsilon edge from `st` to each start, and each end marked as
/// accepting for its rule.
pub open spec fn fuse(
    a: Seq<StateModel>,
    st: StateID,
    ends: Seq<NFAid>,
    tags: Seq<usize>,
    n: nat,
) -> Seq<StateModel>
    decreases n,
{
    if n == 0 {
        a
    } else {
        let b = fuse(a, st, ends, tags, (n - 1) as nat);
        mark_accepting(
            add_edge(b, st, ends[n - 1].start, Label::Epsilon),
            ends[n - 1].accept,
            Some(tags[n - 1]),
        )
    }
}

/// The automaton of several rules: each tree built in turn into one arena,
/// then a fresh shared start tied to all of them.
pub open spec fn thompson_fused(specs: Seq<Spec>, tags: Seq<usize>) -> Automaton {
    let (a, ends) = thompson_all(Seq::empty(), specs);
    let st = a.len() as StateID;
    Automaton { start: st, states: fuse(a.push(fresh_state()), st, ends, tags, ends.len()) }
}

/// Thompson's construction is a function of the tree alone: two automata
/// that were built from one tree have the same start, the same number of
/// states and, state by state, the same edges in the same order.
pub proof fn lemma_thompson_deterministic(s: Spec, a: Automaton, b: Automaton)
    requires
        a == thompson_nfa(s),
        b == thompson_nfa(s),
    ensures
        a.start == b.start,
        a.states.len() == b.states.len(),
        forall|i: int| 0 <= i < a.states.len() ==> (#[trigger] a.states[i]).trans == b.states[i].trans,
{
}

} // verus!
