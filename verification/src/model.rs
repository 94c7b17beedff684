use vstd::prelude::*;
use crate::label::{Label, StateID, Transition};

verus! {

/// What a state of an arena holds, as mathematical values.
pub struct StateModel {
    pub accept: bool,
    pub tag: Option<usize>,
    pub trans: Seq<Transition>,
}

/// A freshly allocated state: not accepting, untagged, without edges.
pub open spec fn fresh_state() -> StateModel {
    StateModel { accept: false, tag: None, trans: Seq::empty() }
}

/// Arena integrity: every edge leads to a state of the same arena, and only
/// accepting states carry a rule tag.
pub open spec fn arena_wf(states: Seq<StateModel>) -> bool {
    &&& forall|i: int, j: int|
        0 <= i < states.len() && 0 <= j < states[i].trans.len()
            ==> (#[trigger] states[i].trans[j]).target < states.len()
    &&& forall|i: int| 0 <= i < states.len() && !(#[trigger] states[i]).accept ==> states[i].tag is None
}

/// State `p` has an edge labelled `l` to `q`.
pub open spec fn has_edge(states: Seq<StateModel>, p: StateID, l: Label, q: StateID) -> bool {
    p < states.len() && states[p as int].trans.contains(Transition { label: l, target: q })
}

/// State `p` has an epsilon edge to `q`.
pub open spec fn eps_edge(states: Seq<StateModel>, p: StateID, q: StateID) -> bool {
    has_edge(states, p, Label::Epsilon, q)
}

/// State `p` has an edge to `q` that consumes `c`.
pub open spec fn char_edge(states: Seq<StateModel>, p: StateID, c: char, q: StateID) -> bool {
    has_edge(states, p, Label::Any, q) || has_edge(states, p, Label::Symbol(c), q)
}

/// `t` contains the target of every epsilon edge that leaves one of its members.
pub open spec fn eps_closed(states: Seq<StateModel>, t: Set<StateID>) -> bool {
    forall|p: StateID, q: StateID|
        t.contains(p) && #[trigger] eps_edge(states, p, q) ==> t.contains(q)
}

/// The smallest superset of `s` that is closed under epsilon edges: the states
/// that belong to every closed superset of `s`.
pub open spec fn eps_closure(states: Seq<StateModel>, s: Set<StateID>) -> Set<StateID> {
    Set::new(
        |q: StateID|
            forall|t: Set<StateID>|
                s.subset_of(t) && #[trigger] eps_closed(states, t) ==> t.contains(q),
    )
}

/// The targets of the edges that leave a member of `s` and consume `c`.
pub open spec fn step_set(states: Seq<StateModel>, s: Set<StateID>, c: char) -> Set<StateID> {
    Set::new(|q: StateID| exists|p: StateID| s.contains(p) && #[trigger] char_edge(states, p, c, q))
}

/// Some member of `s` is an accepting state.
pub open spec fn accepting_in(states: Seq<StateModel>, s: Set<StateID>) -> bool {
    exists|q: StateID| s.contains(q) && q < states.len() && (#[trigger] states[q as int]).accept
}

/// Some accepting member of `s` belongs to rule `t`.
pub open spec fn tag_in(states: Seq<StateModel>, s: Set<StateID>, t: usize) -> bool {
    exists|q: StateID|
        s.contains(q) && q < states.len() && (#[trigger] states[q as int]).accept
            && states[q as int].tag == Some(t)
}

/// `t` is the earliest rule among the accepting members of `s`.
pub open spec fn is_least_tag(states: Seq<StateModel>, s: Set<StateID>, t: usize) -> bool {
    tag_in(states, s, t) && forall|u: usize| #[trigger] tag_in(states, s, u) ==> t <= u
}

/// The earliest rule among the accepting members of `s`, if any of them is tagged.
pub open spec fn least_tag(states: Seq<StateModel>, s: Set<StateID>) -> Option<usize> {
    if exists|t: usize| is_least_tag(states, s, t) {
        Some(choose|t: usize| is_least_tag(states, s, t))
    } else {
        None
    }
}

/// A start state together with the arena it lives in.
pub struct Automaton {
    pub start: StateID,
    pub states: Seq<StateModel>,
}

impl Automaton {
    /// The start state exists and the arena is intact.
    pub open spec fn wf(self) -> bool {
        self.start < self.states.len() && arena_wf(self.states)
    }

    /// The set of states the automaton may be in after reading `w`.
    pub open spec fn reached(self, w: Seq<char>) -> Set<StateID>
        decreases w.len(),
    {
        if w.len() == 0 {
            eps_closure(self.states, set![self.start])
        } else {
            eps_closure(self.states, step_set(self.states, self.reached(w.drop_last()), w.last()))
        }
    }

    /// Whether reading `w` can end in an accepting state.
    pub open spec fn accepts(self, w: Seq<char>) -> bool {
        accepting_in(self.states, self.reached(w))
    }

    /// The earliest rule that accepts `w`, if a tagged accepting state is reached.
    pub open spec fn rule(self, w: Seq<char>) -> Option<usize> {
        least_tag(self.states, self.reached(w))
    }
}

/// The target of the first edge of `trans` that carries `l`, if there is one.
pub open spec fn label_target(trans: Seq<Transition>, l: Label) -> Option<StateID>
    decreases trans.len(),
{
    if trans.len() == 0 {
        None
    } else {
        match label_target(trans.drop_last(), l) {
            Some(t) => Some(t),
            None => if trans.last().label == l {
                Some(trans.last().target)
            } else {
                None
            },
        }
    }
}

/// Where a deterministic automaton goes from state `q` on input `c`: along
/// the edge for `c` itself if there is one, else along the wildcard edge, else
/// nowhere.
pub open spec fn delta(states: Seq<StateModel>, q: StateID, c: char) -> Option<StateID> {
    if q < states.len() {
        match label_target(states[q as int].trans, Label::Symbol(c)) {
            Some(t) => Some(t),
            None => label_target(states[q as int].trans, Label::Any),
        }
    } else {
        None
    }
}

/// No edge is an epsilon edge, and no state has two edges with the same label.
pub open spec fn deterministic(states: Seq<StateModel>) -> bool {
    &&& forall|i: int, a: int|
        0 <= i < states.len() && 0 <= a < states[i].trans.len() ==> (#[trigger] states[i].trans[a]).label
            != Label::Epsilon
    &&& forall|i: int, a: int, b: int|
        #![trigger states[i].trans[a], states[i].trans[b]]
        0 <= i < states.len() && 0 <= a < b < states[i].trans.len() ==> states[i].trans[a].label
            != states[i].trans[b].label
}

impl Automaton {
    /// The state a deterministic automaton is in after reading `w`, if it did
    /// not get stuck on the way.
    pub open spec fn det_state(self, w: Seq<char>) -> Option<StateID>
        decreases w.len(),
    {
        if w.len() == 0 {
            Some(self.start)
        } else {
            match self.det_state(w.drop_last()) {
                Some(q) => delta(self.states, q, w.last()),
                None => None,
            }
        }
    }

    /// Whether a deterministic automaton ends in an accepting state on `w`.
    pub open spec fn det_accepts(self, w: Seq<char>) -> bool {
        match self.det_state(w) {
            Some(q) => q < self.states.len() && self.states[q as int].accept,
            None => false,
        }
    }

    /// The rule of the state a deterministic automaton ends in on `w`.
    pub open spec fn det_rule(self, w: Seq<char>) -> Option<usize> {
        match self.det_state(w) {
            Some(q) => if q < self.states.len() {
                self.states[q as int].tag
            } else {
                None
            },
            None => None,
        }
    }
}

/// `label_target` finds an edge that carries the label exactly when there is one.
pub proof fn lemma_label_target(trans: Seq<Transition>, l: Label)
    ensures
        match label_target(trans, l) {
            Some(t) => exists|a: int|
                0 <= a < trans.len() && (#[trigger] trans[a]).label == l && trans[a].target == t,
            None => forall|a: int| 0 <= a < trans.len() ==> (#[trigger] trans[a]).label != l,
        },
    decreases trans.len(),
{
    if trans.len() > 0 {
        let front = trans.drop_last();
        lemma_label_target(front, l);
        match label_target(front, l) {
            Some(t) => {
                let a = choose|a: int|
                    0 <= a < front.len() && (#[trigger] front[a]).label == l && front[a].target == t;
            },
            None => {
                if trans.last().label != l {
                    assert forall|a: int| 0 <= a < trans.len() implies (#[trigger] trans[a]).label
                        != l by {
                        if a < front.len() {
                            assert(trans[a] == front[a]);
                        }
                    }
                }
            },
        }
    }
}

/// The empty set is its own epsilon closure.
pub proof fn lemma_closure_empty(states: Seq<StateModel>)
    ensures
        eps_closure(states, Set::empty()) == Set::<StateID>::empty(),
{
    lemma_closure_least(states, Set::empty(), Set::empty());
}

/// Every set is contained in its epsilon closure.
pub proof fn lemma_closure_extends(states: Seq<StateModel>, s: Set<StateID>)
    ensures
        s.subset_of(eps_closure(states, s)),
{
}

/// An epsilon closure is closed under epsilon edges.
pub proof fn lemma_closure_closed(states: Seq<StateModel>, s: Set<StateID>)
    ensures
        eps_closed(states, eps_closure(states, s)),
{
}

/// The closure of `s` is contained in every closed superset of `s`.
pub proof fn lemma_closure_least(states: Seq<StateModel>, s: Set<StateID>, t: Set<StateID>)
    requires
        s.subset_of(t),
        eps_closed(states, t),
    ensures
        eps_closure(states, s).subset_of(t),
{
}

/// Taking the epsilon closure twice gives what taking it once gives, and the
/// closure contains the set it was taken of.
pub proof fn lemma_closure_idempotent(states: Seq<StateModel>, s: Set<StateID>)
    ensures
        eps_closure(states, eps_closure(states, s)) == eps_closure(states, s),
        s.subset_of(eps_closure(states, s)),
{
    let c = eps_closure(states, s);
    lemma_closure_closed(states, s);
    lemma_closure_least(states, c, c);
    lemma_closure_extends(states, c);
}

/// A larger set has a larger epsilon closure.
pub proof fn lemma_closure_monotone(states: Seq<StateModel>, s: Set<StateID>, t: Set<StateID>)
    requires
        s.subset_of(t),
    ensures
        eps_closure(states, s).subset_of(eps_closure(states, t)),
{
}

} // verus!
