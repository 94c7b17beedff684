use vstd::prelude::*;
use std::collections::BTreeSet;
use crate::label::{Label, StateID, Transition};
use crate::model::{
    Automaton, accepting_in, char_edge, eps_closure, eps_edge, is_least_tag, least_tag,
    lemma_closure_closed, lemma_closure_least, step_set, tag_in,
};
use crate::state::State;
use crate::builder::states_view;

verus! {

/// The set that holds `s` alone.
pub fn state_set(s: StateID) -> (res: BTreeSet<StateID>)
    ensures
        res@ == set![s],
{
    let mut hs: BTreeSet<StateID> = BTreeSet::new();
    hs.insert(s);
    hs
}

/// Whether some member of `set` is an accepting state of the arena `states`.
pub fn any_accepting(states: &Vec<State>, set: &BTreeSet<StateID>) -> (res: bool)
    ensures
        res == accepting_in(states_view(states@), set@),
{
    let ghost arena = states_view(states@);
    let mut res = false;
    for s in it: set.iter()
        invariant
            arena == states_view(states@),
            res ==> accepting_in(arena, set@),
            !res ==> forall|k: int|
                0 <= k < it.index() && *(#[trigger] it.seq()[k]) < arena.len() ==> !arena[*it.seq()[k] as int].accept,
    {
        if *s < states.len() && states[*s].accept {
            res = true;
        }
    }
    res
}

/// The earliest rule among the accepting members of `set`, if one is tagged.
pub fn earliest_rule(states: &Vec<State>, set: &BTreeSet<StateID>) -> (res: Option<usize>)
    ensures
        res == least_tag(states_view(states@), set@),
{
    let ghost arena = states_view(states@);
    let mut best: Option<usize> = None;
    for s in it: set.iter()
        invariant
            arena == states_view(states@),
            best is Some ==> tag_in(arena, set@, best->0),
            forall|k: int|
                0 <= k < it.index() && *(#[trigger] it.seq()[k]) < arena.len()
                    && arena[*it.seq()[k] as int].accept && arena[*it.seq()[k] as int].tag is Some
                    ==> best is Some && best->0 <= arena[*it.seq()[k] as int].tag->0,
    {
        if *s < states.len() && states[*s].accept {
            match states[*s].tag {
                Some(t) => {
                    match best {
                        Some(b) => {
                            if t < b {
                                best = Some(t);
                            }
                        },
                        None => {
                            best = Some(t);
                        },
                    }
                },
                None => {},
            }
        }
    }
    proof {
        assert forall|u: usize| #[trigger] tag_in(arena, set@, u) implies best is Some && best->0 <= u by {
            let q = choose|q: StateID|
                set@.contains(q) && q < arena.len() && (#[trigger] arena[q as int]).accept
                    && arena[q as int].tag == Some(u);
        }
        if best is Some {
            assert(is_least_tag(arena, set@, best->0));
        }
    }
    best
}

/// What reading a word came to: whether it was accepted, and for which rule.
#[derive(Clone, Copy, Debug, PartialEq, Eq, Structural)]
pub struct Outcome {
    pub accepted: bool,
    pub rule_tag: Option<usize>,
}

/// A finished automaton: a start state and the arena of its states. Some of
/// the states are marked as accepting, each for one rule at most.
pub struct NFA {
    pub(crate) start: StateID,
    pub(crate) states: Vec<State>,
}

impl View for NFA {
    type V = Automaton;

    closed spec fn view(&self) -> Automaton {
        Automaton { start: self.start, states: states_view(self.states@) }
    }
}

impl NFA {
    #[verifier::type_invariant]
    closed spec fn inv(&self) -> bool {
        self@.wf()
    }

    /// Wraps a finished arena and its start state.
    pub(crate) fn from_arena(start: StateID, states: Vec<State>) -> (res: NFA)
        requires
            (Automaton { start: start, states: states_view(states@) }).wf(),
        ensures
            res@ == (Automaton { start: start, states: states_view(states@) }),
    {
        NFA { start: start, states: states }
    }

    /// What the view of an automaton is made of.
    pub(crate) proof fn lemma_view(&self)
        ensures
            self@ == (Automaton { start: self.start, states: states_view(self.states@) }),
    {
    }

    /// The identifier of the start state.
    pub fn start(&self) -> (res: StateID)
        ensures
            res == self@.start,
            self@.wf(),
    {
        proof {
            use_type_invariant(self);
        }
        self.start
    }

    /// The state named `sid`, if there is one.
    pub fn get_state(&self, sid: StateID) -> (res: Option<&State>)
        ensures
            res is Some <==> sid < self@.states.len(),
            res is Some ==> res->0@ == self@.states[sid as int],
    {
        if sid < self.states.len() {
            Some(&self.states[sid])
        } else {
            None
        }
    }

    /// The smallest superset of `states` that is closed under epsilon edges.
    pub fn epsilon_closure(&self, states: &BTreeSet<StateID>) -> (clos: BTreeSet<StateID>)
        ensures
            clos@ == eps_closure(self@.states, states@),
            clos@.finite(),
    {
        let ghost arena = self@.states;
        let mut clos: BTreeSet<StateID> = BTreeSet::new();
        let mut stack: Vec<StateID> = Vec::new();
        for s in it: states.iter()
            invariant
                clos@.finite(),
                forall|k: int| 0 <= k < it.index() ==> clos@.contains(*#[trigger] it.seq()[k]),
                forall|v: StateID| clos@.contains(v) ==> states@.contains(v),
                forall|v: StateID| clos@.contains(v) ==> stack@.contains(v),
                forall|k: int| 0 <= k < stack@.len() ==> clos@.contains(#[trigger] stack@[k]),
        {
            let ghost before = stack@;
            stack.push(*s);
            clos.insert(*s);
            assert(stack@[before.len() as int] == *s);
            assert forall|v: StateID| clos@.contains(v) implies stack@.contains(v) by {
                if v != *s {
                    let k = choose|k: int| 0 <= k < before.len() && before[k] == v;
                    assert(stack@[k] == v);
                }
            }
        }
        while stack.len() > 0
            invariant
                arena == self@.states,
                clos@.finite(),
                states@.subset_of(clos@),
                clos@.subset_of(eps_closure(arena, states@)),
                forall|k: int| 0 <= k < stack@.len() ==> clos@.contains(#[trigger] stack@[k]),
                forall|p: StateID, q: StateID|
                    clos@.contains(p) && #[trigger] eps_edge(arena, p, q) ==> clos@.contains(q)
                        || stack@.contains(p),
            decreases usize::MAX - clos@.len(), stack.len(),
        {
            let ghost clos0 = clos@;
            let ghost stack0 = stack@;
            let s = stack.pop().unwrap();
            let ghost stack1 = stack@;
            assert(clos.len() == clos@.len());
            assert forall|v: StateID| stack0.contains(v) implies stack1.contains(v) || v == s by {
                let k = choose|k: int| 0 <= k < stack0.len() && stack0[k] == v;
                if k < stack1.len() {
                    assert(stack1[k] == v);
                }
            }
            if s < self.states.len() {
                let st = &self.states[s];
                let mut j: usize = 0;
                while j < st.trans.len()
                    invariant
                        j <= st.trans.len(),
                        arena == self@.states,
                        s < self.states.len(),
                        *st == self.states@[s as int],
                        clos@.finite(),
                        states@.subset_of(clos@),
                        clos@.subset_of(eps_closure(arena, states@)),
                        clos0.subset_of(clos@),
                        clos@.contains(s),
                        forall|k: int| 0 <= k < stack@.len() ==> clos@.contains(#[trigger] stack@[k]),
                        stack1.len() + 1 == stack0.len(),
                        stack1.len() <= stack.len(),
                        stack.len() - stack1.len() == clos@.len() - clos0.len(),
                        clos@.len() <= usize::MAX,
                        forall|k: int| 0 <= k < stack1.len() ==> stack@[k] == stack1[k],
                        forall|p: StateID, q: StateID|
                            clos@.contains(p) && #[trigger] eps_edge(arena, p, q) ==> clos@.contains(
                                q,
                            ) || stack@.contains(p) || p == s,
                        forall|k: int|
                            0 <= k < j && (#[trigger] st.trans@[k]).label == Label::Epsilon
                                ==> clos@.contains(st.trans@[k].target),
                    decreases st.trans.len() - j,
                {
                    let t = st.trans[j];
                    if t.label == Label::Epsilon && !clos.contains(&t.target) {
                        let ghost clos_b = clos@;
                        let ghost stack_b = stack@;
                        proof {
                            lemma_closure_closed(arena, states@);
                            assert(eps_edge(arena, s, t.target));
                        }
                        clos.insert(t.target);
                        stack.push(t.target);
                        assert(clos.len() == clos@.len());
                        assert(stack@[stack_b.len() as int] == t.target);
                        assert forall|p: StateID, q: StateID|
                            clos@.contains(p) && #[trigger] eps_edge(arena, p, q) implies clos@.contains(
                            q,
                        ) || stack@.contains(p) || p == s by {
                            if p != s {
                                if clos_b.contains(p) {
                                    if !clos_b.contains(q) {
                                        let k = choose|k: int|
                                            0 <= k < stack_b.len() && stack_b[k] == p;
                                        assert(stack@[k] == p);
                                    }
                                }
                            }
                        }
                    }
                    j = j + 1;
                }
                assert forall|p: StateID, q: StateID|
                    clos@.contains(p) && #[trigger] eps_edge(arena, p, q) implies clos@.contains(q)
                    || stack@.contains(p) by {
                    if p == s {
                        let e = Transition { label: Label::Epsilon, target: q };
                        let k = choose|k: int|
                            0 <= k < arena[s as int].trans.len() && arena[s as int].trans[k] == e;
                    }
                }
            }
        }
        proof {
            assert forall|p: StateID, q: StateID|
                clos@.contains(p) && #[trigger] eps_edge(arena, p, q) implies clos@.contains(q) by {
                if stack@.contains(p) {
                    let k = choose|k: int| 0 <= k < stack@.len() && stack@[k] == p;
                }
            }
            lemma_closure_least(arena, states@, clos@);
        }
        clos
    }

    /// The states that an edge of state `s` leads to on input `c`; none if `s`
    /// names no state.
    pub fn step(&self, s: StateID, c: char) -> (res: BTreeSet<StateID>)
        ensures
            res@ == Set::new(|q: StateID| char_edge(self@.states, s, c, q)),
            res@.finite(),
    {
        if s < self.states.len() {
            let res = self.states[s].step(c);
            res
        } else {
            let res: BTreeSet<StateID> = BTreeSet::new();
            res
        }
    }

    /// The states that an edge of a member of `vs` leads to on input `c`.
    pub fn steps(&self, vs: &BTreeSet<StateID>, c: char) -> (res: BTreeSet<StateID>)
        ensures
            res@ == step_set(self@.states, vs@, c),
            res@.finite(),
    {
        let ghost arena = self@.states;
        let mut res: BTreeSet<StateID> = BTreeSet::new();
        for s in it: vs.iter()
            invariant
                arena == self@.states,
                res@.finite(),
                forall|k: int, q: StateID|
                    0 <= k < it.index() && #[trigger] char_edge(arena, *it.seq()[k], c, q)
                        ==> res@.contains(q),
                forall|q: StateID| res@.contains(q) ==> step_set(arena, vs@, c).contains(q),
        {
            let ss = self.step(*s, c);
            for t in it2: ss.iter()
                invariant
                    arena == self@.states,
                    res@.finite(),
                    vs@.contains(*s),
                    ss@ == Set::new(|q: StateID| char_edge(arena, *s, c, q)),
                    forall|k: int, q: StateID|
                        0 <= k < it.index() && #[trigger] char_edge(arena, *it.seq()[k], c, q)
                            ==> res@.contains(q),
                    forall|k: int| 0 <= k < it2.index() ==> res@.contains(*#[trigger] it2.seq()[k]),
                    forall|q: StateID| res@.contains(q) ==> step_set(arena, vs@, c).contains(q),
            {
                assert(ss@.contains(*t));
                res.insert(*t);
            }
            assert forall|q: StateID| #[trigger] char_edge(arena, *s, c, q) implies res@.contains(
                q,
            ) by {
                assert(ss@.contains(q));
            }
        }
        res
    }

    /// The set of states that the automaton may be in after reading `word`.
    pub fn reach(&self, word: &str) -> (res: BTreeSet<StateID>)
        ensures
            res@ == self@.reached(word@),
    {
        let mut s = self.epsilon_closure(&state_set(self.start));
        for c in it: word.chars()
            invariant
                it.seq() == word@,
                s@ == self@.reached(word@.take(it.index() as int)),
        {
            proof {
                assert(word@.take(it.index() + 1).drop_last() == word@.take(it.index() as int));
            }
            s = self.epsilon_closure(&self.steps(&s, c));
        }
        assert(word@.take(word@.len() as int) == word@);
        s
    }

    /// Whether the automaton accepts `word`.
    pub fn simulate(&self, word: &str) -> (res: bool)
        ensures
            res == self@.accepts(word@),
    {
        let s = self.reach(word);
        any_accepting(&self.states, &s)
    }

    /// Whether the automaton accepts `word`, and the earliest of the rules that
    /// accept it.
    pub fn recognize(&self, word: &str) -> (res: Outcome)
        ensures
            res.accepted == self@.accepts(word@),
            res.rule_tag == self@.rule(word@),
    {
        let s = self.reach(word);
        Outcome { accepted: any_accepting(&self.states, &s), rule_tag: earliest_rule(&self.states, &s) }
    }
}

} // verus!
