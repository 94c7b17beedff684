use vstd::prelude::*;
use crate::label::{Label, StateID};
use crate::model::{Automaton, delta, deterministic, label_target};
use crate::state::State;
use crate::builder::states_view;
use crate::nfa::Outcome;

verus! {

/// A deterministic automaton: no epsilon edges, and from every state at most
/// one edge for each character and at most one wildcard edge, which is taken
/// only for characters without an edge of their own.
pub struct DFA {
    pub(crate) start: StateID,
    pub(crate) states: Vec<State>,
}

impl View for DFA {
    type V = Automaton;

    closed spec fn view(&self) -> Automaton {
        Automaton { start: self.start, states: states_view(self.states@) }
    }
}

impl DFA {
    #[verifier::type_invariant]
    closed spec fn inv(&self) -> bool {
        self@.wf() && deterministic(self@.states)
    }

    /// Wraps a finished arena and its start state.
    pub(crate) fn from_arena(start: StateID, states: Vec<State>) -> (res: DFA)
        requires
            (Automaton { start: start, states: states_view(states@) }).wf(),
            deterministic(states_view(states@)),
        ensures
            res@ == (Automaton { start: start, states: states_view(states@) }),
    {
        DFA { start: start, states: states }
    }

    /// What the view of an automaton is made of.
    pub(crate) proof fn lemma_view(&self)
        ensures
            self@ == (Automaton { start: self.start, states: states_view(self.states@) }),
    {
    }

    /// The identifier of the start state.
    pub fn start(&self) -> (res: StateID)
        ensures
            res == self@.start,
            self@.wf(),
            deterministic(self@.states),
    {
        proof {
            use_type_invariant(self);
        }
        self.start
    }

    /// The state named `sid`, if there is one.
    pub fn get_state(&self, sid: StateID) -> (res: Option<&State>)
        ensures
            res is Some <==> sid < self@.states.len(),
            res is Some ==> res->0@ == self@.states[sid as int],
    {
        if sid < self.states.len() {
            Some(&self.states[sid])
        } else {
            None
        }
    }

    /// The state reached from `q` on input `c`: by the edge for `c` if there is
    /// one, else by the wildcard edge, else none.
    pub fn next_state(&self, q: StateID, c: char) -> (res: Option<StateID>)
        ensures
            res == delta(self@.states, q, c),
    {
        if q >= self.states.len() {
            return None;
        }
        let trans = &self.states[q].trans;
        let mut sym: Option<StateID> = None;
        let mut any: Option<StateID> = None;
        let mut j: usize = 0;
        while j < trans.len()
            invariant
                j <= trans.len(),
                sym == label_target(trans@.take(j as int), Label::Symbol(c)),
                any == label_target(trans@.take(j as int), Label::Any),
            decreases trans.len() - j,
        {
            proof {
                assert(trans@.take(j + 1).drop_last() == trans@.take(j as int));
            }
            let t = trans[j];
            if sym.is_none() && t.label == Label::Symbol(c) {
                sym = Some(t.target);
            }
            if any.is_none() && t.label == Label::Any {
                any = Some(t.target);
            }
            j = j + 1;
        }
        assert(trans@.take(j as int) == trans@);
        match sym {
            Some(t) => Some(t),
            None => any,
        }
    }

    /// The state the automaton is in after reading `word`, unless it got stuck.
    pub fn land(&self, word: &str) -> (res: Option<StateID>)
        ensures
            res == self@.det_state(word@),
    {
        let mut cur: Option<StateID> = Some(self.start);
        for c in it: word.chars()
            invariant
                it.seq() == word@,
                cur == self@.det_state(word@.take(it.index() as int)),
        {
            proof {
                assert(word@.take(it.index() + 1).drop_last() == word@.take(it.index() as int));
            }
            cur = match cur {
                Some(q) => self.next_state(q, c),
                None => None,
            };
        }
        assert(word@.take(word@.len() as int) == word@);
        cur
    }

    /// Whether the automaton accepts `word`.
    pub fn simulate(&self, word: &str) -> (res: bool)
        ensures
            res == self@.det_accepts(word@),
    {
        match self.land(word) {
            Some(q) => q < self.states.len() && self.states[q].accept,
            None => false,
        }
    }

    /// Whether the automaton accepts `word`, and for which rule.
    pub fn recognize(&self, word: &str) -> (res: Outcome)
        ensures
            res.accepted == self@.det_accepts(word@),
            res.rule_tag == self@.det_rule(word@),
    {
        match self.land(word) {
            Some(q) => {
                if q < self.states.len() {
                    Outcome { accepted: self.states[q].accept, rule_tag: self.states[q].tag }
                } else {
                    Outcome { accepted: false, rule_tag: None }
                }
            },
            None => Outcome { accepted: false, rule_tag: None },
        }
    }
}

} // verus!
