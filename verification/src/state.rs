use vstd::prelude::*;
use std::collections::BTreeSet;
use crate::label::{Label, StateID, Transition, label_matches};
use crate::model::StateModel;

verus! {

/// A state of an automaton: its accepting mark, the rule that owns it when it
/// accepts, and its outgoing edges in the order in which they were added.
pub struct State {
    pub accept: bool,
    pub tag: Option<usize>,
    pub trans: Vec<Transition>,
}

impl View for State {
    type V = StateModel;

    open spec fn view(&self) -> StateModel {
        StateModel { accept: self.accept, tag: self.tag, trans: self.trans@ }
    }
}

/// The targets of the edges of `st` that consume `c`.
pub open spec fn state_step(st: StateModel, c: char) -> Set<StateID> {
    Set::new(
        |q: StateID|
            st.trans.contains(Transition { label: Label::Any, target: q }) || st.trans.contains(
                Transition { label: Label::Symbol(c), target: q },
            ),
    )
}

impl State {
    /// The outgoing edges that carry `label`, in the order in which they were added.
    pub fn find_transition(&self, label: Label) -> (res: Vec<&Transition>)
        ensures
            res@.map_values(|t: &Transition| *t) == self.trans@.filter(
                |t: Transition| t.label == label,
            ),
    {
        let mut res: Vec<&Transition> = Vec::new();
        let ghost keep = |t: Transition| t.label == label;
        let mut i: usize = 0;
        while i < self.trans.len()
            invariant
                i <= self.trans.len(),
                keep == |t: Transition| t.label == label,
                res@.map_values(|t: &Transition| *t) == self.trans@.take(i as int).filter(keep),
            decreases self.trans.len() - i,
        {
            proof {
                assert(self.trans@.take(i + 1).drop_last() == self.trans@.take(i as int));
                reveal(Seq::filter);
            }
            if self.trans[i].label == label {
                res.push(&self.trans[i]);
            }
            i = i + 1;
        }
        assert(self.trans@.take(i as int) == self.trans@);
        res
    }

    /// The states that an edge of this state leads to on input `c`.
    pub fn step(&self, c: char) -> (res: BTreeSet<StateID>)
        ensures
            res@ == state_step(self@, c),
            res@.finite(),
    {
        let mut res: BTreeSet<StateID> = BTreeSet::new();
        let mut i: usize = 0;
        while i < self.trans.len()
            invariant
                i <= self.trans.len(),
                res@.finite(),
                forall|q: StateID|
                    res@.contains(q) <==> exists|j: int|
                        0 <= j < i && (#[trigger] self.trans@[j]).target == q && label_matches(
                            self.trans@[j].label,
                            c,
                        ),
            decreases self.trans.len() - i,
        {
            let t = self.trans[i];
            if t.label.matches(c) {
                res.insert(t.target);
            }
            i = i + 1;
        }
        assert(res@ =~= state_step(self@, c)) by {
            assert forall|q: StateID| state_step(self@, c).contains(q) implies res@.contains(q) by {
                let ta = Transition { label: Label::Any, target: q };
                let ts = Transition { label: Label::Symbol(c), target: q };
                if self.trans@.contains(ta) {
                    let j = choose|j: int| 0 <= j < self.trans@.len() && self.trans@[j] == ta;
                } else {
                    let j = choose|j: int| 0 <= j < self.trans@.len() && self.trans@[j] == ts;
                }
            }
            assert forall|q: StateID| res@.contains(q) implies state_step(self@, c).contains(q) by {
                let j = choose|j: int|
                    0 <= j < i && (#[trigger] self.trans@[j]).target == q && label_matches(
                        self.trans@[j].label,
                        c,
                    );
            }
        }
        res
    }
}

} // verus!
