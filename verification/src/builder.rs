use vstd::prelude::*;
use crate::label::{Label, StateID, Transition};
use crate::model::{StateModel, arena_wf, fresh_state};
use crate::state::State;
use crate::nfa::NFA;
use crate::shape::lemma_size;
use crate::correct::lemma_thompson_language;
use crate::fuse::{earliest, lemma_fused_accepts, lemma_fused_earliest};
use crate::thompson::{
    Fragment, NFAid, Spec, concat_fragment, fuse, single_fragment, star_fragment, thompson,
    thompson_all, thompson_fused, thompson_nfa, union_fragment,
};

verus! {

/// The arena after an edge labelled `l` from `src` to `dst` was asked for: the
/// edge is appended to the edges of `src` if both name states, and nothing
/// changes otherwise.
pub open spec fn add_edge(states: Seq<StateModel>, src: StateID, dst: StateID, l: Label) -> Seq<
    StateModel,
> {
    if src < states.len() && dst < states.len() {
        states.update(
            src as int,
            StateModel {
                trans: states[src as int].trans.push(Transition { label: l, target: dst }),
                ..states[src as int]
            },
        )
    } else {
        states
    }
}

/// The arena after state `id` was marked as accepting for rule `tag`; an `id`
/// that names no state changes nothing.
pub open spec fn mark_accepting(states: Seq<StateModel>, id: StateID, tag: Option<usize>) -> Seq<
    StateModel,
> {
    if id < states.len() {
        states.update(id as int, StateModel { accept: true, tag: tag, ..states[id as int] })
    } else {
        states
    }
}

/// The arena that owns all states and edges of an automaton under construction.
/// It only grows, and the identifier of a state is its index.
pub struct NFABuilder {
    states: Vec<State>,
}

/// The mathematical values held by a vector of states.
pub open spec fn states_view(states: Seq<State>) -> Seq<StateModel> {
    Seq::new(states.len(), |i: int| states[i]@)
}

impl View for NFABuilder {
    type V = Seq<StateModel>;

    closed spec fn view(&self) -> Seq<StateModel> {
        states_view(self.states@)
    }
}

impl NFABuilder {
    #[verifier::type_invariant]
    closed spec fn inv(&self) -> bool {
        arena_wf(self@)
    }

    /// An empty arena.
    pub fn new() -> (res: NFABuilder)
        ensures
            res@ == Seq::<StateModel>::empty(),
            arena_wf(res@),
    {
        let st: Vec<State> = Vec::with_capacity(10);
        let res = NFABuilder { states: st };
        res
    }

    /// The states of the arena, for the automaton that takes them over.
    pub(crate) fn into_states(self) -> (res: Vec<State>)
        ensures
            states_view(res@) == self@,
            arena_wf(self@),
    {
        proof {
            use_type_invariant(&self);
        }
        self.states
    }

    /// Appends a fresh state and returns its identifier.
    pub fn new_state(&mut self) -> (id: StateID)
        ensures
            id == old(self)@.len(),
            final(self)@ == old(self)@.push(fresh_state()),
            arena_wf(final(self)@),
    {
        proof {
            use_type_invariant(&*self);
        }
        let id = self.states.len();
        let trs: Vec<Transition> = Vec::with_capacity(2);
        let st = State { trans: trs, accept: false, tag: None };
        let mut states: Vec<State> = Vec::new();
        std::mem::swap(&mut self.states, &mut states);
        states.push(st);
        proof {
            assert(states_view(states@) =~= old(self)@.push(fresh_state()));
        }
        std::mem::swap(&mut self.states, &mut states);
        id
    }

    /// Whether `id` names a state of this arena.
    pub fn check_id(&self, id: StateID) -> (ok: bool)
        ensures
            ok == (id < self@.len()),
    {
        id < self.states.len()
    }

    /// The state named `id`, if there is one.
    pub fn get_state(&self, id: StateID) -> (res: Option<&State>)
        ensures
            res is Some <==> id < self@.len(),
            res is Some ==> res->0@ == self@[id as int],
            arena_wf(self@),
    {
        proof {
            use_type_invariant(self);
        }
        if id < self.states.len() {
            Some(&self.states[id])
        } else {
            None
        }
    }

    /// Marks `id` as accepting for rule `tag`; an `id` that names no state
    /// leaves the arena as it is.
    pub fn set_accepting(&mut self, id: StateID, tag: Option<usize>)
        ensures
            final(self)@ == mark_accepting(old(self)@, id, tag),
            arena_wf(final(self)@),
    {
        proof {
            use_type_invariant(&*self);
        }
        if id < self.states.len() {
            let mut states: Vec<State> = Vec::new();
            std::mem::swap(&mut self.states, &mut states);
            states[id].accept = true;
            states[id].tag = tag;
            proof {
                assert(states_view(states@) =~= mark_accepting(old(self)@, id, tag));
            }
            std::mem::swap(&mut self.states, &mut states);
        }
    }

    /// Adds an edge labelled `label` from `src_id` to `dst_id`. Returns `false`
    /// and changes nothing unless both name states of this arena.
    pub fn add_transition(&mut self, src_id: StateID, dst_id: StateID, label: Label) -> (ok: bool)
        ensures
            ok == (src_id < old(self)@.len() && dst_id < old(self)@.len()),
            final(self)@ == add_edge(old(self)@, src_id, dst_id, label),
            arena_wf(final(self)@),
    {
        proof {
            use_type_invariant(&*self);
        }
        if self.check_id(src_id) && self.check_id(dst_id) {
            let trans = Transition { label: label, target: dst_id };
            let mut states: Vec<State> = Vec::new();
            std::mem::swap(&mut self.states, &mut states);
            states[src_id].trans.push(trans);
            proof {
                assert(states_view(states@) =~= add_edge(old(self)@, src_id, dst_id, label));
            }
            std::mem::swap(&mut self.states, &mut states);
            true
        } else {
            false
        }
    }

    /// Two fresh states joined by one edge labelled `l`.
    pub fn single(&mut self, l: Label) -> (res: NFAid)
        ensures
            single_fragment(old(self)@, l) == (Fragment {
                states: final(self)@,
                start: res.start,
                accept: res.accept,
            }),
            arena_wf(final(self)@),
    {
        let st = self.new_state();
        let acc = self.new_state();
        self.add_transition(st, acc, l);
        NFAid { start: st, accept: acc }
    }

    /// Joins two sub-automata into one that takes either.
    pub fn union(&mut self, n1: NFAid, n2: NFAid) -> (res: NFAid)
        ensures
            union_fragment(old(self)@, n1.start, n1.accept, n2.start, n2.accept) == (Fragment {
                states: final(self)@,
                start: res.start,
                accept: res.accept,
            }),
            arena_wf(final(self)@),
    {
        let start = self.new_state();
        self.add_transition(start, n1.start, Label::Epsilon);
        self.add_transition(start, n2.start, Label::Epsilon);
        let acc = self.new_state();
        self.add_transition(n1.accept, acc, Label::Epsilon);
        self.add_transition(n2.accept, acc, Label::Epsilon);
        NFAid { start: start, accept: acc }
    }

    /// Joins two sub-automata into one that takes the first, then the second.
    pub fn concat(&mut self, n1: NFAid, n2: NFAid) -> (res: NFAid)
        ensures
            concat_fragment(old(self)@, n1.start, n1.accept, n2.start, n2.accept) == (Fragment {
                states: final(self)@,
                start: res.start,
                accept: res.accept,
            }),
            arena_wf(final(self)@),
    {
        self.add_transition(n1.accept, n2.start, Label::Epsilon);
        NFAid { start: n1.start, accept: n2.accept }
    }

    /// Wraps a sub-automaton into one that takes it any number of times.
    pub fn star(&mut self, n: NFAid) -> (res: NFAid)
        ensures
            star_fragment(old(self)@, n.start, n.accept) == (Fragment {
                states: final(self)@,
                start: res.start,
                accept: res.accept,
            }),
            arena_wf(final(self)@),
    {
        let start = self.new_state();
        let acc = self.new_state();
        self.add_transition(start, n.start, Label::Epsilon);
        self.add_transition(n.accept, acc, Label::Epsilon);
        self.add_transition(start, acc, Label::Epsilon);
        self.add_transition(n.accept, n.start, Label::Epsilon);
        NFAid { start: start, accept: acc }
    }

    /// Builds the states and edges of `s` into this arena and returns the two
    /// ends of the new sub-automaton.
    pub fn build(&mut self, s: &Spec) -> (res: NFAid)
        ensures
            thompson(old(self)@, *s) == (Fragment {
                states: final(self)@,
                start: res.start,
                accept: res.accept,
            }),
            old(self)@.len() <= final(self)@.len(),
            res.start < final(self)@.len(),
            res.accept < final(self)@.len(),
            arena_wf(final(self)@),
        decreases *s,
    {
        match s {
            Spec::Single(l) => self.single(*l),
            Spec::Union(s1, s2) => {
                let n1 = self.build(s1);
                let n2 = self.build(s2);
                self.union(n1, n2)
            },
            Spec::Concat(s1, s2) => {
                let n1 = self.build(s1);
                let n2 = self.build(s2);
                self.concat(n1, n2)
            },
            Spec::Star(s1) => {
                let n = self.build(s1);
                self.star(n)
            },
        }
    }

    /// Ties the sub-automata `ns` to a fresh shared start, marks the end of each
    /// as accepting for its rule, and returns the shared start.
    pub fn fuse_nfas(&mut self, ns: &Vec<NFAid>, tags: &Vec<usize>) -> (nstart: StateID)
        requires
            ns.len() == tags.len(),
        ensures
            nstart == old(self)@.len(),
            final(self)@ == fuse(old(self)@.push(fresh_state()), nstart, ns@, tags@, ns@.len()),
            final(self)@.len() == old(self)@.len() + 1,
            arena_wf(final(self)@),
    {
        let nstart = self.new_state();
        let mut i: usize = 0;
        while i < ns.len()
            invariant
                i <= ns.len(),
                ns.len() == tags.len(),
                nstart == old(self)@.len(),
                self@ == fuse(old(self)@.push(fresh_state()), nstart, ns@, tags@, i as nat),
                self@.len() == old(self)@.len() + 1,
            decreases ns.len() - i,
        {
            let n = ns[i];
            self.add_transition(nstart, n.start, Label::Epsilon);
            self.set_accepting(n.accept, Some(tags[i]));
            i = i + 1;
        }
        proof {
            use_type_invariant(&*self);
        }
        nstart
    }

    /// The automaton of `s`: its construction in an empty arena, with the end
    /// marked as accepting.
    pub fn build_from_spec(s: Spec) -> (res: NFA)
        ensures
            res@ == thompson_nfa(s),
            res@.wf(),
            forall|w: Seq<char>| #[trigger] res@.accepts(w) <==> s.takes(w),
    {
        let st: Vec<State> = Vec::with_capacity(10);
        let mut builder = NFABuilder { states: st };
        assert(builder@ =~= Seq::<StateModel>::empty());
        let nid = builder.build(&s);
        proof {
            assert(builder.states.len() <= usize::MAX);
            lemma_size(Seq::<StateModel>::empty(), s);
        }
        builder.set_accepting(nid.accept, None);
        let res = NFA::from_arena(nid.start, builder.states);
        proof {
            assert forall|w: Seq<char>| #[trigger] res@.accepts(w) <==> s.takes(w) by {
                lemma_thompson_language(s, w);
            }
        }
        res
    }

    /// The automaton of several rules at once: every tree of `ss` built in turn,
    /// then tied to one shared start, with the end of tree `i` accepting for
    /// rule `tags[i]`. Drains `ss`.
    pub fn build_from_specs(ss: &mut Vec<Spec>, tags: &Vec<usize>) -> (res: NFA)
        requires
            old(ss).len() == tags.len(),
        ensures
            res@ == thompson_fused(old(ss)@, tags@),
            res@.wf(),
            final(ss)@ == Seq::<Spec>::empty(),
            forall|w: Seq<char>|
                #[trigger] res@.accepts(w) <==> exists|i: int|
                    0 <= i < old(ss)@.len() && (#[trigger] old(ss)@[i]).takes(w),
            forall|w: Seq<char>| #[trigger] res@.rule(w) == earliest(old(ss)@, tags@, w),
    {
        let mut builder = NFABuilder::new();
        let mut ns: Vec<NFAid> = Vec::new();
        let mut i: usize = 0;
        while i < ss.len()
            invariant
                i <= ss.len(),
                *ss == *old(ss),
                ss.len() == tags.len(),
                ns.len() == i,
                thompson_all(Seq::empty(), ss@.take(i as int)) == (builder@, ns@),
            decreases ss.len() - i,
        {
            proof {
                assert(ss@.take(i + 1).drop_last() == ss@.take(i as int));
            }
            let n = builder.build(&ss[i]);
            ns.push(n);
            i = i + 1;
        }
        assert(ss@.take(i as int) == ss@);
        let start = builder.fuse_nfas(&ns, tags);
        assert(builder.states.len() <= usize::MAX);
        ss.clear();
        let res = NFA::from_arena(start, builder.states);
        proof {
            let specs = old(ss)@;
            assert forall|w: Seq<char>|
                #[trigger] res@.accepts(w) <==> exists|i: int|
                    0 <= i < specs.len() && (#[trigger] specs[i]).takes(w) by {
                lemma_fused_accepts(specs, tags@, w);
            }
            assert forall|w: Seq<char>| #[trigger] res@.rule(w) == earliest(specs, tags@, w) by {
                lemma_fused_earliest(specs, tags@, w);
            }
        }
        res
    }
}

} // verus!
