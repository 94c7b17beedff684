use vstd::prelude::*;
use vstd::set_lib::lemma_subset_equality;
use std::collections::BTreeSet;
use crate::label::{Label, StateID, Transition, increasing, insert_label};
use crate::model::{
    Automaton, StateModel, accepting_in, arena_wf, char_edge, delta, deterministic, eps_closure, has_edge,
    is_least_tag, least_tag, lemma_closure_empty, lemma_label_target, label_target, step_set,
    tag_in,
};
use crate::builder::{NFABuilder, add_edge, states_view};
use crate::nfa::{NFA, any_accepting, earliest_rule, state_set};
use crate::dfa::DFA;

verus! {

/// Some member of `s` has an edge labelled `l`.
pub open spec fn label_out(states: Seq<StateModel>, s: Set<StateID>, l: Label) -> bool {
    exists|p: StateID, q: StateID| s.contains(p) && #[trigger] has_edge(states, p, l, q)
}

/// The targets of the edges labelled exactly `l` that leave a member of `s`.
pub open spec fn label_step(states: Seq<StateModel>, s: Set<StateID>, l: Label) -> Set<StateID> {
    Set::new(|q: StateID| exists|p: StateID| s.contains(p) && #[trigger] has_edge(states, p, l, q))
}

/// The subset that the subset `s` leads to along `l`. For a character this is
/// everything that may be reached by reading it, wildcard edges included; for
/// the wildcard it is what the wildcard edges alone reach.
pub open spec fn successor(states: Seq<StateModel>, s: Set<StateID>, l: Label) -> Set<StateID> {
    match l {
        Label::Symbol(c) => eps_closure(states, step_set(states, s, c)),
        _ => eps_closure(states, label_step(states, s, l)),
    }
}

/// The sets that a vector of sets holds.
pub open spec fn subsets_of(subsets: Seq<BTreeSet<StateID>>) -> Seq<Set<StateID>> {
    Seq::new(subsets.len(), |i: int| subsets[i]@)
}

/// The edge `t` of the deterministic state `i` carries a label that occurs
/// on an edge out of the subset of `i`, and leads to the state that stands
/// for the successor of that subset.
pub open spec fn edge_faithful(
    nfa: Seq<StateModel>,
    subsets: Seq<Set<StateID>>,
    i: int,
    t: Transition,
) -> bool {
    &&& t.target < subsets.len()
    &&& subsets[t.target as int] == successor(nfa, subsets[i], t.label)
    &&& label_out(nfa, subsets[i], t.label)
}

/// The edges of every state stand in the order of their labels.
pub open spec fn ordered_edges(dfa: Seq<StateModel>) -> bool {
    forall|i: int, a: int, b: int|
        #![trigger dfa[i].trans[a], dfa[i].trans[b]]
        0 <= i < dfa.len() && 0 <= a < b < dfa[i].trans.len() ==> dfa[i].trans[a].label.rank()
            < dfa[i].trans[b].label.rank()
}

/// The edge `x`, given by its state and its place there, comes before the
/// edge `y` when the states are gone through in turn.
pub open spec fn before(x: (int, int), y: (int, int)) -> bool {
    x.0 < y.0 || (x.0 == y.0 && x.1 < y.1)
}

/// The edge `e` leads to the state `j`.
pub open spec fn finds(dfa: Seq<StateModel>, e: (int, int), j: int) -> bool {
    0 <= e.0 < dfa.len() && 0 <= e.1 < dfa[e.0].trans.len() && dfa[e.0].trans[e.1].target == j
}

/// The edge `e` is the first that leads to the state `j`.
pub open spec fn found_first(dfa: Seq<StateModel>, e: (int, int), j: int) -> bool {
    finds(dfa, e, j) && forall|o: (int, int)| #[trigger] finds(dfa, o, j) ==> o == e || before(e, o)
}

/// The first edge that leads to the state `j` leaves a state with a smaller
/// number.
pub open spec fn found_from_before(dfa: Seq<StateModel>, j: int) -> bool {
    exists|e: (int, int)| #[trigger] found_first(dfa, e, j) && e.0 < j
}

/// The states are numbered in the order in which they are found: every
/// state but the first is found from a state with a smaller number, and of two
/// such states the one with the smaller number is found first.
pub open spec fn numbered_as_found(dfa: Seq<StateModel>) -> bool {
    &&& forall|j: int| 1 <= j < dfa.len() ==> #[trigger] found_from_before(dfa, j)
    &&& forall|j: int, j2: int, e: (int, int), e2: (int, int)|
        1 <= j < j2 < dfa.len() && #[trigger] found_first(dfa, e, j) && #[trigger] found_first(
            dfa,
            e2,
            j2,
        ) ==> before(e, e2)
}

/// What holds of the numbering while the states up to `head` get their
/// edges: `origin[j]` is the first edge that leads to the state `j`, it leaves
/// a state before `j` and not behind `head`, and these edges come in the order
/// of the states they lead to.
pub open spec fn discovery(dfa: Seq<StateModel>, origin: Seq<(int, int)>, head: int) -> bool {
    &&& origin.len() == dfa.len()
    &&& forall|j: int|
        1 <= j < dfa.len() ==> finds(dfa, #[trigger] origin[j], j) && origin[j].0 < j && origin[j].0
            <= head
    &&& forall|j: int, j2: int|
        1 <= j < j2 < dfa.len() ==> before(#[trigger] origin[j], #[trigger] origin[j2])
    &&& forall|o: (int, int), j: int|
        1 <= j && #[trigger] finds(dfa, o, j) ==> j < dfa.len() && (o == origin[j] || before(
            origin[j],
            o,
        ))
    &&& forall|i: int| head < i < dfa.len() ==> (#[trigger] dfa[i]).trans.len() == 0
}

/// The numbering stays in order when the state `head` gets an edge to the
/// state `id`, which is the state that was added last or was there before.
pub proof fn lemma_discovery_step(
    dfa0: Seq<StateModel>,
    origin0: Seq<(int, int)>,
    head: StateID,
    dfa1: Seq<StateModel>,
    id: StateID,
    l: Label,
) -> (origin1: Seq<(int, int)>)
    requires
        discovery(dfa0, origin0, head as int),
        head < dfa0.len(),
        id <= dfa0.len(),
        dfa1.len() == (if id < dfa0.len() {
            dfa0.len()
        } else {
            dfa0.len() + 1
        }),
        forall|i: int| 0 <= i < dfa0.len() ==> #[trigger] dfa1[i] == dfa0[i],
        id == dfa0.len() ==> dfa1[id as int].trans.len() == 0,
    ensures
        discovery(add_edge(dfa1, head, id, l), origin1, head as int),
        origin1 == (if id < dfa0.len() {
            origin0
        } else {
            origin0.push((head as int, dfa0[head as int].trans.len() as int))
        }),
{
    let dfa2 = add_edge(dfa1, head, id, l);
    let fresh = (head as int, dfa0[head as int].trans.len() as int);
    let origin1 = if id < dfa0.len() {
        origin0
    } else {
        origin0.push(fresh)
    };
    assert(dfa2[head as int].trans == dfa0[head as int].trans.push(
        Transition { label: l, target: id },
    ));
    assert forall|j: int| 1 <= j < dfa0.len() implies finds(dfa2, #[trigger] origin1[j], j) by {}
    assert forall|o: (int, int), j: int| 1 <= j && #[trigger] finds(dfa2, o, j) implies j
        < dfa2.len() && (o == origin1[j] || before(origin1[j], o)) by {
        if !(o.0 == head && o.1 == fresh.1) {
            assert(finds(dfa0, o, j));
        }
    }
    origin1
}

/// When all states have their edges, the states are numbered in the order
/// in which they were found.
pub proof fn lemma_discovery_done(dfa: Seq<StateModel>, origin: Seq<(int, int)>, head: int)
    requires
        discovery(dfa, origin, head),
    ensures
        numbered_as_found(dfa),
{
    assert forall|j: int| 1 <= j < dfa.len() implies #[trigger] found_from_before(dfa, j) by {
        assert(found_first(dfa, origin[j], j) && origin[j].0 < j);
    }
}

/// The edges of a state stay in the order of their labels when the state
/// gets an edge whose label comes behind all labels it has.
pub proof fn lemma_ordered_step(dfa: Seq<StateModel>, head: StateID, id: StateID, l: Label)
    requires
        ordered_edges(dfa),
        head < dfa.len(),
        id < dfa.len(),
        forall|a: int|
            0 <= a < dfa[head as int].trans.len() ==> (#[trigger] dfa[head as int].trans[a]).label.rank()
                < l.rank(),
    ensures
        ordered_edges(add_edge(dfa, head, id, l)),
{
}

/// What the subset construction makes of an automaton: the deterministic
/// automaton `d` is built from `n` with state `i` standing for the subset
/// `subsets[i]`. The start stands for what `n` may be in before it reads;
/// every state has, in the order of the labels, one edge for each label but
/// epsilon on the edges out of its subset, which leads to the state that
/// stands for the successor of the subset; a state accepts for the earliest
/// rule of its subset; no subset has two states; and the states are numbered
/// in the order in which they are found.
pub open spec fn built_from(n: Automaton, d: Automaton, subsets: Seq<Set<StateID>>) -> bool {
    &&& d.start == 0
    &&& subsets.len() >= 1
    &&& subsets[0] == eps_closure(n.states, set![n.start])
    &&& faithful(n.states, d.states, subsets)
    &&& forall|i: int| 0 <= i < d.states.len() ==> complete(n.states, d.states, subsets, i)
    &&& ordered_edges(d.states)
    &&& numbered_as_found(d.states)
}

/// What holds of a deterministic arena under construction: state `i` stands
/// for the subset `subsets[i]`, no subset occurs twice, a state accepts when
/// its subset holds an accepting state and then carries the earliest rule, and
/// every edge that is there already leads to the right subset.
pub open spec fn faithful(
    nfa: Seq<StateModel>,
    dfa: Seq<StateModel>,
    subsets: Seq<Set<StateID>>,
) -> bool {
    &&& dfa.len() == subsets.len()
    &&& forall|i: int| 0 <= i < subsets.len() ==> (#[trigger] subsets[i]).finite()
    &&& forall|i: int, j: int|
        #![trigger subsets[i], subsets[j]]
        0 <= i < j < subsets.len() ==> subsets[i] != subsets[j]
    &&& forall|i: int|
        0 <= i < dfa.len() ==> (#[trigger] dfa[i]).accept == accepting_in(nfa, subsets[i])
            && dfa[i].tag == least_tag(nfa, subsets[i])
    &&& deterministic(dfa)
    &&& forall|i: int, a: int|
        0 <= i < dfa.len() && 0 <= a < dfa[i].trans.len() ==> edge_faithful(
            nfa,
            subsets,
            i,
            #[trigger] dfa[i].trans[a],
        )
}

/// The deterministic state `i` has an edge for every label but epsilon that
/// occurs on an edge out of its subset.
pub open spec fn complete(
    nfa: Seq<StateModel>,
    dfa: Seq<StateModel>,
    subsets: Seq<Set<StateID>>,
    i: int,
) -> bool {
    forall|l: Label|
        l != Label::Epsilon && #[trigger] label_out(nfa, subsets[i], l) ==> exists|a: int|
            0 <= a < dfa[i].trans.len() && (#[trigger] dfa[i].trans[a]).label == l
}

/// A set without an accepting member has no earliest rule.
pub proof fn lemma_no_accepting_no_tag(states: Seq<StateModel>, s: Set<StateID>)
    requires
        !accepting_in(states, s),
    ensures
        least_tag(states, s) is None,
{
    assert forall|t: usize| !is_least_tag(states, s, t) by {
        if tag_in(states, s, t) {
            let q = choose|q: StateID|
                s.contains(q) && q < states.len() && (#[trigger] states[q as int]).accept
                    && states[q as int].tag == Some(t);
        }
    }
}

/// One step of a finished subset construction: from the state that stands
/// for `subsets[i]`, reading `c` leads to the state that stands for what the
/// members of `subsets[i]` reach by `c`, or nowhere if they reach nothing.
pub proof fn lemma_subset_step(
    nfa: Seq<StateModel>,
    dfa: Seq<StateModel>,
    subsets: Seq<Set<StateID>>,
    i: StateID,
    c: char,
)
    requires
        faithful(nfa, dfa, subsets),
        i < dfa.len(),
        complete(nfa, dfa, subsets, i as int),
    ensures
        match delta(dfa, i, c) {
            Some(j) => j < subsets.len() && subsets[j as int] == eps_closure(
                nfa,
                step_set(nfa, subsets[i as int], c),
            ),
            None => eps_closure(nfa, step_set(nfa, subsets[i as int], c)) == Set::<StateID>::empty(),
        },
{
    let trans = dfa[i as int].trans;
    let t = subsets[i as int];
    lemma_label_target(trans, Label::Symbol(c));
    lemma_label_target(trans, Label::Any);
    match label_target(trans, Label::Symbol(c)) {
        Some(j) => {
            let a = choose|a: int|
                0 <= a < trans.len() && (#[trigger] trans[a]).label == Label::Symbol(c)
                    && trans[a].target == j;
        },
        None => {
            assert(!label_out(nfa, t, Label::Symbol(c)));
            assert forall|q: StateID| step_set(nfa, t, c).contains(q) implies label_step(
                nfa,
                t,
                Label::Any,
            ).contains(q) by {
                let p = choose|p: StateID| t.contains(p) && #[trigger] char_edge(nfa, p, c, q);
            }
            assert forall|q: StateID| label_step(nfa, t, Label::Any).contains(q) implies step_set(
                nfa,
                t,
                c,
            ).contains(q) by {
                let p = choose|p: StateID| t.contains(p) && #[trigger] has_edge(nfa, p, Label::Any, q);
                assert(char_edge(nfa, p, c, q));
            }
            match label_target(trans, Label::Any) {
                Some(j) => {
                    let a = choose|a: int|
                        0 <= a < trans.len() && (#[trigger] trans[a]).label == Label::Any
                            && trans[a].target == j;
                },
                None => {
                    assert(!label_out(nfa, t, Label::Any));
                    lemma_closure_empty(nfa);
                },
            }
        },
    }
}

/// A finished subset construction tracks the automaton it was made from: after
/// any word the deterministic automaton is in the state that stands for the
/// set of states the other may be in, or is stuck if that set is empty.
pub proof fn lemma_subset_run(n: Automaton, d: Automaton, subsets: Seq<Set<StateID>>, w: Seq<char>)
    requires
        faithful(n.states, d.states, subsets),
        forall|i: int| 0 <= i < d.states.len() ==> complete(n.states, d.states, subsets, i),
        d.start < subsets.len(),
        subsets[d.start as int] == eps_closure(n.states, set![n.start]),
    ensures
        match d.det_state(w) {
            Some(j) => j < subsets.len() && subsets[j as int] == n.reached(w),
            None => n.reached(w) == Set::<StateID>::empty(),
        },
    decreases w.len(),
{
    if w.len() > 0 {
        lemma_subset_run(n, d, subsets, w.drop_last());
        match d.det_state(w.drop_last()) {
            Some(q) => {
                lemma_subset_step(n.states, d.states, subsets, q, w.last());
            },
            None => {
                assert(step_set(n.states, Set::<StateID>::empty(), w.last()) =~= Set::<
                    StateID,
                >::empty());
                lemma_closure_empty(n.states);
            },
        }
    }
}

/// A finished subset construction accepts the words that the automaton it was
/// made from accepts, each for the same rule.
pub proof fn lemma_subset_language(
    n: Automaton,
    d: Automaton,
    subsets: Seq<Set<StateID>>,
    w: Seq<char>,
)
    requires
        faithful(n.states, d.states, subsets),
        forall|i: int| 0 <= i < d.states.len() ==> complete(n.states, d.states, subsets, i),
        d.start < subsets.len(),
        subsets[d.start as int] == eps_closure(n.states, set![n.start]),
    ensures
        d.det_accepts(w) == n.accepts(w),
        d.det_rule(w) == n.rule(w),
{
    lemma_subset_run(n, d, subsets, w);
    match d.det_state(w) {
        Some(j) => {
        },
        None => {
            lemma_no_accepting_no_tag(n.states, Set::<StateID>::empty());
        },
    }
}

/// The state `head` has an edge for each of the first `k` labels but
/// epsilon, and no other edge.
pub open spec fn linked(dfa: Seq<StateModel>, head: int, labels: Seq<Label>, k: int) -> bool {
    &&& forall|a: int|
        0 <= a < dfa[head].trans.len() ==> exists|b: int|
            0 <= b < k && labels[b] == (#[trigger] dfa[head].trans[a]).label
    &&& forall|b: int|
        0 <= b < k && labels[b] != Label::Epsilon ==> exists|a: int|
            0 <= a < dfa[head].trans.len() && (#[trigger] dfa[head].trans[a]).label == labels[b]
}

/// What is known when the state for the successor of the subset of `head`
/// along the label `labels[k]` was looked up or added: the arena and the
/// subsets before, `dfa0` and `subs0`, and after, `dfa1` and `subs1`, with the
/// state `id` standing for the successor.
pub open spec fn looked_up(
    nfa: Seq<StateModel>,
    dfa0: Seq<StateModel>,
    subs0: Seq<Set<StateID>>,
    dfa1: Seq<StateModel>,
    subs1: Seq<Set<StateID>>,
    head: StateID,
    labels: Seq<Label>,
    k: int,
    id: StateID,
) -> bool {
    &&& faithful(nfa, dfa0, subs0)
    &&& faithful(nfa, dfa1, subs1)
    &&& head < subs0.len()
    &&& increasing(labels)
    &&& 0 <= k < labels.len()
    &&& labels[k] != Label::Epsilon
    &&& forall|l: Label| labels.contains(l) <==> label_out(nfa, subs0[head as int], l)
    &&& linked(dfa0, head as int, labels, k)
    &&& id < subs1.len()
    &&& subs1[id as int] == successor(nfa, subs0[head as int], labels[k])
    &&& subs0.len() <= subs1.len()
    &&& forall|i: int|
        0 <= i < subs0.len() ==> #[trigger] subs1[i] == subs0[i] && #[trigger] dfa1[i] == dfa0[i]
    &&& forall|i: int| subs0.len() <= i < subs1.len() ==> (#[trigger] dfa1[i]).trans.len() == 0
}

/// The new edge comes behind the edges that the state has.
pub proof fn lemma_link_behind(
    nfa: Seq<StateModel>,
    dfa0: Seq<StateModel>,
    subs0: Seq<Set<StateID>>,
    dfa1: Seq<StateModel>,
    subs1: Seq<Set<StateID>>,
    head: StateID,
    labels: Seq<Label>,
    k: int,
    id: StateID,
)
    requires
        looked_up(nfa, dfa0, subs0, dfa1, subs1, head, labels, k, id),
    ensures
        forall|a: int|
            0 <= a < dfa1[head as int].trans.len() ==> (#[trigger] dfa1[head as int].trans[a]).label.rank()
                < labels[k].rank(),
{
    assert forall|a: int| 0 <= a < dfa1[head as int].trans.len() implies (
    #[trigger] dfa1[head as int].trans[a]).label.rank() < labels[k].rank() by {
        let b = choose|b: int| 0 <= b < k && labels[b] == dfa0[head as int].trans[a].label;
    }
}

/// The arena stays faithful when the state `head` gets its edge for the
/// label `labels[k]`.
pub proof fn lemma_link_faithful(
    nfa: Seq<StateModel>,
    dfa0: Seq<StateModel>,
    subs0: Seq<Set<StateID>>,
    dfa1: Seq<StateModel>,
    subs1: Seq<Set<StateID>>,
    head: StateID,
    labels: Seq<Label>,
    k: int,
    id: StateID,
)
    requires
        looked_up(nfa, dfa0, subs0, dfa1, subs1, head, labels, k, id),
    ensures
        faithful(nfa, add_edge(dfa1, head, id, labels[k]), subs1),
{
    let l = labels[k];
    let dfa2 = add_edge(dfa1, head, id, l);
    let e = Transition { label: l, target: id };
    lemma_link_behind(nfa, dfa0, subs0, dfa1, subs1, head, labels, k, id);
    assert(labels.contains(l));
    assert(deterministic(dfa2));
}

/// The state `head` has its edges for the first `k + 1` labels when it got
/// its edge for the label `labels[k]`, and the states before it keep theirs.
pub proof fn lemma_link_linked(
    nfa: Seq<StateModel>,
    dfa0: Seq<StateModel>,
    subs0: Seq<Set<StateID>>,
    dfa1: Seq<StateModel>,
    subs1: Seq<Set<StateID>>,
    head: StateID,
    labels: Seq<Label>,
    k: int,
    id: StateID,
)
    requires
        looked_up(nfa, dfa0, subs0, dfa1, subs1, head, labels, k, id),
        forall|i: int| 0 <= i < head ==> complete(nfa, dfa0, subs0, i),
    ensures
        linked(add_edge(dfa1, head, id, labels[k]), head as int, labels, k + 1),
        forall|i: int|
            0 <= i < head ==> complete(nfa, add_edge(dfa1, head, id, labels[k]), subs1, i),
{
    let l = labels[k];
    let dfa2 = add_edge(dfa1, head, id, l);
    let e = Transition { label: l, target: id };
    let h = head as int;
    assert forall|i: int| 0 <= i < head implies complete(nfa, dfa2, subs1, i) by {
        assert(complete(nfa, dfa0, subs0, i));
    }
    assert forall|a: int| 0 <= a < dfa2[h].trans.len() implies exists|b: int|
        0 <= b < k + 1 && labels[b] == (#[trigger] dfa2[h].trans[a]).label by {
        if a != dfa1[h].trans.len() {
            let b = choose|b: int| 0 <= b < k && labels[b] == dfa0[h].trans[a].label;
        }
    }
    assert forall|b: int| 0 <= b < k + 1 && labels[b] != Label::Epsilon implies exists|a: int|
        0 <= a < dfa2[h].trans.len() && (#[trigger] dfa2[h].trans[a]).label == labels[b] by {
        if b == k {
            assert(dfa2[h].trans[dfa1[h].trans.len() as int].label == l);
        } else {
            let a = choose|a: int|
                0 <= a < dfa0[h].trans.len() && (#[trigger] dfa0[h].trans[a]).label == labels[b];
            assert(dfa2[h].trans[a].label == labels[b]);
        }
    }
}

/// A state whose edges stand for all labels on the edges out of its subset
/// is complete.
pub proof fn lemma_linked_complete(
    nfa: Seq<StateModel>,
    dfa: Seq<StateModel>,
    subs: Seq<Set<StateID>>,
    head: int,
    labels: Seq<Label>,
)
    requires
        linked(dfa, head, labels, labels.len() as int),
        forall|l: Label| labels.contains(l) <==> label_out(nfa, subs[head], l),
    ensures
        complete(nfa, dfa, subs, head),
{
    assert forall|l: Label| l != Label::Epsilon && #[trigger] label_out(nfa, subs[head], l) implies exists|
        a: int,
    |
        0 <= a < dfa[head].trans.len() && (#[trigger] dfa[head].trans[a]).label == l by {
        assert(labels.contains(l));
        let b = choose|b: int| 0 <= b < labels.len() && labels[b] == l;
    }
}

/// Whether two sets hold the same states.
pub fn sets_equal(a: &BTreeSet<StateID>, b: &BTreeSet<StateID>) -> (res: bool)
    requires
        a@.finite(),
        b@.finite(),
    ensures
        res == (a@ == b@),
{
    if a.len() != b.len() {
        return false;
    }
    let mut res = true;
    for x in it: a.iter()
        invariant
            res ==> forall|k: int| 0 <= k < it.index() ==> b@.contains(*#[trigger] it.seq()[k]),
            !res ==> a@ != b@,
    {
        if !b.contains(x) {
            res = false;
        }
    }
    proof {
        if res {
            lemma_subset_equality(a@, b@);
        }
    }
    res
}

impl NFA {
    /// The labels on the edges that leave a member of `set`, each once, in the
    /// order of labels.
    pub fn transitions_from_set(&self, set: &BTreeSet<StateID>) -> (labels: Vec<Label>)
        ensures
            increasing(labels@),
            forall|l: Label| labels@.contains(l) <==> label_out(self@.states, set@, l),
    {
        let ghost arena = self@.states;
        proof {
            self.lemma_view();
        }
        let mut labels: Vec<Label> = Vec::new();
        for sid in it: set.iter()
            invariant
                arena == states_view(self.states@),
                increasing(labels@),
                forall|l: Label| labels@.contains(l) ==> label_out(arena, set@, l),
                forall|k: int, l: Label, q: StateID|
                    0 <= k < it.index() && #[trigger] has_edge(arena, *it.seq()[k], l, q)
                        ==> labels@.contains(l),
        {
            if *sid < self.states.len() {
                let st = &self.states[*sid];
                let mut j: usize = 0;
                while j < st.trans.len()
                    invariant
                        j <= st.trans.len(),
                        arena == states_view(self.states@),
                        *sid < self.states.len(),
                        *st == self.states@[*sid as int],
                        set@.contains(*sid),
                        increasing(labels@),
                        forall|l: Label| labels@.contains(l) ==> label_out(arena, set@, l),
                        forall|k: int, l: Label, q: StateID|
                            0 <= k < it.index() && #[trigger] has_edge(arena, *it.seq()[k], l, q)
                                ==> labels@.contains(l),
                        forall|a: int| 0 <= a < j ==> labels@.contains((#[trigger] st.trans@[a]).label),
                    decreases st.trans.len() - j,
                {
                    let t = st.trans[j];
                    proof {
                        assert(has_edge(arena, *sid, t.label, t.target));
                    }
                    insert_label(&mut labels, t.label);
                    j = j + 1;
                }
                assert forall|l: Label, q: StateID| #[trigger] has_edge(arena, *sid, l, q) implies labels@.contains(
                    l,
                ) by {
                    let e = Transition { label: l, target: q };
                    let a = choose|a: int| 0 <= a < st.trans@.len() && st.trans@[a] == e;
                }
            }
        }
        assert forall|l: Label| label_out(arena, set@, l) implies labels@.contains(l) by {
            let (p, q) = choose|p: StateID, q: StateID|
                set@.contains(p) && #[trigger] has_edge(arena, p, l, q);
        }
        labels
    }

    /// The targets of the edges labelled exactly `l` that leave a member of `vs`.
    pub fn label_steps(&self, vs: &BTreeSet<StateID>, l: Label) -> (res: BTreeSet<StateID>)
        ensures
            res@ == label_step(self@.states, vs@, l),
            res@.finite(),
    {
        let ghost arena = self@.states;
        proof {
            self.lemma_view();
        }
        let mut res: BTreeSet<StateID> = BTreeSet::new();
        for s in it: vs.iter()
            invariant
                arena == states_view(self.states@),
                res@.finite(),
                forall|k: int, q: StateID|
                    0 <= k < it.index() && #[trigger] has_edge(arena, *it.seq()[k], l, q)
                        ==> res@.contains(q),
                forall|q: StateID| res@.contains(q) ==> label_step(arena, vs@, l).contains(q),
        {
            if *s < self.states.len() {
                let st = &self.states[*s];
                let mut j: usize = 0;
                while j < st.trans.len()
                    invariant
                        j <= st.trans.len(),
                        arena == states_view(self.states@),
                        *s < self.states.len(),
                        *st == self.states@[*s as int],
                        vs@.contains(*s),
                        res@.finite(),
                        forall|k: int, q: StateID|
                            0 <= k < it.index() && #[trigger] has_edge(arena, *it.seq()[k], l, q)
                                ==> res@.contains(q),
                        forall|q: StateID| res@.contains(q) ==> label_step(arena, vs@, l).contains(q),
                        forall|a: int|
                            0 <= a < j && (#[trigger] st.trans@[a]).label == l ==> res@.contains(
                                st.trans@[a].target,
                            ),
                    decreases st.trans.len() - j,
                {
                    let t = st.trans[j];
                    if t.label == l {
                        proof {
                            assert(has_edge(arena, *s, l, t.target));
                        }
                        res.insert(t.target);
                    }
                    j = j + 1;
                }
                assert forall|q: StateID| #[trigger] has_edge(arena, *s, l, q) implies res@.contains(
                    q,
                ) by {
                    let e = Transition { label: l, target: q };
                    let a = choose|a: int| 0 <= a < st.trans@.len() && st.trans@[a] == e;
                }
            }
        }
        res
    }

    /// The subset that `set` leads to along `l` in the subset construction.
    pub fn successor(&self, set: &BTreeSet<StateID>, l: Label) -> (res: BTreeSet<StateID>)
        ensures
            res@ == successor(self@.states, set@, l),
            res@.finite(),
    {
        match l {
            Label::Symbol(c) => self.epsilon_closure(&self.steps(set, c)),
            _ => self.epsilon_closure(&self.label_steps(set, l)),
        }
    }

    /// The deterministic state that stands for `set`: the one that is there
    /// already, or else a fresh one, which accepts if `set` holds an accepting
    /// state and then carries the earliest rule among them.
    pub fn subset_state(
        &self,
        builder: &mut NFABuilder,
        subsets: &mut Vec<BTreeSet<StateID>>,
        set: BTreeSet<StateID>,
    ) -> (id: StateID)
        requires
            arena_wf(old(builder)@),
            faithful(self@.states, old(builder)@, subsets_of(old(subsets)@)),
            set@.finite(),
        ensures
            faithful(self@.states, final(builder)@, subsets_of(final(subsets)@)),
            arena_wf(final(builder)@),
            id < final(subsets).len(),
            id <= old(subsets).len(),
            final(subsets)@[id as int]@ == set@,
            id < old(subsets).len() ==> final(subsets).len() == old(subsets).len(),
            id == old(subsets).len() ==> final(subsets).len() == old(subsets).len() + 1,
            forall|i: int|
                0 <= i < old(subsets).len() ==> (#[trigger] final(subsets)@[i]) == old(subsets)@[i]
                    && final(builder)@[i] == old(builder)@[i],
            forall|i: int|
                old(subsets).len() <= i < final(subsets).len() ==> (#[trigger] final(builder)@[i]).trans.len()
                    == 0,
    {
        let ghost nfa = self@.states;
        proof {
            self.lemma_view();
        }
        let mut i: usize = 0;
        while i < subsets.len()
            invariant
                i <= subsets.len(),
                *subsets == *old(subsets),
                *builder == *old(builder),
                set@.finite(),
                nfa == self@.states,
                faithful(nfa, builder@, subsets_of(subsets@)),
                forall|j: int| 0 <= j < i ==> (#[trigger] subsets@[j])@ != set@,
            decreases subsets.len() - i,
        {
            assert(subsets_of(subsets@)[i as int].finite());
            if sets_equal(&subsets[i], &set) {
                return i;
            }
            i = i + 1;
        }
        let id = builder.new_state();
        let acc = any_accepting(&self.states, &set);
        if acc {
            builder.set_accepting(id, earliest_rule(&self.states, &set));
        }
        subsets.push(set);
        proof {
            let dfa0 = old(builder)@;
            let dfa1 = builder@;
            let subs0 = subsets_of(old(subsets)@);
            let subs1 = subsets_of(subsets@);
            if !acc {
                lemma_no_accepting_no_tag(nfa, set@);
            }
            assert forall|i: int| 0 <= i < subs0.len() implies subs1[i] == subs0[i] && dfa1[i]
                == dfa0[i] by {}
            assert(deterministic(dfa1));
        }
        id
    }

    /// The subset construction: a deterministic automaton that accepts the
    /// words this automaton accepts, each for the same rule. Its states stand
    /// for the sets of states this automaton may be in; they are numbered in
    /// the order in which they are found, the successors of a state being
    /// sought in the order of the labels.
    pub fn to_dfa(&self) -> (dfa: DFA)
        ensures
            dfa@.wf(),
            deterministic(dfa@.states),
            exists|subsets: Seq<Set<StateID>>| built_from(self@, dfa@, subsets),
            forall|w: Seq<char>| #[trigger] dfa@.det_accepts(w) == self@.accepts(w),
            forall|w: Seq<char>| #[trigger] dfa@.det_rule(w) == self@.rule(w),
    {
        let ghost nfa = self@.states;
        let mut builder = NFABuilder::new();
        let mut subsets: Vec<BTreeSet<StateID>> = Vec::new();
        let startset = self.epsilon_closure(&state_set(self.start()));
        let start = self.subset_state(&mut builder, &mut subsets, startset);
        let ghost mut origin: Seq<(int, int)> = seq![(0int, 0int)];
        let mut head: usize = 0;
        while head < subsets.len()
            invariant
                nfa == self@.states,
                start == 0,
                head <= subsets.len(),
                1 <= subsets.len(),
                subsets@[0]@ == eps_closure(nfa, set![self@.start]),
                arena_wf(builder@),
                faithful(nfa, builder@, subsets_of(subsets@)),
                ordered_edges(builder@),
                discovery(builder@, origin, head as int),
                forall|i: int| 0 <= i < head ==> complete(nfa, builder@, subsets_of(subsets@), i),
                forall|i: int| head <= i < builder@.len() ==> (#[trigger] builder@[i]).trans.len() == 0,
            decreases usize::MAX - head,
        {
            let set = subsets[head].clone();
            let labels = self.transitions_from_set(&set);
            let mut k: usize = 0;
            while k < labels.len()
                invariant
                    nfa == self@.states,
                    k <= labels.len(),
                    head < subsets.len(),
                    set@ == subsets@[head as int]@,
                    increasing(labels@),
                    forall|l: Label| labels@.contains(l) <==> label_out(nfa, set@, l),
                    subsets@[0]@ == eps_closure(nfa, set![self@.start]),
                    arena_wf(builder@),
                    faithful(nfa, builder@, subsets_of(subsets@)),
                    ordered_edges(builder@),
                    discovery(builder@, origin, head as int),
                    linked(builder@, head as int, labels@, k as int),
                    forall|i: int| 0 <= i < head ==> complete(nfa, builder@, subsets_of(subsets@), i),
                decreases labels.len() - k,
            {
                let l = labels[k];
                if l != Label::Epsilon {
                    let ghost dfa0 = builder@;
                    let ghost subs0 = subsets_of(subsets@);
                    let next = self.successor(&set, l);
                    let id = self.subset_state(&mut builder, &mut subsets, next);
                    let ghost dfa1 = builder@;
                    let ghost subs1 = subsets_of(subsets@);
                    builder.add_transition(head, id, l);
                    proof {
                        lemma_link_faithful(nfa, dfa0, subs0, dfa1, subs1, head, labels@, k as int, id);
                        lemma_link_linked(nfa, dfa0, subs0, dfa1, subs1, head, labels@, k as int, id);
                        lemma_link_behind(nfa, dfa0, subs0, dfa1, subs1, head, labels@, k as int, id);
                        assert(ordered_edges(dfa1));
                        lemma_ordered_step(dfa1, head, id, l);
                        origin = lemma_discovery_step(dfa0, origin, head, dfa1, id, l);
                    }
                } else {
                    proof {
                        let dfa = builder@;
                        let h = head as int;
                        assert forall|a: int| 0 <= a < dfa[h].trans.len() implies exists|b: int|
                            0 <= b < k + 1 && labels@[b] == (#[trigger] dfa[h].trans[a]).label by {
                            let b = choose|b: int| 0 <= b < k && labels@[b] == dfa[h].trans[a].label;
                        }
                    }
                }
                k = k + 1;
            }
            proof {
                lemma_linked_complete(nfa, builder@, subsets_of(subsets@), head as int, labels@);
            }
            head = head + 1;
        }
        let ghost subs = subsets_of(subsets@);
        let ghost d = Automaton { start: start, states: builder@ };
        proof {
            lemma_discovery_done(builder@, origin, head as int);
            assert(built_from(self@, d, subs));
            assert forall|w: Seq<char>| #[trigger] d.det_accepts(w) == self@.accepts(w) by {
                lemma_subset_language(self@, d, subs, w);
            }
            assert forall|w: Seq<char>| #[trigger] d.det_rule(w) == self@.rule(w) by {
                lemma_subset_language(self@, d, subs, w);
            }
        }
        let states = builder.into_states();
        DFA::from_arena(start, states)
    }
}

} // verus!
