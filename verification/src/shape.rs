use vstd::prelude::*;
use crate::label::{Label, StateID, Transition};
use crate::model::{StateModel, fresh_state};
use crate::builder::add_edge;
use crate::thompson::{
    Fragment, Spec, concat_fragment, single_fragment, star_fragment, thompson, union_fragment,
};

verus! {

/// The number of states that Thompson's construction makes for a tree.
pub open spec fn states_of(s: Spec) -> nat
    decreases s,
{
    match s {
        Spec::Single(_) => 2,
        Spec::Union(x, y) => states_of(*x) + states_of(*y) + 2,
        Spec::Concat(x, y) => states_of(*x) + states_of(*y),
        Spec::Star(x) => states_of(*x) + 2,
    }
}

/// The number of states of what Thompson's construction builds: those of the
/// arena and those of the tree.
pub proof fn lemma_size(a: Seq<StateModel>, s: Spec)
    ensures
        thompson(a, s).states.len() == a.len() + states_of(s),
    decreases s,
{
    match s {
        Spec::Single(l) => {},
        Spec::Union(x, y) => {
            lemma_size(a, *x);
            lemma_size(thompson(a, *x).states, *y);
        },
        Spec::Concat(x, y) => {
            lemma_size(a, *x);
            lemma_size(thompson(a, *x).states, *y);
        },
        Spec::Star(x) => {
            lemma_size(a, *x);
        },
    }
}

/// An epsilon edge to `q`.
pub open spec fn eps_to(q: StateID) -> Transition {
    Transition { label: Label::Epsilon, target: q }
}

/// What holds of a sub-automaton `f` that was built into the arena `a`: the
/// states of `a` are as they were; the new states hold both ends, which
/// differ; no edge leaves the end; the edges of the new states lead to new
/// states; and no new state accepts.
pub open spec fn fragment_ok(a: Seq<StateModel>, f: Fragment) -> bool {
    &&& a.len() + 2 <= f.states.len() <= usize::MAX
    &&& forall|i: int| 0 <= i < a.len() ==> #[trigger] f.states[i] == a[i]
    &&& a.len() <= f.start < f.states.len()
    &&& a.len() <= f.accept < f.states.len()
    &&& f.start != f.accept
    &&& f.states[f.accept as int].trans.len() == 0
    &&& forall|i: int, j: int|
        a.len() <= i < f.states.len() && 0 <= j < f.states[i].trans.len() ==> a.len() <= (
        #[trigger] f.states[i].trans[j]).target < f.states.len()
    &&& forall|i: int|
        a.len() <= i < f.states.len() ==> !(#[trigger] f.states[i]).accept && f.states[i].tag is None
}

/// What a new edge between two states of an arena changes: the edges of its
/// source, and nothing else.
pub proof fn lemma_add_edge(states: Seq<StateModel>, src: StateID, dst: StateID, l: Label)
    requires
        src < states.len(),
        dst < states.len(),
    ensures
        add_edge(states, src, dst, l).len() == states.len(),
        forall|i: int|
            0 <= i < states.len() && i != src ==> #[trigger] add_edge(states, src, dst, l)[i]
                == states[i],
        add_edge(states, src, dst, l)[src as int].trans == states[src as int].trans.push(
            Transition { label: l, target: dst },
        ),
        add_edge(states, src, dst, l)[src as int].accept == states[src as int].accept,
        add_edge(states, src, dst, l)[src as int].tag == states[src as int].tag,
{
}

/// The shape of the sub-automaton for a single edge.
pub proof fn lemma_single_shape(a: Seq<StateModel>, l: Label)
    requires
        a.len() + 2 <= usize::MAX,
    ensures
        fragment_ok(a, single_fragment(a, l)),
        single_fragment(a, l).states.len() == a.len() + 2,
        single_fragment(a, l).start == a.len(),
        single_fragment(a, l).accept == a.len() + 1,
        single_fragment(a, l).states[a.len() as int].trans == seq![
            Transition { label: l, target: (a.len() + 1) as StateID },
        ],
{
    let st = a.len() as StateID;
    let acc = (a.len() + 1) as StateID;
    let b = a.push(fresh_state()).push(fresh_state());
    lemma_add_edge(b, st, acc, l);
}

/// What the states of a choice between two sub-automata hold.
pub open spec fn union_shape(a: Seq<StateModel>, f1: Fragment, f2: Fragment) -> bool {
    let f = union_fragment(f2.states, f1.start, f1.accept, f2.start, f2.accept);
    let m2 = f2.states.len();
    &&& fragment_ok(a, f)
    &&& f.states.len() == m2 + 2
    &&& f.start == m2
    &&& f.accept == m2 + 1
    &&& forall|i: int|
        0 <= i < m2 && i != f1.accept && i != f2.accept ==> #[trigger] f.states[i] == f2.states[i]
    &&& f.states[f1.accept as int].trans == seq![eps_to(f.accept)]
    &&& f.states[f2.accept as int].trans == seq![eps_to(f.accept)]
    &&& f.states[f.start as int].trans == seq![eps_to(f1.start), eps_to(f2.start)]
}

/// What the states of a sequence of two sub-automata hold.
pub open spec fn concat_shape(a: Seq<StateModel>, f1: Fragment, f2: Fragment) -> bool {
    let f = concat_fragment(f2.states, f1.start, f1.accept, f2.start, f2.accept);
    &&& fragment_ok(a, f)
    &&& f.states.len() == f2.states.len()
    &&& f.start == f1.start
    &&& f.accept == f2.accept
    &&& forall|i: int|
        0 <= i < f2.states.len() && i != f1.accept ==> #[trigger] f.states[i] == f2.states[i]
    &&& f.states[f1.accept as int].trans == seq![eps_to(f2.start)]
}

/// What the states of a repetition of a sub-automaton hold.
pub open spec fn star_shape(a: Seq<StateModel>, f1: Fragment) -> bool {
    let f = star_fragment(f1.states, f1.start, f1.accept);
    let m1 = f1.states.len();
    &&& fragment_ok(a, f)
    &&& f.states.len() == m1 + 2
    &&& f.start == m1
    &&& f.accept == m1 + 1
    &&& forall|i: int| 0 <= i < m1 && i != f1.accept ==> #[trigger] f.states[i] == f1.states[i]
    &&& f.states[f1.accept as int].trans == seq![eps_to(f.accept), eps_to(f1.start)]
    &&& f.states[f.start as int].trans == seq![eps_to(f1.start), eps_to(f.accept)]
}

/// The shape of a choice between two sub-automata that were built one after
/// the other.
pub proof fn lemma_union_shape(a: Seq<StateModel>, f1: Fragment, f2: Fragment)
    requires
        fragment_ok(a, f1),
        fragment_ok(f1.states, f2),
        f2.states.len() + 2 <= usize::MAX,
    ensures
        union_shape(a, f1, f2),
{
    let m2 = f2.states.len();
    let st = m2 as StateID;
    let acc = (m2 + 1) as StateID;
    let b0 = f2.states.push(fresh_state());
    lemma_add_edge(b0, st, f1.start, Label::Epsilon);
    let b1 = add_edge(b0, st, f1.start, Label::Epsilon);
    lemma_add_edge(b1, st, f2.start, Label::Epsilon);
    let b2 = add_edge(b1, st, f2.start, Label::Epsilon);
    let c0 = b2.push(fresh_state());
    lemma_add_edge(c0, f1.accept, acc, Label::Epsilon);
    let c1 = add_edge(c0, f1.accept, acc, Label::Epsilon);
    lemma_add_edge(c1, f2.accept, acc, Label::Epsilon);
    let c2 = add_edge(c1, f2.accept, acc, Label::Epsilon);
    assert(b2[st as int].trans =~= seq![eps_to(f1.start), eps_to(f2.start)]);
    assert(c1[f1.accept as int].trans =~= seq![eps_to(acc)]);
    assert(c2[f2.accept as int].trans =~= seq![eps_to(acc)]);
}

/// The shape of a sequence of two sub-automata that were built one after the
/// other.
pub proof fn lemma_concat_shape(a: Seq<StateModel>, f1: Fragment, f2: Fragment)
    requires
        fragment_ok(a, f1),
        fragment_ok(f1.states, f2),
    ensures
        concat_shape(a, f1, f2),
{
    lemma_add_edge(f2.states, f1.accept, f2.start, Label::Epsilon);
    let c = add_edge(f2.states, f1.accept, f2.start, Label::Epsilon);
    assert(c[f1.accept as int].trans =~= seq![eps_to(f2.start)]);
}

/// The shape of a repetition of a sub-automaton.
pub proof fn lemma_star_shape(a: Seq<StateModel>, f1: Fragment)
    requires
        fragment_ok(a, f1),
        f1.states.len() + 2 <= usize::MAX,
    ensures
        star_shape(a, f1),
{
    let m1 = f1.states.len();
    let st = m1 as StateID;
    let acc = (m1 + 1) as StateID;
    let b = f1.states.push(fresh_state()).push(fresh_state());
    lemma_add_edge(b, st, f1.start, Label::Epsilon);
    let c = add_edge(b, st, f1.start, Label::Epsilon);
    lemma_add_edge(c, f1.accept, acc, Label::Epsilon);
    let d = add_edge(c, f1.accept, acc, Label::Epsilon);
    lemma_add_edge(d, st, acc, Label::Epsilon);
    let e = add_edge(d, st, acc, Label::Epsilon);
    lemma_add_edge(e, f1.accept, f1.start, Label::Epsilon);
    let g = add_edge(e, f1.accept, f1.start, Label::Epsilon);
    assert(e[st as int].trans =~= seq![eps_to(f1.start), eps_to(acc)]);
    assert(g[f1.accept as int].trans =~= seq![eps_to(acc), eps_to(f1.start)]);
}

/// The shape of what Thompson's construction builds, for every tree whose
/// states fit into the arena.
pub proof fn lemma_shape(a: Seq<StateModel>, s: Spec)
    requires
        a.len() + states_of(s) <= usize::MAX,
    ensures
        fragment_ok(a, thompson(a, s)),
        thompson(a, s).states.len() == a.len() + states_of(s),
    decreases s,
{
    match s {
        Spec::Single(l) => {
            lemma_single_shape(a, l);
        },
        Spec::Union(x, y) => {
            lemma_shape(a, *x);
            let f1 = thompson(a, *x);
            lemma_shape(f1.states, *y);
            lemma_union_shape(a, f1, thompson(f1.states, *y));
        },
        Spec::Concat(x, y) => {
            lemma_shape(a, *x);
            let f1 = thompson(a, *x);
            lemma_shape(f1.states, *y);
            lemma_concat_shape(a, f1, thompson(f1.states, *y));
        },
        Spec::Star(x) => {
            lemma_shape(a, *x);
            lemma_star_shape(a, thompson(a, *x));
        },
    }
}

} // verus!
