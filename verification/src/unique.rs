use vstd::prelude::*;
use crate::label::{Label, StateID, Transition, increasing};
use crate::model::{Automaton, StateModel, deterministic};
use crate::subset::{
    before, built_from, complete, edge_faithful, faithful, finds, found_first, found_from_before,
    label_out, numbered_as_found, ordered_edges, successor,
};

verus! {

/// The labels of a list of edges, in the order of the edges.
pub open spec fn labels_of(trans: Seq<Transition>) -> Seq<Label> {
    Seq::new(trans.len(), |a: int| trans[a].label)
}

/// Two lists of labels in strictly increasing order that hold the same
/// labels are the same list.
pub proof fn lemma_increasing_unique(x: Seq<Label>, y: Seq<Label>)
    requires
        increasing(x),
        increasing(y),
        forall|l: Label| x.contains(l) <==> y.contains(l),
    ensures
        x == y,
    decreases x.len(),
{
    if x.len() == 0 {
        if y.len() > 0 {
            assert(y.contains(y[0]));
        }
        assert(x =~= y);
    } else if y.len() == 0 {
        assert(x.contains(x[0]));
    } else {
        let lx = x.last();
        let ly = y.last();
        assert(x.contains(lx));
        assert(y.contains(ly));
        let ix = choose|i: int| 0 <= i < x.len() && x[i] == ly;
        let iy = choose|i: int| 0 <= i < y.len() && y[i] == lx;
        assert(lx.rank() == ly.rank());
        assert(lx == ly);
        assert forall|l: Label| x.drop_last().contains(l) <==> y.drop_last().contains(l) by {
            if x.drop_last().contains(l) {
                let i = choose|i: int| 0 <= i < x.drop_last().len() && x.drop_last()[i] == l;
                assert(x[i] == l);
                assert(x.contains(l));
                let j = choose|j: int| 0 <= j < y.len() && y[j] == l;
                assert(x[i].rank() < lx.rank());
                assert(y.drop_last()[j] == l);
            }
            if y.drop_last().contains(l) {
                let i = choose|i: int| 0 <= i < y.drop_last().len() && y.drop_last()[i] == l;
                assert(y[i] == l);
                assert(y.contains(l));
                let j = choose|j: int| 0 <= j < x.len() && x[j] == l;
                assert(y[i].rank() < ly.rank());
                assert(x.drop_last()[j] == l);
            }
        }
        lemma_increasing_unique(x.drop_last(), y.drop_last());
        assert(x =~= x.drop_last().push(lx));
        assert(y =~= y.drop_last().push(ly));
    }
}

/// Two states of two subset constructions of one automaton that stand for
/// the same subset have edges with the same labels, in the same order.
pub proof fn lemma_same_labels(
    n: Automaton,
    d1: Automaton,
    s1: Seq<Set<StateID>>,
    i1: int,
    d2: Automaton,
    s2: Seq<Set<StateID>>,
    i2: int,
)
    requires
        built_from(n, d1, s1),
        built_from(n, d2, s2),
        0 <= i1 < d1.states.len(),
        0 <= i2 < d2.states.len(),
        s1[i1] == s2[i2],
    ensures
        d1.states[i1].trans.len() == d2.states[i2].trans.len(),
        forall|a: int|
            0 <= a < d1.states[i1].trans.len() ==> (#[trigger] d1.states[i1].trans[a]).label
                == d2.states[i2].trans[a].label,
{
    let ta = d1.states[i1].trans;
    let tb = d2.states[i2].trans;
    let x = labels_of(ta);
    let y = labels_of(tb);
    assert(increasing(x)) by {
        assert forall|a: int, b: int| 0 <= a < b < x.len() implies x[a].rank() < x[b].rank() by {
            assert(d1.states[i1].trans[a].label.rank() < d1.states[i1].trans[b].label.rank());
        }
    }
    assert(increasing(y)) by {
        assert forall|a: int, b: int| 0 <= a < b < y.len() implies y[a].rank() < y[b].rank() by {
            assert(d2.states[i2].trans[a].label.rank() < d2.states[i2].trans[b].label.rank());
        }
    }
    assert forall|l: Label| x.contains(l) <==> y.contains(l) by {
        if x.contains(l) {
            let a = choose|a: int| 0 <= a < x.len() && x[a] == l;
            assert(edge_faithful(n.states, s1, i1, d1.states[i1].trans[a]));
            assert(d1.states[i1].trans[a].label != Label::Epsilon);
            assert(complete(n.states, d2.states, s2, i2));
            assert(label_out(n.states, s2[i2], l));
            let b = choose|b: int| 0 <= b < tb.len() && (#[trigger] d2.states[i2].trans[b]).label == l;
            assert(y[b] == l);
        }
        if y.contains(l) {
            let b = choose|b: int| 0 <= b < y.len() && y[b] == l;
            assert(edge_faithful(n.states, s2, i2, d2.states[i2].trans[b]));
            assert(d2.states[i2].trans[b].label != Label::Epsilon);
            assert(complete(n.states, d1.states, s1, i1));
            assert(label_out(n.states, s1[i1], l));
            let a = choose|a: int| 0 <= a < ta.len() && (#[trigger] d1.states[i1].trans[a]).label == l;
            assert(x[a] == l);
        }
    }
    lemma_increasing_unique(x, y);
    assert forall|a: int| 0 <= a < ta.len() implies (#[trigger] d1.states[i1].trans[a]).label
        == d2.states[i2].trans[a].label by {
        assert(x[a] == y[a]);
    }
}

/// The first edge that leads to a state is the only first one.
pub proof fn lemma_first_unique(dfa: Seq<StateModel>, e: (int, int), o: (int, int), j: int)
    requires
        found_first(dfa, e, j),
        found_first(dfa, o, j),
    ensures
        e == o,
{
    assert(finds(dfa, e, j));
    assert(finds(dfa, o, j));
}

/// The first edge that leads to a state other than the start.
pub proof fn lemma_first_finder(dfa: Seq<StateModel>, j: int) -> (e: (int, int))
    requires
        numbered_as_found(dfa),
        1 <= j < dfa.len(),
    ensures
        found_first(dfa, e, j),
        0 <= e.0 < j,
{
    assert(found_from_before(dfa, j));
    let e = choose|e: (int, int)| #[trigger] found_first(dfa, e, j) && e.0 < j;
    e
}

/// Two subset constructions of one automaton give the same subsets the
/// same numbers: every state of the one is a state of the other, and both
/// stand for the same subset.
pub proof fn lemma_same_numbers(
    n: Automaton,
    d1: Automaton,
    s1: Seq<Set<StateID>>,
    d2: Automaton,
    s2: Seq<Set<StateID>>,
    j: int,
)
    requires
        built_from(n, d1, s1),
        built_from(n, d2, s2),
        0 <= j < d1.states.len(),
    ensures
        j < d2.states.len(),
        s1[j] == s2[j],
    decreases j,
{
    if j > 0 {
        let e = lemma_first_finder(d1.states, j);
        let i = e.0;
        let a = e.1;
        assert(finds(d1.states, e, j));
        lemma_same_numbers(n, d1, s1, d2, s2, i);
        lemma_same_labels(n, d1, s1, i, d2, s2, i);
        let t2 = d2.states[i].trans[a].target as int;
        assert(edge_faithful(n.states, s1, i, d1.states[i].trans[a]));
        assert(edge_faithful(n.states, s2, i, d2.states[i].trans[a]));
        assert(s2[t2] == s1[j]);
        if t2 < j {
            lemma_same_numbers(n, d1, s1, d2, s2, t2);
            assert(s1[t2] != s1[j]);
        } else if t2 > j {
            let e2 = lemma_first_finder(d2.states, j);
            let f2 = lemma_first_finder(d2.states, t2);
            assert(finds(d2.states, e, t2));
            assert(f2 == e || before(f2, e));
            assert(before(e2, f2));
            let i2 = e2.0;
            let a2 = e2.1;
            assert(finds(d2.states, e2, j));
            lemma_same_numbers(n, d1, s1, d2, s2, i2);
            lemma_same_labels(n, d1, s1, i2, d2, s2, i2);
            let t1 = d1.states[i2].trans[a2].target as int;
            assert(edge_faithful(n.states, s1, i2, d1.states[i2].trans[a2]));
            assert(edge_faithful(n.states, s2, i2, d2.states[i2].trans[a2]));
            assert(s1[t1] == s2[j]);
            assert(finds(d1.states, e2, t1));
            if t1 < j {
                lemma_same_numbers(n, d1, s1, d2, s2, t1);
                if t1 < t2 {
                    assert(s2[t1] != s2[j]);
                }
            } else if t1 > j {
                let f1 = lemma_first_finder(d1.states, t1);
                assert(f1 == e2 || before(f1, e2));
                assert(before(e, f1));
            } else {
                assert(e == e2 || before(e, e2));
            }
        }
    }
}

/// The subset construction is a function of the automaton alone: two
/// deterministic automata that are built from one automaton have the same
/// states with the same edges, and their states stand for the same subsets.
pub proof fn lemma_subset_construction_unique(
    n: Automaton,
    d1: Automaton,
    s1: Seq<Set<StateID>>,
    d2: Automaton,
    s2: Seq<Set<StateID>>,
)
    requires
        built_from(n, d1, s1),
        built_from(n, d2, s2),
    ensures
        d1 == d2,
        s1 == s2,
{
    if d1.states.len() > 0 {
        lemma_same_numbers(n, d1, s1, d2, s2, d1.states.len() - 1);
    }
    if d2.states.len() > 0 {
        lemma_same_numbers(n, d2, s2, d1, s1, d2.states.len() - 1);
    }
    assert(d1.states.len() == d2.states.len());
    assert forall|j: int| 0 <= j < s1.len() implies s1[j] == s2[j] by {
        lemma_same_numbers(n, d1, s1, d2, s2, j);
    }
    assert(s1 =~= s2);
    assert forall|j: int| 0 <= j < d1.states.len() implies d1.states[j] == d2.states[j] by {
        lemma_same_numbers(n, d1, s1, d2, s2, j);
        lemma_same_labels(n, d1, s1, j, d2, s2, j);
        assert forall|a: int| 0 <= a < d1.states[j].trans.len() implies d1.states[j].trans[a]
            == d2.states[j].trans[a] by {
            let t1 = d1.states[j].trans[a].target as int;
            let t2 = d2.states[j].trans[a].target as int;
            assert(edge_faithful(n.states, s1, j, d1.states[j].trans[a]));
            assert(edge_faithful(n.states, s2, j, d2.states[j].trans[a]));
            assert(s1[t1] == s1[t2]);
            if t1 < t2 {
                assert(s1[t1] != s1[t2]);
            } else if t2 < t1 {
                assert(s1[t2] != s1[t1]);
            }
        }
        assert(d1.states[j].trans =~= d2.states[j].trans);
    }
    assert(d1.states =~= d2.states);
}

} // verus!
