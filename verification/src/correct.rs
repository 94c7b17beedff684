use vstd::prelude::*;
use crate::label::{Label, StateID};
use crate::model::StateModel;
use crate::rules::range_spec;
use crate::thompson::{
    Fragment, Spec, concat_fragment, single_fragment, star_fragment, thompson, thompson_nfa,
    union_fragment,
};
use crate::shape::{
    concat_shape, eps_to, fragment_ok, lemma_concat_shape, lemma_shape, lemma_single_shape,
    lemma_star_shape, lemma_union_shape, star_shape, states_of, union_shape,
};
use crate::walk::{
    lemma_reached_is_reachable, lemma_walk_char, lemma_walk_eps, lemma_walk_join, lemma_walk_last,
    walk,
};
use crate::language::{
    lemma_concat_splits, lemma_counted_repetition, lemma_star_append, lemma_star_splits, power,
};
use crate::gate::{
    confined, gated, lemma_no_return, lemma_stays, lemma_through_gate, no_way_back,
};

verus! {

/// The arena `b` holds the states of the sub-automaton `fs`, which starts at
/// `lo`, with the edges they have there, but for the state `acc`.
pub open spec fn agrees(b: Seq<StateModel>, fs: Seq<StateModel>, lo: nat, acc: StateID) -> bool {
    fs.len() <= b.len() && forall|i: int|
        lo <= i < fs.len() && i != acc ==> (#[trigger] b[i]).trans == fs[i].trans
}

/// The states of a sub-automaton are a confined region of every arena that
/// agrees with it.
pub proof fn lemma_agrees_confined(a: Seq<StateModel>, f: Fragment, b: Seq<StateModel>)
    requires
        fragment_ok(a, f),
        agrees(b, f.states, a.len(), f.accept),
    ensures
        confined(b, a.len(), f.states.len(), f.accept),
{
}

/// A walk through the sub-automaton of a single edge reads what the edge takes.
pub proof fn lemma_single_sound(
    a: Seq<StateModel>,
    l: Label,
    b: Seq<StateModel>,
    w: Seq<char>,
    n: nat,
)
    requires
        a.len() + 2 <= usize::MAX,
        agrees(b, single_fragment(a, l).states, a.len(), single_fragment(a, l).accept),
        walk(
            b,
            single_fragment(a, l).accept,
            single_fragment(a, l).start,
            w,
            single_fragment(a, l).accept,
            n,
        ),
    ensures
        Spec::Single(l).takes(w),
{
    let f = single_fragment(a, l);
    lemma_single_shape(a, l);
    lemma_agrees_confined(a, f, b);
    let lo = a.len();
    let hi = f.states.len();
    let st = f.start;
    let acc = f.accept;
    assert(no_way_back(b, lo, hi, acc, st));
    let (r, j) = lemma_walk_last(b, acc, st, w, acc, n);
    let m = (n - 1) as nat;
    if b[r as int].trans[j].label == Label::Epsilon && walk(b, acc, st, w, r, m) {
        lemma_stays(b, lo, hi, acc, st, w, r, m);
        lemma_no_return(b, lo, hi, acc, st, w, m);
    } else {
        lemma_stays(b, lo, hi, acc, st, w.drop_last(), r, m);
        lemma_no_return(b, lo, hi, acc, st, w.drop_last(), m);
        assert(w =~= seq![w.last()]);
    }
}

/// What holds in an arena that agrees with a choice between two
/// sub-automata: both are gated parts behind the new start, to which no edge
/// leads back, and only their ends have an edge to the new end.
pub proof fn lemma_union_gates(a: Seq<StateModel>, f1: Fragment, f2: Fragment, b: Seq<StateModel>)
    requires
        fragment_ok(a, f1),
        fragment_ok(f1.states, f2),
        f2.states.len() + 2 <= usize::MAX,
        agrees(
            b,
            union_fragment(f2.states, f1.start, f1.accept, f2.start, f2.accept).states,
            a.len(),
            (f2.states.len() + 1) as StateID,
        ),
    ensures
        ({
            let lo = a.len();
            let m1 = f1.states.len();
            let m2 = f2.states.len();
            let st = m2 as StateID;
            let acc = (m2 + 1) as StateID;
            let hi = m2 + 2;
            &&& union_shape(a, f1, f2)
            &&& confined(b, lo, hi, acc)
            &&& no_way_back(b, lo, hi, acc, st)
            &&& gated(b, lo, hi, acc, lo, m1, f1.start, f1.accept, st, st)
            &&& gated(b, lo, hi, acc, m1, m2, f2.start, f2.accept, st, st)
            &&& agrees(b, f1.states, lo, f1.accept)
            &&& agrees(b, f2.states, m1, f2.accept)
            &&& forall|r: int, j: int|
                lo <= r < hi && r != acc && 0 <= j < b[r].trans.len() && (
                #[trigger] b[r].trans[j]).target == acc ==> (r == f1.accept || r == f2.accept)
                    && b[r].trans[j].label == Label::Epsilon
        }),
{
    let lo = a.len();
    let m1 = f1.states.len();
    let m2 = f2.states.len();
    let st = m2 as StateID;
    let acc = (m2 + 1) as StateID;
    let hi = m2 + 2;
    let f = union_fragment(f2.states, f1.start, f1.accept, f2.start, f2.accept);
    lemma_union_shape(a, f1, f2);
    lemma_agrees_confined(a, f, b);
}

/// A walk through a choice between two sub-automata goes through one of them.
pub proof fn lemma_union_sound(
    a: Seq<StateModel>,
    x: Spec,
    y: Spec,
    b: Seq<StateModel>,
    w: Seq<char>,
    n: nat,
)
    requires
        a.len() + states_of(Spec::Union(Box::new(x), Box::new(y))) <= usize::MAX,
        agrees(
            b,
            thompson(a, Spec::Union(Box::new(x), Box::new(y))).states,
            a.len(),
            thompson(a, Spec::Union(Box::new(x), Box::new(y))).accept,
        ),
        walk(
            b,
            thompson(a, Spec::Union(Box::new(x), Box::new(y))).accept,
            thompson(a, Spec::Union(Box::new(x), Box::new(y))).start,
            w,
            thompson(a, Spec::Union(Box::new(x), Box::new(y))).accept,
            n,
        ),
    ensures
        Spec::Union(Box::new(x), Box::new(y)).takes(w),
    decreases Spec::Union(Box::new(x), Box::new(y)), 0nat, 0nat,
{
    let f1 = thompson(a, x);
    lemma_shape(a, x);
    let f2 = thompson(f1.states, y);
    lemma_shape(f1.states, y);
    lemma_union_gates(a, f1, f2, b);
    let lo = a.len();
    let m1 = f1.states.len();
    let m2 = f2.states.len();
    let st = m2 as StateID;
    let acc = (m2 + 1) as StateID;
    let hi = m2 + 2;
    let (r, j) = lemma_walk_last(b, acc, st, w, acc, n);
    let m = (n - 1) as nat;
    let eps = b[r as int].trans[j].label == Label::Epsilon && walk(b, acc, st, w, r, m);
    if !eps {
        lemma_stays(b, lo, hi, acc, st, w.drop_last(), r, m);
    } else {
        lemma_stays(b, lo, hi, acc, st, w, r, m);
    }
    if r == f1.accept {
        let g = lemma_through_gate(b, lo, hi, acc, lo, m1, f1.start, f1.accept, st, st, st, w, r, m);
        lemma_no_return(b, lo, hi, acc, st, w.take(g.1), (m - 1) as nat);
        assert(w.skip(g.1) =~= w);
        lemma_sound(a, x, b, w, (m - 1) as nat);
    } else {
        let g = lemma_through_gate(b, lo, hi, acc, m1, m2, f2.start, f2.accept, st, st, st, w, r, m);
        lemma_no_return(b, lo, hi, acc, st, w.take(g.1), (m - 1) as nat);
        assert(w.skip(g.1) =~= w);
        lemma_sound(f1.states, y, b, w, (m - 1) as nat);
    }
}

/// What holds in an arena that agrees with a sequence of two sub-automata:
/// the second is a gated part behind the end of the first, and no edge leads
/// into the first from elsewhere.
pub proof fn lemma_concat_gates(a: Seq<StateModel>, f1: Fragment, f2: Fragment, b: Seq<StateModel>)
    requires
        fragment_ok(a, f1),
        fragment_ok(f1.states, f2),
        agrees(
            b,
            concat_fragment(f2.states, f1.start, f1.accept, f2.start, f2.accept).states,
            a.len(),
            f2.accept,
        ),
    ensures
        ({
            let lo = a.len();
            let m1 = f1.states.len();
            let m2 = f2.states.len();
            &&& concat_shape(a, f1, f2)
            &&& confined(b, lo, m2, f2.accept)
            &&& gated(b, lo, m2, f2.accept, m1, m2, f2.start, f2.accept, f1.accept, f1.accept)
            &&& gated(
                b,
                lo,
                m2,
                f2.accept,
                lo,
                m1,
                f1.start,
                f1.accept,
                m2 as StateID,
                m2 as StateID,
            )
            &&& agrees(b, f1.states, lo, f1.accept)
            &&& agrees(b, f2.states, m1, f2.accept)
        }),
{
    let lo = a.len();
    let m1 = f1.states.len();
    let m2 = f2.states.len();
    let f = concat_fragment(f2.states, f1.start, f1.accept, f2.start, f2.accept);
    lemma_concat_shape(a, f1, f2);
    lemma_agrees_confined(a, f, b);
}

/// A walk through a sequence of two sub-automata goes through the first
/// and then through the second.
pub proof fn lemma_concat_sound(
    a: Seq<StateModel>,
    x: Spec,
    y: Spec,
    b: Seq<StateModel>,
    w: Seq<char>,
    n: nat,
)
    requires
        a.len() + states_of(Spec::Concat(Box::new(x), Box::new(y))) <= usize::MAX,
        agrees(
            b,
            thompson(a, Spec::Concat(Box::new(x), Box::new(y))).states,
            a.len(),
            thompson(a, Spec::Concat(Box::new(x), Box::new(y))).accept,
        ),
        walk(
            b,
            thompson(a, Spec::Concat(Box::new(x), Box::new(y))).accept,
            thompson(a, Spec::Concat(Box::new(x), Box::new(y))).start,
            w,
            thompson(a, Spec::Concat(Box::new(x), Box::new(y))).accept,
            n,
        ),
    ensures
        Spec::Concat(Box::new(x), Box::new(y)).takes(w),
    decreases Spec::Concat(Box::new(x), Box::new(y)), 0nat, 0nat,
{
    let f1 = thompson(a, x);
    lemma_shape(a, x);
    let f2 = thompson(f1.states, y);
    lemma_shape(f1.states, y);
    lemma_concat_gates(a, f1, f2, b);
    let lo = a.len();
    let m1 = f1.states.len();
    let m2 = f2.states.len();
    let g = lemma_through_gate(
        b,
        lo,
        m2,
        f2.accept,
        m1,
        m2,
        f2.start,
        f2.accept,
        f1.accept,
        f1.accept,
        f1.start,
        w,
        f2.accept,
        n,
    );
    let k = g.1;
    let m = (n - 1) as nat;
    lemma_sound(f1.states, y, b, w.skip(k), m);
    let h = lemma_through_gate(
        b,
        lo,
        m2,
        f2.accept,
        lo,
        m1,
        f1.start,
        f1.accept,
        m2 as StateID,
        m2 as StateID,
        f1.start,
        w.take(k),
        f1.accept,
        m,
    );
    if h.0 {
        lemma_stays(b, lo, m2, f2.accept, f1.start, w.take(k).take(h.1), h.2, (m - 1) as nat);
    }
    lemma_sound(a, x, b, w.take(k), m);
}

/// What holds in an arena that agrees with a repetition of a sub-automaton:
/// the sub-automaton is a gated part behind the new start and behind its own
/// end, no edge leads back to the new start, and only the new start and the
/// end of the part have an edge to the new end.
pub proof fn lemma_star_gates(a: Seq<StateModel>, f1: Fragment, b: Seq<StateModel>)
    requires
        fragment_ok(a, f1),
        f1.states.len() + 2 <= usize::MAX,
        agrees(
            b,
            star_fragment(f1.states, f1.start, f1.accept).states,
            a.len(),
            (f1.states.len() + 1) as StateID,
        ),
    ensures
        ({
            let lo = a.len();
            let m1 = f1.states.len();
            let st = m1 as StateID;
            let acc = (m1 + 1) as StateID;
            let hi = m1 + 2;
            &&& star_shape(a, f1)
            &&& confined(b, lo, hi, acc)
            &&& no_way_back(b, lo, hi, acc, st)
            &&& gated(b, lo, hi, acc, lo, m1, f1.start, f1.accept, st, f1.accept)
            &&& agrees(b, f1.states, lo, f1.accept)
            &&& forall|r: int, j: int|
                lo <= r < hi && r != acc && 0 <= j < b[r].trans.len() && (
                #[trigger] b[r].trans[j]).target == acc ==> (r == st || r == f1.accept)
                    && b[r].trans[j].label == Label::Epsilon
        }),
{
    let lo = a.len();
    let m1 = f1.states.len();
    let st = m1 as StateID;
    let acc = (m1 + 1) as StateID;
    let hi = m1 + 2;
    let f = star_fragment(f1.states, f1.start, f1.accept);
    lemma_star_shape(a, f1);
    lemma_agrees_confined(a, f, b);
}

/// A walk from the start of a repetition to the end of its inner
/// sub-automaton goes through the inner sub-automaton some number of times.
pub proof fn lemma_star_loops(a: Seq<StateModel>, x: Spec, b: Seq<StateModel>, w: Seq<char>, m: nat)
    requires
        a.len() + states_of(Spec::Star(Box::new(x))) <= usize::MAX,
        agrees(
            b,
            thompson(a, Spec::Star(Box::new(x))).states,
            a.len(),
            thompson(a, Spec::Star(Box::new(x))).accept,
        ),
        walk(
            b,
            thompson(a, Spec::Star(Box::new(x))).accept,
            thompson(a, Spec::Star(Box::new(x))).start,
            w,
            thompson(a, x).accept,
            m,
        ),
    ensures
        Spec::Star(Box::new(x)).takes(w),
    decreases Spec::Star(Box::new(x)), 0nat, m,
{
    let f1 = thompson(a, x);
    lemma_shape(a, x);
    lemma_star_gates(a, f1, b);
    let lo = a.len();
    let m1 = f1.states.len();
    let st = m1 as StateID;
    let acc = (m1 + 1) as StateID;
    let hi = m1 + 2;
    let g = lemma_through_gate(b, lo, hi, acc, lo, m1, f1.start, f1.accept, st, f1.accept, st, w, f1.accept, m);
    let k = g.1;
    let mm = (m - 1) as nat;
    lemma_sound(a, x, b, w.skip(k), mm);
    if g.2 == st {
        lemma_no_return(b, lo, hi, acc, st, w.take(k), mm);
    } else {
        lemma_star_loops(a, x, b, w.take(k), mm);
    }
    lemma_star_append(x, w.take(k), w.skip(k));
    assert(w.take(k) + w.skip(k) =~= w);
}

/// A walk through a repetition of a sub-automaton goes through the
/// sub-automaton some number of times.
pub proof fn lemma_star_sound(a: Seq<StateModel>, x: Spec, b: Seq<StateModel>, w: Seq<char>, n: nat)
    requires
        a.len() + states_of(Spec::Star(Box::new(x))) <= usize::MAX,
        agrees(
            b,
            thompson(a, Spec::Star(Box::new(x))).states,
            a.len(),
            thompson(a, Spec::Star(Box::new(x))).accept,
        ),
        walk(
            b,
            thompson(a, Spec::Star(Box::new(x))).accept,
            thompson(a, Spec::Star(Box::new(x))).start,
            w,
            thompson(a, Spec::Star(Box::new(x))).accept,
            n,
        ),
    ensures
        Spec::Star(Box::new(x)).takes(w),
    decreases Spec::Star(Box::new(x)), 1nat, 0nat,
{
    let f1 = thompson(a, x);
    lemma_shape(a, x);
    lemma_star_gates(a, f1, b);
    let lo = a.len();
    let m1 = f1.states.len();
    let st = m1 as StateID;
    let acc = (m1 + 1) as StateID;
    let hi = m1 + 2;
    let (r, j) = lemma_walk_last(b, acc, st, w, acc, n);
    let m = (n - 1) as nat;
    let eps = b[r as int].trans[j].label == Label::Epsilon && walk(b, acc, st, w, r, m);
    if !eps {
        lemma_stays(b, lo, hi, acc, st, w.drop_last(), r, m);
    } else {
        lemma_stays(b, lo, hi, acc, st, w, r, m);
    }
    if r == st {
        lemma_no_return(b, lo, hi, acc, st, w, m);
    } else {
        lemma_star_loops(a, x, b, w, m);
    }
}

/// Soundness of Thompson's construction: a walk from the start of the
/// sub-automaton of a tree to its end, which takes no edge out of the end,
/// reads a word of the language of the tree. This holds in every arena that
/// has the states of the sub-automaton with their edges, whatever edges the
/// end got later.
pub proof fn lemma_sound(a: Seq<StateModel>, s: Spec, b: Seq<StateModel>, w: Seq<char>, n: nat)
    requires
        a.len() + states_of(s) <= usize::MAX,
        agrees(b, thompson(a, s).states, a.len(), thompson(a, s).accept),
        walk(b, thompson(a, s).accept, thompson(a, s).start, w, thompson(a, s).accept, n),
    ensures
        s.takes(w),
    decreases s, 2nat, 0nat,
{
    match s {
        Spec::Single(l) => {
            lemma_single_sound(a, l, b, w, n);
        },
        Spec::Union(x, y) => {
            lemma_union_sound(a, *x, *y, b, w, n);
        },
        Spec::Concat(x, y) => {
            lemma_concat_sound(a, *x, *y, b, w, n);
        },
        Spec::Star(x) => {
            lemma_star_sound(a, *x, b, w, n);
        },
    }
}

/// The arena `b` has the states of the sub-automaton `fs`, which starts at
/// `lo`, and each of them has the edges it has there as its first edges.
pub open spec fn grows(fs: Seq<StateModel>, b: Seq<StateModel>, lo: nat) -> bool {
    &&& fs.len() <= b.len()
    &&& forall|i: int| lo <= i < fs.len() ==> (#[trigger] fs[i]).trans.is_prefix_of(b[i].trans)
}

/// An arena that has the edges of a sub-automaton has the edges of each part
/// of it whose states it holds unchanged, but for one state of the part
/// that had no edges.
pub proof fn lemma_grows_part(
    whole: Seq<StateModel>,
    part: Seq<StateModel>,
    b: Seq<StateModel>,
    lo: nat,
    from: nat,
    end: StateID,
)
    requires
        grows(whole, b, lo),
        lo <= from,
        part.len() <= whole.len(),
        from <= end < part.len(),
        part[end as int].trans.len() == 0,
        forall|i: int| from <= i < part.len() && i != end ==> #[trigger] whole[i] == part[i],
    ensures
        grows(part, b, from),
{
    assert forall|i: int| from <= i < part.len() implies (#[trigger] part[i]).trans.is_prefix_of(
        b[i].trans,
    ) by {
        if i != end {
            assert(whole[i] == part[i]);
        }
    }
}

/// `stop` is no state of the sub-automaton from `lo` up to `hi` but, at
/// most, its end.
pub open spec fn out_of_the_way(stop: StateID, lo: nat, hi: nat, acc: StateID) -> bool {
    !(lo <= stop < hi) || stop == acc
}

/// The sub-automaton of a single edge has a walk for every word that the
/// edge takes.
pub proof fn lemma_single_complete(
    a: Seq<StateModel>,
    l: Label,
    b: Seq<StateModel>,
    stop: StateID,
    w: Seq<char>,
) -> (n: nat)
    requires
        a.len() + 2 <= usize::MAX,
        grows(single_fragment(a, l).states, b, a.len()),
        out_of_the_way(stop, a.len(), a.len() + 2, single_fragment(a, l).accept),
        Spec::Single(l).takes(w),
    ensures
        walk(b, stop, single_fragment(a, l).start, w, single_fragment(a, l).accept, n),
{
    let f = single_fragment(a, l);
    lemma_single_shape(a, l);
    let st = f.start;
    assert(f.states[st as int].trans[0].label == l);
    let e = Seq::<char>::empty();
    if l == Label::Epsilon {
        lemma_walk_eps(b, stop, st, e, st, 0, 0);
        assert(w =~= e);
    } else {
        lemma_walk_char(b, stop, st, e, st, 0, w[0], 0);
        assert(e.push(w[0]) =~= w);
    }
    1
}

/// The sub-automaton of a choice has a walk for every word of either side.
pub proof fn lemma_union_complete(
    a: Seq<StateModel>,
    x: Spec,
    y: Spec,
    b: Seq<StateModel>,
    stop: StateID,
    w: Seq<char>,
) -> (n: nat)
    requires
        a.len() + states_of(Spec::Union(Box::new(x), Box::new(y))) <= usize::MAX,
        grows(thompson(a, Spec::Union(Box::new(x), Box::new(y))).states, b, a.len()),
        out_of_the_way(
            stop,
            a.len(),
            thompson(a, Spec::Union(Box::new(x), Box::new(y))).states.len(),
            thompson(a, Spec::Union(Box::new(x), Box::new(y))).accept,
        ),
        Spec::Union(Box::new(x), Box::new(y)).takes(w),
    ensures
        walk(
            b,
            stop,
            thompson(a, Spec::Union(Box::new(x), Box::new(y))).start,
            w,
            thompson(a, Spec::Union(Box::new(x), Box::new(y))).accept,
            n,
        ),
    decreases Spec::Union(Box::new(x), Box::new(y)), 0nat, 0nat,
{
    let f1 = thompson(a, x);
    lemma_shape(a, x);
    let f2 = thompson(f1.states, y);
    lemma_shape(f1.states, y);
    lemma_union_shape(a, f1, f2);
    let f = union_fragment(f2.states, f1.start, f1.accept, f2.start, f2.accept);
    let lo = a.len();
    let m1 = f1.states.len();
    let st = f.start;
    let acc = f.accept;
    let e = Seq::<char>::empty();
    assert(f.states[f1.accept as int].trans[0] == eps_to(acc));
    if x.takes(w) {
        lemma_grows_part(f.states, f1.states, b, lo, lo, f1.accept);
        let n1 = lemma_complete(a, x, b, stop, w);
        lemma_walk_eps(b, stop, st, e, st, 0, 0);
        lemma_walk_join(b, stop, st, e, f1.start, 1, w, f1.accept, n1);
        lemma_walk_eps(b, stop, st, w, f1.accept, 0, 1 + n1);
        n1 + 2
    } else {
        lemma_grows_part(f.states, f2.states, b, lo, m1, f2.accept);
        let n2 = lemma_complete(f1.states, y, b, stop, w);
        lemma_walk_eps(b, stop, st, e, st, 1, 0);
        lemma_walk_join(b, stop, st, e, f2.start, 1, w, f2.accept, n2);
        lemma_walk_eps(b, stop, st, w, f2.accept, 0, 1 + n2);
        n2 + 2
    }
}

/// The sub-automaton of a sequence has a walk for every word of the first
/// part followed by a word of the second.
pub proof fn lemma_concat_complete(
    a: Seq<StateModel>,
    x: Spec,
    y: Spec,
    b: Seq<StateModel>,
    stop: StateID,
    w: Seq<char>,
) -> (n: nat)
    requires
        a.len() + states_of(Spec::Concat(Box::new(x), Box::new(y))) <= usize::MAX,
        grows(thompson(a, Spec::Concat(Box::new(x), Box::new(y))).states, b, a.len()),
        out_of_the_way(
            stop,
            a.len(),
            thompson(a, Spec::Concat(Box::new(x), Box::new(y))).states.len(),
            thompson(a, Spec::Concat(Box::new(x), Box::new(y))).accept,
        ),
        Spec::Concat(Box::new(x), Box::new(y)).takes(w),
    ensures
        walk(
            b,
            stop,
            thompson(a, Spec::Concat(Box::new(x), Box::new(y))).start,
            w,
            thompson(a, Spec::Concat(Box::new(x), Box::new(y))).accept,
            n,
        ),
    decreases Spec::Concat(Box::new(x), Box::new(y)), 0nat, 0nat,
{
    let f1 = thompson(a, x);
    lemma_shape(a, x);
    let f2 = thompson(f1.states, y);
    lemma_shape(f1.states, y);
    lemma_concat_shape(a, f1, f2);
    let f = concat_fragment(f2.states, f1.start, f1.accept, f2.start, f2.accept);
    let lo = a.len();
    let m1 = f1.states.len();
    assert(f.states[f1.accept as int].trans[0] == eps_to(f2.start));
    lemma_grows_part(f.states, f1.states, b, lo, lo, f1.accept);
    lemma_grows_part(f.states, f2.states, b, lo, m1, f2.accept);
    let k = lemma_concat_splits(x, y, w);
    let n1 = lemma_complete(a, x, b, stop, w.take(k));
    let n2 = lemma_complete(f1.states, y, b, stop, w.skip(k));
    lemma_walk_eps(b, stop, f1.start, w.take(k), f1.accept, 0, n1);
    lemma_walk_join(b, stop, f1.start, w.take(k), f2.start, n1 + 1, w.skip(k), f2.accept, n2);
    assert(w.take(k) + w.skip(k) =~= w);
    n1 + 1 + n2
}

/// The inner sub-automaton of a repetition, with the edge from its end back
/// to its start, has a walk from its start to its end for every word of the
/// repetition that is not empty.
pub proof fn lemma_star_rounds(
    a: Seq<StateModel>,
    x: Spec,
    b: Seq<StateModel>,
    stop: StateID,
    w: Seq<char>,
) -> (n: nat)
    requires
        a.len() + states_of(Spec::Star(Box::new(x))) <= usize::MAX,
        grows(thompson(a, Spec::Star(Box::new(x))).states, b, a.len()),
        out_of_the_way(
            stop,
            a.len(),
            thompson(a, Spec::Star(Box::new(x))).states.len(),
            thompson(a, Spec::Star(Box::new(x))).accept,
        ),
        Spec::Star(Box::new(x)).takes(w),
        w.len() > 0,
    ensures
        walk(b, stop, thompson(a, x).start, w, thompson(a, x).accept, n),
    decreases Spec::Star(Box::new(x)), 0nat, w.len(),
{
    let f1 = thompson(a, x);
    lemma_shape(a, x);
    lemma_star_shape(a, f1);
    let f = star_fragment(f1.states, f1.start, f1.accept);
    let lo = a.len();
    lemma_grows_part(f.states, f1.states, b, lo, lo, f1.accept);
    let k = lemma_star_splits(x, w);
    let n1 = lemma_complete(a, x, b, stop, w.take(k));
    if k == w.len() {
        assert(w.take(k) =~= w);
        n1
    } else {
        let n2 = lemma_star_rounds(a, x, b, stop, w.skip(k));
        lemma_walk_eps(b, stop, f1.start, w.take(k), f1.accept, 1, n1);
        lemma_walk_join(b, stop, f1.start, w.take(k), f1.start, n1 + 1, w.skip(k), f1.accept, n2);
        assert(w.take(k) + w.skip(k) =~= w);
        n1 + 1 + n2
    }
}

/// The sub-automaton of a repetition has a walk for every word of the
/// repetition.
pub proof fn lemma_star_complete(
    a: Seq<StateModel>,
    x: Spec,
    b: Seq<StateModel>,
    stop: StateID,
    w: Seq<char>,
) -> (n: nat)
    requires
        a.len() + states_of(Spec::Star(Box::new(x))) <= usize::MAX,
        grows(thompson(a, Spec::Star(Box::new(x))).states, b, a.len()),
        out_of_the_way(
            stop,
            a.len(),
            thompson(a, Spec::Star(Box::new(x))).states.len(),
            thompson(a, Spec::Star(Box::new(x))).accept,
        ),
        Spec::Star(Box::new(x)).takes(w),
    ensures
        walk(
            b,
            stop,
            thompson(a, Spec::Star(Box::new(x))).start,
            w,
            thompson(a, Spec::Star(Box::new(x))).accept,
            n,
        ),
    decreases Spec::Star(Box::new(x)), 1nat, 0nat,
{
    let f1 = thompson(a, x);
    lemma_shape(a, x);
    lemma_star_shape(a, f1);
    let f = star_fragment(f1.states, f1.start, f1.accept);
    let st = f.start;
    let e = Seq::<char>::empty();
    if w.len() == 0 {
        lemma_walk_eps(b, stop, st, e, st, 1, 0);
        assert(w =~= e);
        1
    } else {
        let n1 = lemma_star_rounds(a, x, b, stop, w);
        lemma_walk_eps(b, stop, st, e, st, 0, 0);
        lemma_walk_join(b, stop, st, e, f1.start, 1, w, f1.accept, n1);
        lemma_walk_eps(b, stop, st, w, f1.accept, 0, 1 + n1);
        n1 + 2
    }
}

/// Completeness of Thompson's construction: for every word of the
/// language of a tree, the sub-automaton of the tree has a walk from its
/// start to its end that reads the word. This holds in every arena that has
/// the edges of the sub-automaton, for walks that take no edge out of a state
/// `stop` that is none of the states of the sub-automaton but, at most, its
/// end.
pub proof fn lemma_complete(
    a: Seq<StateModel>,
    s: Spec,
    b: Seq<StateModel>,
    stop: StateID,
    w: Seq<char>,
) -> (n: nat)
    requires
        a.len() + states_of(s) <= usize::MAX,
        grows(thompson(a, s).states, b, a.len()),
        out_of_the_way(stop, a.len(), thompson(a, s).states.len(), thompson(a, s).accept),
        s.takes(w),
    ensures
        walk(b, stop, thompson(a, s).start, w, thompson(a, s).accept, n),
    decreases s, 2nat, 0nat,
{
    match s {
        Spec::Single(l) => {
            lemma_single_shape(a, l);
            lemma_single_complete(a, l, b, stop, w)
        },
        Spec::Union(x, y) => lemma_union_complete(a, *x, *y, b, stop, w),
        Spec::Concat(x, y) => lemma_concat_complete(a, *x, *y, b, stop, w),
        Spec::Star(x) => lemma_star_complete(a, *x, b, stop, w),
    }
}

/// Thompson's construction is correct: the automaton that is built from a
/// tree accepts exactly the words of the language of the tree.
pub proof fn lemma_thompson_language(s: Spec, w: Seq<char>)
    requires
        states_of(s) <= usize::MAX,
    ensures
        thompson_nfa(s).accepts(w) <==> s.takes(w),
{
    let a = Seq::<StateModel>::empty();
    let f = thompson(a, s);
    lemma_shape(a, s);
    let nfa = thompson_nfa(s);
    let b = nfa.states;
    let stop = f.accept;
    lemma_reached_is_reachable(nfa, stop, w);
    if nfa.accepts(w) {
        let q = choose|q: StateID|
            nfa.reached(w).contains(q) && q < b.len() && (#[trigger] b[q as int]).accept;
        let n = choose|n: nat| walk(b, stop, nfa.start, w, q, n);
        lemma_sound(a, s, b, w, n);
    }
    if s.takes(w) {
        let n = lemma_complete(a, s, b, stop, w);
    }
}

/// Counted repetition: the automaton for `c{min,max}` with `min <= max`
/// accepts the word of `k` times `c` exactly when `min <= k <= max`.
pub proof fn lemma_counted_repetition_accepted(c: char, min: nat, max: nat, k: nat)
    requires
        min <= max,
        states_of(range_spec(Spec::Single(Label::Symbol(c)), min, Some(max))) <= usize::MAX,
    ensures
        thompson_nfa(range_spec(Spec::Single(Label::Symbol(c)), min, Some(max))).accepts(
            power(c, k),
        ) <==> min <= k <= max,
{
    lemma_thompson_language(range_spec(Spec::Single(Label::Symbol(c)), min, Some(max)), power(c, k));
    lemma_counted_repetition(c, min, max, k);
}

} // verus!
