use vstd::prelude::*;
use crate::label::{Label, StateID, Transition, label_matches};
use crate::model::{
    Automaton, StateModel, char_edge, eps_closed, eps_closure, eps_edge, has_edge,
    lemma_closure_closed, lemma_closure_least, step_set,
};

verus! {

/// There is a walk along at most `n` edges from `p` to `q` that reads `w`
/// and takes no edge out of `stop`.
pub open spec fn walk(
    b: Seq<StateModel>,
    stop: StateID,
    p: StateID,
    w: Seq<char>,
    q: StateID,
    n: nat,
) -> bool
    decreases n,
{
    (p == q && w.len() == 0) || (n > 0 && exists|r: StateID, j: int|
        r < b.len() && r != stop && 0 <= j < b[r as int].trans.len() && (
        #[trigger] b[r as int].trans[j]).target == q && ((b[r as int].trans[j].label
            == Label::Epsilon && walk(b, stop, p, w, r, (n - 1) as nat)) || (w.len() > 0
            && label_matches(b[r as int].trans[j].label, w.last()) && walk(
            b,
            stop,
            p,
            w.drop_last(),
            r,
            (n - 1) as nat,
        ))))
}

/// The last edge of a walk that is not the empty walk: its source and its
/// place among the edges of the source.
pub proof fn lemma_walk_last(
    b: Seq<StateModel>,
    stop: StateID,
    p: StateID,
    w: Seq<char>,
    q: StateID,
    n: nat,
) -> (e: (StateID, int))
    requires
        walk(b, stop, p, w, q, n),
        !(p == q && w.len() == 0),
    ensures
        n > 0,
        e.0 < b.len(),
        e.0 != stop,
        0 <= e.1 < b[e.0 as int].trans.len(),
        b[e.0 as int].trans[e.1].target == q,
        (b[e.0 as int].trans[e.1].label == Label::Epsilon && walk(
            b,
            stop,
            p,
            w,
            e.0,
            (n - 1) as nat,
        )) || (w.len() > 0 && label_matches(b[e.0 as int].trans[e.1].label, w.last()) && walk(
            b,
            stop,
            p,
            w.drop_last(),
            e.0,
            (n - 1) as nat,
        )),
{
    let (r, j) = choose|r: StateID, j: int|
        r < b.len() && r != stop && 0 <= j < b[r as int].trans.len() && (
        #[trigger] b[r as int].trans[j]).target == q && ((b[r as int].trans[j].label
            == Label::Epsilon && walk(b, stop, p, w, r, (n - 1) as nat)) || (w.len() > 0
            && label_matches(b[r as int].trans[j].label, w.last()) && walk(
            b,
            stop,
            p,
            w.drop_last(),
            r,
            (n - 1) as nat,
        )));
    (r, j)
}

/// A walk goes on along an epsilon edge without reading.
pub proof fn lemma_walk_eps(
    b: Seq<StateModel>,
    stop: StateID,
    p: StateID,
    w: Seq<char>,
    r: StateID,
    j: int,
    n: nat,
)
    requires
        walk(b, stop, p, w, r, n),
        r < b.len(),
        r != stop,
        0 <= j < b[r as int].trans.len(),
        b[r as int].trans[j].label == Label::Epsilon,
    ensures
        walk(b, stop, p, w, b[r as int].trans[j].target, n + 1),
{
}

/// A walk goes on along an edge that consumes `c` and reads `c`.
pub proof fn lemma_walk_char(
    b: Seq<StateModel>,
    stop: StateID,
    p: StateID,
    w: Seq<char>,
    r: StateID,
    j: int,
    c: char,
    n: nat,
)
    requires
        walk(b, stop, p, w, r, n),
        r < b.len(),
        r != stop,
        0 <= j < b[r as int].trans.len(),
        label_matches(b[r as int].trans[j].label, c),
    ensures
        walk(b, stop, p, w.push(c), b[r as int].trans[j].target, n + 1),
{
    let q = b[r as int].trans[j].target;
    let wc = w.push(c);
    assert(wc.drop_last() =~= w);
    assert(b[r as int].trans[j].target == q && walk(
        b,
        stop,
        p,
        wc.drop_last(),
        r,
        ((n + 1) - 1) as nat,
    ));
}

/// A walk along at most `n` edges is a walk along at most `m` edges for
/// every `m` from `n` on.
pub proof fn lemma_walk_more(
    b: Seq<StateModel>,
    stop: StateID,
    p: StateID,
    w: Seq<char>,
    q: StateID,
    n: nat,
    m: nat,
)
    requires
        walk(b, stop, p, w, q, n),
        n <= m,
    ensures
        walk(b, stop, p, w, q, m),
    decreases n,
{
    if !(p == q && w.len() == 0) {
        let (r, j) = lemma_walk_last(b, stop, p, w, q, n);
        if b[r as int].trans[j].label == Label::Epsilon && walk(b, stop, p, w, r, (n - 1) as nat) {
            lemma_walk_more(b, stop, p, w, r, (n - 1) as nat, (m - 1) as nat);
            lemma_walk_eps(b, stop, p, w, r, j, (m - 1) as nat);
        } else {
            lemma_walk_more(b, stop, p, w.drop_last(), r, (n - 1) as nat, (m - 1) as nat);
            lemma_walk_char(b, stop, p, w.drop_last(), r, j, w.last(), (m - 1) as nat);
        }
    }
}

/// Two walks, the second from where the first ends, make one walk that reads
/// the word of the first and then the word of the second.
pub proof fn lemma_walk_join(
    b: Seq<StateModel>,
    stop: StateID,
    p: StateID,
    u: Seq<char>,
    r: StateID,
    n1: nat,
    v: Seq<char>,
    q: StateID,
    n2: nat,
)
    requires
        walk(b, stop, p, u, r, n1),
        walk(b, stop, r, v, q, n2),
    ensures
        walk(b, stop, p, u + v, q, n1 + n2),
    decreases n2,
{
    if r == q && v.len() == 0 {
        lemma_walk_more(b, stop, p, u, r, n1, n1 + n2);
    } else {
        let (x, j) = lemma_walk_last(b, stop, r, v, q, n2);
        if b[x as int].trans[j].label == Label::Epsilon && walk(b, stop, r, v, x, (n2 - 1) as nat) {
            lemma_walk_join(b, stop, p, u, r, n1, v, x, (n2 - 1) as nat);
            lemma_walk_eps(b, stop, p, u + v, x, j, (n1 + n2 - 1) as nat);
        } else {
            lemma_walk_join(b, stop, p, u, r, n1, v.drop_last(), x, (n2 - 1) as nat);
            lemma_walk_char(b, stop, p, u + v.drop_last(), x, j, v.last(), (n1 + n2 - 1) as nat);
            assert((u + v.drop_last()).push(v.last()) =~= u + v);
        }
    }
}

/// The states that a walk from `p` reaches when it reads `w`.
pub open spec fn reachable(b: Seq<StateModel>, stop: StateID, p: StateID, w: Seq<char>) -> Set<
    StateID,
> {
    Set::new(|q: StateID| exists|n: nat| walk(b, stop, p, w, q, n))
}

/// An edge of the arena by its place: the edge that `has_edge` speaks of.
proof fn lemma_edge_index(b: Seq<StateModel>, p: StateID, l: Label, q: StateID) -> (j: int)
    requires
        has_edge(b, p, l, q),
    ensures
        0 <= j < b[p as int].trans.len(),
        b[p as int].trans[j] == (Transition { label: l, target: q }),
{
    let e = Transition { label: l, target: q };
    choose|j: int| 0 <= j < b[p as int].trans.len() && b[p as int].trans[j] == e
}

/// What walks reach is closed under epsilon edges, if `stop` has no edges.
proof fn lemma_reachable_closed(b: Seq<StateModel>, stop: StateID, p: StateID, w: Seq<char>)
    requires
        stop < b.len() ==> b[stop as int].trans.len() == 0,
    ensures
        eps_closed(b, reachable(b, stop, p, w)),
{
    let t = reachable(b, stop, p, w);
    assert forall|x: StateID, y: StateID| t.contains(x) && #[trigger] eps_edge(b, x, y) implies t.contains(
        y,
    ) by {
        let n = choose|n: nat| walk(b, stop, p, w, x, n);
        let j = lemma_edge_index(b, x, Label::Epsilon, y);
        lemma_walk_eps(b, stop, p, w, x, j, n);
    }
}

/// Every walk that reads `w` ends in a state of the set that the automaton
/// may be in after `w`.
proof fn lemma_walk_reached(a: Automaton, stop: StateID, w: Seq<char>, q: StateID, n: nat)
    requires
        walk(a.states, stop, a.start, w, q, n),
    ensures
        a.reached(w).contains(q),
    decreases w.len(), n,
{
    let b = a.states;
    if w.len() == 0 {
        let c = eps_closure(b, set![a.start]);
        if a.start != q {
            let (r, j) = lemma_walk_last(b, stop, a.start, w, q, n);
            lemma_walk_reached(a, stop, w, r, (n - 1) as nat);
            lemma_closure_closed(b, set![a.start]);
            assert(eps_edge(b, r, q));
        }
    } else {
        let before = a.reached(w.drop_last());
        let s = step_set(b, before, w.last());
        let c = eps_closure(b, s);
        let (r, j) = lemma_walk_last(b, stop, a.start, w, q, n);
        if b[r as int].trans[j].label == Label::Epsilon && walk(
            b,
            stop,
            a.start,
            w,
            r,
            (n - 1) as nat,
        ) {
            lemma_walk_reached(a, stop, w, r, (n - 1) as nat);
            lemma_closure_closed(b, s);
            assert(eps_edge(b, r, q));
        } else {
            lemma_walk_reached(a, stop, w.drop_last(), r, (n - 1) as nat);
            assert(char_edge(b, r, w.last(), q));
        }
    }
}

/// The set of states that an automaton may be in after `w` is the set of
/// states that a walk from the start reaches when it reads `w`. This holds
/// for walks that take no edge out of `stop`, if `stop` has no edges.
pub proof fn lemma_reached_is_reachable(a: Automaton, stop: StateID, w: Seq<char>)
    requires
        stop < a.states.len() ==> a.states[stop as int].trans.len() == 0,
    ensures
        a.reached(w) == reachable(a.states, stop, a.start, w),
    decreases w.len(),
{
    let b = a.states;
    let t = reachable(b, stop, a.start, w);
    lemma_reachable_closed(b, stop, a.start, w);
    assert forall|q: StateID| t.contains(q) implies a.reached(w).contains(q) by {
        let n = choose|n: nat| walk(b, stop, a.start, w, q, n);
        lemma_walk_reached(a, stop, w, q, n);
    }
    if w.len() == 0 {
        assert(walk(b, stop, a.start, w, a.start, 0));
        lemma_closure_least(b, set![a.start], t);
    } else {
        lemma_reached_is_reachable(a, stop, w.drop_last());
        let before = a.reached(w.drop_last());
        let s = step_set(b, before, w.last());
        assert forall|q: StateID| s.contains(q) implies t.contains(q) by {
            let r = choose|r: StateID| before.contains(r) && #[trigger] char_edge(b, r, w.last(), q);
            let n = choose|n: nat| walk(b, stop, a.start, w.drop_last(), r, n);
            let l = if has_edge(b, r, Label::Any, q) {
                Label::Any
            } else {
                Label::Symbol(w.last())
            };
            let j = lemma_edge_index(b, r, l, q);
            lemma_walk_char(b, stop, a.start, w.drop_last(), r, j, w.last(), n);
            assert(w.drop_last().push(w.last()) =~= w);
        }
        lemma_closure_least(b, s, t);
    }
}

} // verus!
