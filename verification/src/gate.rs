use vstd::prelude::*;
use crate::label::{Label, StateID};
use crate::model::StateModel;
use crate::walk::{lemma_walk_char, lemma_walk_eps, lemma_walk_last, lemma_walk_more, walk};

verus! {

/// The edges that leave a state of the region from `lo` up to `hi`, other
/// than `stop`, lead to states of the region.
pub open spec fn confined(b: Seq<StateModel>, lo: nat, hi: nat, stop: StateID) -> bool {
    hi <= b.len() && forall|r: int, j: int|
        lo <= r < hi && r != stop && 0 <= j < b[r].trans.len() ==> lo <= (
        #[trigger] b[r].trans[j]).target < hi
}

/// No edge that leaves a state of the region, other than `stop`, leads to `p`.
pub open spec fn no_way_back(b: Seq<StateModel>, lo: nat, hi: nat, stop: StateID, p: StateID) -> bool {
    forall|r: int, j: int|
        lo <= r < hi && r != stop && 0 <= j < b[r].trans.len() ==> (#[trigger] b[r].trans[j]).target
            != p
}

/// The edges that lead from the region into its part from `l1` up to `h1`
/// leave a state of that part other than its end `a1`, or they are epsilon
/// edges from one of the gates `g1` and `g2` to the start `s1` of the part.
pub open spec fn gated(
    b: Seq<StateModel>,
    lo: nat,
    hi: nat,
    stop: StateID,
    l1: nat,
    h1: nat,
    s1: StateID,
    a1: StateID,
    g1: StateID,
    g2: StateID,
) -> bool {
    forall|r: int, j: int|
        lo <= r < hi && r != stop && 0 <= j < b[r].trans.len() && l1 <= (
        #[trigger] b[r].trans[j]).target < h1 ==> (l1 <= r < h1 && r != a1) || ((r == g1 || r
            == g2) && b[r].trans[j].target == s1 && b[r].trans[j].label == Label::Epsilon)
}

/// A walk that starts in a confined region ends in it.
pub proof fn lemma_stays(
    b: Seq<StateModel>,
    lo: nat,
    hi: nat,
    stop: StateID,
    p: StateID,
    w: Seq<char>,
    q: StateID,
    n: nat,
)
    requires
        confined(b, lo, hi, stop),
        lo <= p < hi,
        walk(b, stop, p, w, q, n),
    ensures
        lo <= q < hi,
    decreases n,
{
    if !(p == q && w.len() == 0) {
        let (r, j) = lemma_walk_last(b, stop, p, w, q, n);
        if b[r as int].trans[j].label == Label::Epsilon && walk(b, stop, p, w, r, (n - 1) as nat) {
            lemma_stays(b, lo, hi, stop, p, w, r, (n - 1) as nat);
        } else {
            lemma_stays(b, lo, hi, stop, p, w.drop_last(), r, (n - 1) as nat);
        }
    }
}

/// A walk from a state that no edge leads to, back to that state, reads nothing.
pub proof fn lemma_no_return(
    b: Seq<StateModel>,
    lo: nat,
    hi: nat,
    stop: StateID,
    p: StateID,
    w: Seq<char>,
    n: nat,
)
    requires
        confined(b, lo, hi, stop),
        no_way_back(b, lo, hi, stop, p),
        lo <= p < hi,
        walk(b, stop, p, w, p, n),
    ensures
        w.len() == 0,
{
    if w.len() != 0 {
        let (r, j) = lemma_walk_last(b, stop, p, w, p, n);
        if b[r as int].trans[j].label == Label::Epsilon && walk(b, stop, p, w, r, (n - 1) as nat) {
            lemma_stays(b, lo, hi, stop, p, w, r, (n - 1) as nat);
        } else {
            lemma_stays(b, lo, hi, stop, p, w.drop_last(), r, (n - 1) as nat);
        }
    }
}

/// How a walk in a region came to a state of a gated part: either it
/// started in the part and never took an edge out of the end of the part, or
/// it came to a gate, went through it to the start of the part, and from there
/// never took an edge out of the end of the part. The result tells which:
/// whether a gate was taken, and then how much of the word was read before the
/// gate, and which gate it was.
pub proof fn lemma_through_gate(
    b: Seq<StateModel>,
    lo: nat,
    hi: nat,
    stop: StateID,
    l1: nat,
    h1: nat,
    s1: StateID,
    a1: StateID,
    g1: StateID,
    g2: StateID,
    p: StateID,
    w: Seq<char>,
    q: StateID,
    n: nat,
) -> (res: (bool, int, StateID))
    requires
        confined(b, lo, hi, stop),
        gated(b, lo, hi, stop, l1, h1, s1, a1, g1, g2),
        lo <= p < hi,
        l1 <= s1 < h1,
        l1 <= q < h1,
        walk(b, stop, p, w, q, n),
    ensures
        !res.0 ==> l1 <= p < h1 && walk(b, a1, p, w, q, n),
        res.0 ==> n > 0 && 0 <= res.1 <= w.len() && (res.2 == g1 || res.2 == g2) && walk(
            b,
            stop,
            p,
            w.take(res.1),
            res.2,
            (n - 1) as nat,
        ) && walk(b, a1, s1, w.skip(res.1), q, (n - 1) as nat),
    decreases n,
{
    if p == q && w.len() == 0 {
        (false, 0, p)
    } else {
        let (r, j) = lemma_walk_last(b, stop, p, w, q, n);
        let m = (n - 1) as nat;
        let eps = b[r as int].trans[j].label == Label::Epsilon && walk(b, stop, p, w, r, m);
        let v = if eps {
            w
        } else {
            w.drop_last()
        };
        lemma_stays(b, lo, hi, stop, p, v, r, m);
        if l1 <= r < h1 && r != a1 {
            let inner = lemma_through_gate(b, lo, hi, stop, l1, h1, s1, a1, g1, g2, p, v, r, m);
            if !inner.0 {
                if eps {
                    lemma_walk_eps(b, a1, p, v, r, j, m);
                } else {
                    lemma_walk_char(b, a1, p, v, r, j, w.last(), m);
                }
                (false, 0, p)
            } else {
                let k = inner.1;
                let mm = (m - 1) as nat;
                if eps {
                    lemma_walk_eps(b, a1, s1, v.skip(k), r, j, mm);
                } else {
                    lemma_walk_char(b, a1, s1, v.skip(k), r, j, w.last(), mm);
                    assert(v.skip(k).push(w.last()) =~= w.skip(k));
                    assert(v.take(k) =~= w.take(k));
                }
                lemma_walk_more(b, stop, p, w.take(k), inner.2, mm, m);
                (true, k, inner.2)
            }
        } else {
            assert(w.take(w.len() as int) =~= w);
            (true, w.len() as int, r)
        }
    }
}

} // verus!
