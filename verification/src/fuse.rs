use vstd::prelude::*;
use crate::label::{Label, StateID};
use crate::model::{StateModel, fresh_state, is_least_tag, tag_in};
use crate::builder::{add_edge, mark_accepting};
use crate::thompson::{NFAid, Spec, fuse, thompson, thompson_all, thompson_fused};
use crate::shape::{eps_to, fragment_ok, lemma_shape, lemma_size, states_of};
use crate::walk::{lemma_reached_is_reachable, lemma_walk_eps, lemma_walk_join, walk};
use crate::gate::{lemma_no_return, lemma_through_gate};
use crate::correct::{grows, lemma_complete, lemma_sound};

verus! {

/// The arena that holds the sub-automata of the first `i` trees.
pub open spec fn arena_before(specs: Seq<Spec>, i: int) -> Seq<StateModel> {
    thompson_all(Seq::empty(), specs.take(i)).0
}

/// The sub-automaton of tree `i`, as it is built behind those of the trees
/// before it.
pub open spec fn part(specs: Seq<Spec>, i: int) -> crate::thompson::Fragment {
    thompson(arena_before(specs, i), specs[i])
}

/// Some rule with the tag `t` takes the word `w`.
pub open spec fn rule_takes(specs: Seq<Spec>, tags: Seq<usize>, w: Seq<char>, t: usize) -> bool {
    exists|j: int| 0 <= j < specs.len() && #[trigger] tags[j] == t && specs[j].takes(w)
}

/// `t` is the earliest of the rules that take `w`.
pub open spec fn is_earliest(specs: Seq<Spec>, tags: Seq<usize>, w: Seq<char>, t: usize) -> bool {
    rule_takes(specs, tags, w, t) && forall|u: usize|
        #[trigger] rule_takes(specs, tags, w, u) ==> t <= u
}

/// The earliest of the rules that take `w`, if one does.
pub open spec fn earliest(specs: Seq<Spec>, tags: Seq<usize>, w: Seq<char>) -> Option<usize> {
    if exists|t: usize| is_earliest(specs, tags, w, t) {
        Some(choose|t: usize| is_earliest(specs, tags, w, t))
    } else {
        None
    }
}

/// Building one more tree puts its sub-automaton behind the others.
pub proof fn lemma_arena_next(specs: Seq<Spec>, i: int)
    requires
        0 <= i < specs.len(),
    ensures
        arena_before(specs, i + 1) == part(specs, i).states,
        thompson_all(Seq::empty(), specs.take(i + 1)).1 == thompson_all(
            Seq::empty(),
            specs.take(i),
        ).1.push(NFAid { start: part(specs, i).start, accept: part(specs, i).accept }),
        arena_before(specs, i + 1).len() == arena_before(specs, i).len() + states_of(specs[i]),
{
    assert(specs.take(i + 1).drop_last() =~= specs.take(i));
    lemma_size(arena_before(specs, i), specs[i]);
}

/// The arena only grows while the trees are built.
pub proof fn lemma_arena_grows(specs: Seq<Spec>, i: int, m: int)
    requires
        0 <= i <= m <= specs.len(),
    ensures
        arena_before(specs, i).len() <= arena_before(specs, m).len(),
    decreases m - i,
{
    if i < m {
        lemma_arena_next(specs, m - 1);
        lemma_arena_grows(specs, i, m - 1);
    }
}

/// The ends that are kept for the first `m` trees are the ends of their
/// sub-automata.
pub proof fn lemma_ends(specs: Seq<Spec>, m: int)
    requires
        0 <= m <= specs.len(),
    ensures
        thompson_all(Seq::empty(), specs.take(m)).1.len() == m,
        forall|i: int|
            0 <= i < m ==> #[trigger] thompson_all(Seq::empty(), specs.take(m)).1[i] == (NFAid {
                start: part(specs, i).start,
                accept: part(specs, i).accept,
            }),
    decreases m,
{
    if m != 0 {
        lemma_ends(specs, m - 1);
        lemma_arena_next(specs, m - 1);
    }
}

/// The sub-automaton of tree `i` stays as it is while the trees behind it
/// are built, and it has the shape of a sub-automaton.
pub proof fn lemma_part_stays(specs: Seq<Spec>, i: int, m: int)
    requires
        0 <= i < m <= specs.len(),
        arena_before(specs, m).len() <= usize::MAX,
    ensures
        fragment_ok(arena_before(specs, i), part(specs, i)),
        part(specs, i).states.len() <= arena_before(specs, m).len(),
        forall|r: int|
            0 <= r < part(specs, i).states.len() ==> #[trigger] arena_before(specs, m)[r] == part(
                specs,
                i,
            ).states[r],
    decreases m - i,
{
    lemma_arena_next(specs, i);
    lemma_arena_grows(specs, i + 1, m);
    lemma_shape(arena_before(specs, i), specs[i]);
    if m > i + 1 {
        lemma_arena_grows(specs, m - 1, m);
        lemma_part_stays(specs, i, m - 1);
        lemma_arena_next(specs, m - 1);
        lemma_shape(arena_before(specs, m - 1), specs[m - 1]);
    }
}

/// Every state of the arena of the first `m` trees belongs to the
/// sub-automaton of one of them.
pub proof fn lemma_region(specs: Seq<Spec>, m: int, r: int) -> (i: int)
    requires
        0 <= m <= specs.len(),
        0 <= r < arena_before(specs, m).len(),
    ensures
        0 <= i < m,
        arena_before(specs, i).len() <= r < arena_before(specs, i + 1).len(),
    decreases m,
{
    if m == 0 {
        0
    } else if r >= arena_before(specs, m - 1).len() {
        m - 1
    } else {
        lemma_region(specs, m - 1, r)
    }
}

/// What the arena of a fused automaton holds after the first `k` rules were
/// tied to the shared start: the states of the sub-automata with their
/// edges; at the shared start one epsilon edge to the start of each of these
/// rules; and as accepting states the ends of these rules, each with the tag
/// of its rule.
pub open spec fn fused_ok(
    a: Seq<StateModel>,
    ends: Seq<NFAid>,
    tags: Seq<usize>,
    k: nat,
    b: Seq<StateModel>,
) -> bool {
    let st = a.len() as int;
    &&& b.len() == a.len() + 1
    &&& forall|r: int| 0 <= r < a.len() ==> (#[trigger] b[r]).trans == a[r].trans
    &&& b[st].trans.len() == k
    &&& forall|j: int| 0 <= j < k ==> #[trigger] b[st].trans[j] == eps_to(ends[j].start)
    &&& !b[st].accept
    &&& forall|r: int|
        0 <= r < a.len() ==> ((#[trigger] b[r]).accept <==> exists|j: int|
            0 <= j < k && (#[trigger] ends[j]).accept == r)
    &&& forall|j: int| 0 <= j < k ==> b[(#[trigger] ends[j]).accept as int].tag == Some(tags[j])
}

/// The shape of the arena of a fused automaton.
pub proof fn lemma_fuse_shape(a: Seq<StateModel>, ends: Seq<NFAid>, tags: Seq<usize>, k: nat)
    requires
        a.len() + 1 <= usize::MAX,
        k <= ends.len(),
        ends.len() == tags.len(),
        forall|j: int| 0 <= j < ends.len() ==> (#[trigger] ends[j]).start < a.len() && ends[j].accept < a.len(),
        forall|i: int, j: int|
            0 <= i < j < ends.len() ==> (#[trigger] ends[i]).accept != (#[trigger] ends[j]).accept,
        forall|r: int| 0 <= r < a.len() ==> !(#[trigger] a[r]).accept,
    ensures
        fused_ok(a, ends, tags, k, fuse(a.push(fresh_state()), a.len() as StateID, ends, tags, k)),
    decreases k,
{
    let st = a.len() as StateID;
    let b0 = a.push(fresh_state());
    if k != 0 {
        let km = (k - 1) as nat;
        lemma_fuse_shape(a, ends, tags, km);
        let before = fuse(b0, st, ends, tags, km);
        let e = ends[k - 1];
        let mid = add_edge(before, st, e.start, Label::Epsilon);
        let after = mark_accepting(mid, e.accept, Some(tags[k - 1]));
        assert forall|r: int| 0 <= r < a.len() implies ((#[trigger] after[r]).accept <==> exists|
            j: int,
        |
            0 <= j < k && (#[trigger] ends[j]).accept == r) by {
            if r != e.accept {
                if before[r].accept {
                    let j = choose|j: int| 0 <= j < km && (#[trigger] ends[j]).accept == r;
                }
                if exists|j: int| 0 <= j < k && (#[trigger] ends[j]).accept == r {
                    let j = choose|j: int| 0 <= j < k && (#[trigger] ends[j]).accept == r;
                }
            }
        }
    }
}

/// The sub-automata of two trees do not share a state.
pub proof fn lemma_regions_apart(specs: Seq<Spec>, i: int, j: int)
    requires
        0 <= i < j < specs.len(),
    ensures
        arena_before(specs, i + 1).len() <= arena_before(specs, j).len(),
{
    lemma_arena_grows(specs, i + 1, j);
}

/// The arena of a fused automaton has the shape that `fused_ok` describes,
/// with the ends of the sub-automata of its trees as the ends of its rules.
pub proof fn lemma_fused_setup(specs: Seq<Spec>, tags: Seq<usize>)
    requires
        specs.len() == tags.len(),
        arena_before(specs, specs.len() as int).len() + 1 <= usize::MAX,
    ensures
        thompson_fused(specs, tags).start == arena_before(specs, specs.len() as int).len(),
        thompson_all(Seq::empty(), specs).1.len() == specs.len(),
        forall|i: int|
            0 <= i < specs.len() ==> #[trigger] thompson_all(Seq::empty(), specs).1[i] == (NFAid {
                start: part(specs, i).start,
                accept: part(specs, i).accept,
            }),
        fused_ok(
            arena_before(specs, specs.len() as int),
            thompson_all(Seq::empty(), specs).1,
            tags,
            specs.len(),
            thompson_fused(specs, tags).states,
        ),
{
    let n = specs.len() as int;
    assert(specs.take(n) =~= specs);
    let a = arena_before(specs, n);
    let ends = thompson_all(Seq::empty(), specs).1;
    lemma_ends(specs, n);
    assert forall|j: int| 0 <= j < ends.len() implies (#[trigger] ends[j]).start < a.len()
        && ends[j].accept < a.len() by {
        lemma_part_stays(specs, j, n);
    }
    assert forall|i: int, j: int| 0 <= i < j < ends.len() implies (#[trigger] ends[i]).accept != (
    #[trigger] ends[j]).accept by {
        lemma_part_stays(specs, i, n);
        lemma_part_stays(specs, j, n);
        lemma_arena_next(specs, i);
        lemma_regions_apart(specs, i, j);
    }
    assert forall|r: int| 0 <= r < a.len() implies !(#[trigger] a[r]).accept by {
        let i = lemma_region(specs, n, r);
        lemma_part_stays(specs, i, n);
        lemma_arena_next(specs, i);
    }
    lemma_fuse_shape(a, ends, tags, n as nat);
}

/// In a fused automaton, the end of a rule is reached by reading a word
/// exactly when the tree of the rule takes the word.
pub proof fn lemma_fused_rule(specs: Seq<Spec>, tags: Seq<usize>, i: int, w: Seq<char>)
    requires
        specs.len() == tags.len(),
        arena_before(specs, specs.len() as int).len() + 1 <= usize::MAX,
        0 <= i < specs.len(),
    ensures
        thompson_fused(specs, tags).reached(w).contains(part(specs, i).accept) <==> specs[i].takes(
            w,
        ),
{
    let n = specs.len() as int;
    let a = arena_before(specs, n);
    let ends = thompson_all(Seq::empty(), specs).1;
    let nfa = thompson_fused(specs, tags);
    let b = nfa.states;
    let st = nfa.start;
    let hi = (a.len() + 1) as nat;
    let stop = (a.len() + 1) as StateID;
    lemma_fused_setup(specs, tags);
    lemma_part_stays(specs, i, n);
    lemma_arena_next(specs, i);
    let f = part(specs, i);
    let lo_i = arena_before(specs, i).len();
    let hi_i = f.states.len();
    lemma_reached_is_reachable(nfa, stop, w);
    if nfa.reached(w).contains(f.accept) {
        let m = choose|m: nat| walk(b, stop, st, w, f.accept, m);
        assert forall|r: int, j: int| 0 <= r < hi && r != stop && 0 <= j < b[r].trans.len() implies {
            let t = (#[trigger] b[r].trans[j]).target;
            &&& 0 <= t < hi
            &&& t != st
            &&& (lo_i <= t < hi_i ==> (lo_i <= r < hi_i && r != f.accept) || (r == st && t
                == f.start && b[r].trans[j].label == Label::Epsilon))
        } by {
            if r == st {
                lemma_part_stays(specs, j, n);
                lemma_arena_next(specs, j);
                if j < i {
                    lemma_regions_apart(specs, j, i);
                } else if i < j {
                    lemma_regions_apart(specs, i, j);
                }
            } else {
                let k = lemma_region(specs, n, r);
                lemma_part_stays(specs, k, n);
                lemma_arena_next(specs, k);
                assert(arena_before(specs, k).len() <= part(specs, k).states[r].trans[j].target
                    < part(specs, k).states.len());
                if k < i {
                    lemma_regions_apart(specs, k, i);
                } else if i < k {
                    lemma_regions_apart(specs, i, k);
                }
            }
        }
        let g = lemma_through_gate(b, 0, hi, stop, lo_i, hi_i, f.start, f.accept, st, st, st, w, f.accept, m);
        lemma_no_return(b, 0, hi, stop, st, w.take(g.1), (m - 1) as nat);
        assert(w.skip(g.1) =~= w);
        lemma_sound(arena_before(specs, i), specs[i], b, w, (m - 1) as nat);
    }
    if specs[i].takes(w) {
        let n1 = lemma_complete(arena_before(specs, i), specs[i], b, stop, w);
        let e = Seq::<char>::empty();
        lemma_walk_eps(b, stop, st, e, st, i, 0);
        lemma_walk_join(b, stop, st, e, f.start, 1, w, f.accept, n1);
    }
}

/// The accepting states of a fused automaton are the ends of its rules:
/// the end of rule `i` accepts with the tag of the rule.
pub proof fn lemma_fused_end(specs: Seq<Spec>, tags: Seq<usize>, i: int)
    requires
        specs.len() == tags.len(),
        arena_before(specs, specs.len() as int).len() + 1 <= usize::MAX,
        0 <= i < specs.len(),
    ensures
        part(specs, i).accept < thompson_fused(specs, tags).states.len(),
        thompson_fused(specs, tags).states[part(specs, i).accept as int].accept,
        thompson_fused(specs, tags).states[part(specs, i).accept as int].tag == Some(tags[i]),
{
    let n = specs.len() as int;
    let ends = thompson_all(Seq::empty(), specs).1;
    lemma_fused_setup(specs, tags);
    lemma_part_stays(specs, i, n);
    assert(ends[i].accept == part(specs, i).accept);
}

/// Every accepting state of a fused automaton is the end of one of its rules.
pub proof fn lemma_fused_accepting(specs: Seq<Spec>, tags: Seq<usize>, q: StateID) -> (i: int)
    requires
        specs.len() == tags.len(),
        arena_before(specs, specs.len() as int).len() + 1 <= usize::MAX,
        q < thompson_fused(specs, tags).states.len(),
        thompson_fused(specs, tags).states[q as int].accept,
    ensures
        0 <= i < specs.len(),
        part(specs, i).accept == q,
        thompson_fused(specs, tags).states[q as int].tag == Some(tags[i]),
{
    let n = specs.len() as int;
    let ends = thompson_all(Seq::empty(), specs).1;
    lemma_fused_setup(specs, tags);
    let j = choose|j: int| 0 <= j < n && (#[trigger] ends[j]).accept == q;
    lemma_fused_end(specs, tags, j);
    j
}

/// A fused automaton accepts the words that one of its trees takes.
pub proof fn lemma_fused_accepts(specs: Seq<Spec>, tags: Seq<usize>, w: Seq<char>)
    requires
        specs.len() == tags.len(),
        arena_before(specs, specs.len() as int).len() + 1 <= usize::MAX,
    ensures
        thompson_fused(specs, tags).accepts(w) <==> exists|i: int|
            0 <= i < specs.len() && (#[trigger] specs[i]).takes(w),
{
    let nfa = thompson_fused(specs, tags);
    let b = nfa.states;
    let set = nfa.reached(w);
    if nfa.accepts(w) {
        let q = choose|q: StateID| set.contains(q) && q < b.len() && (#[trigger] b[q as int]).accept;
        let i = lemma_fused_accepting(specs, tags, q);
        lemma_fused_rule(specs, tags, i, w);
    }
    if exists|i: int| 0 <= i < specs.len() && (#[trigger] specs[i]).takes(w) {
        let i = choose|i: int| 0 <= i < specs.len() && (#[trigger] specs[i]).takes(w);
        lemma_fused_rule(specs, tags, i, w);
        lemma_fused_end(specs, tags, i);
    }
}

/// The tags of the accepting states that a fused automaton reaches by
/// reading a word are the tags of the rules whose tree takes the word.
pub proof fn lemma_fused_tags(specs: Seq<Spec>, tags: Seq<usize>, w: Seq<char>, t: usize)
    requires
        specs.len() == tags.len(),
        arena_before(specs, specs.len() as int).len() + 1 <= usize::MAX,
    ensures
        tag_in(thompson_fused(specs, tags).states, thompson_fused(specs, tags).reached(w), t)
            <==> rule_takes(specs, tags, w, t),
{
    let nfa = thompson_fused(specs, tags);
    let b = nfa.states;
    let set = nfa.reached(w);
    if tag_in(b, set, t) {
        let q = choose|q: StateID|
            set.contains(q) && q < b.len() && (#[trigger] b[q as int]).accept && b[q as int].tag
                == Some(t);
        let i = lemma_fused_accepting(specs, tags, q);
        lemma_fused_rule(specs, tags, i, w);
    }
    if rule_takes(specs, tags, w, t) {
        let j = choose|j: int| 0 <= j < specs.len() && #[trigger] tags[j] == t && specs[j].takes(w);
        lemma_fused_rule(specs, tags, j, w);
        lemma_fused_end(specs, tags, j);
        let q = part(specs, j).accept;
    }
}

/// The rule that a fused automaton gives for a word is the earliest of the
/// rules whose tree takes the word.
pub proof fn lemma_fused_earliest(specs: Seq<Spec>, tags: Seq<usize>, w: Seq<char>)
    requires
        specs.len() == tags.len(),
        arena_before(specs, specs.len() as int).len() + 1 <= usize::MAX,
    ensures
        thompson_fused(specs, tags).rule(w) == earliest(specs, tags, w),
{
    let nfa = thompson_fused(specs, tags);
    let b = nfa.states;
    let set = nfa.reached(w);
    assert forall|t: usize| is_least_tag(b, set, t) <==> is_earliest(specs, tags, w, t) by {
        lemma_fused_tags(specs, tags, w, t);
        if is_least_tag(b, set, t) {
            assert forall|u: usize| #[trigger] rule_takes(specs, tags, w, u) implies t <= u by {
                lemma_fused_tags(specs, tags, w, u);
            }
        }
        if is_earliest(specs, tags, w, t) {
            assert forall|u: usize| #[trigger] tag_in(b, set, u) implies t <= u by {
                lemma_fused_tags(specs, tags, w, u);
            }
        }
    }
    if !(exists|t: usize| is_least_tag(b, set, t)) {
        assert forall|t: usize| !is_earliest(specs, tags, w, t) by {
            assert(!is_least_tag(b, set, t));
        }
    }
}

} // verus!
