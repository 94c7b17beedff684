use vstd::prelude::*;
use std::collections::BTreeSet;
use crate::label::StateID;
use crate::text::{decimal, lemma_decimal, lemma_decimal_injective, push_char, push_decimal};

verus! {

/// The identifiers of `ids` stand in strictly increasing order.
pub open spec fn ascending(ids: Seq<StateID>) -> bool {
    forall|i: int, j: int| 0 <= i < j < ids.len() ==> ids[i] < ids[j]
}

/// `ids` lists the members of `set`, each once, smallest first.
pub open spec fn lists(ids: Seq<StateID>, set: Set<StateID>) -> bool {
    ascending(ids) && forall|x: StateID| ids.contains(x) <==> set.contains(x)
}

/// The members of a finite set, each once, smallest first.
pub open spec fn members(set: Set<StateID>) -> Seq<StateID> {
    choose|ids: Seq<StateID>| lists(ids, set)
}

/// The identifiers of `ids`, each in decimal digits with a space after it.
pub open spec fn key_text(ids: Seq<StateID>) -> Seq<char>
    decreases ids.len(),
{
    if ids.len() == 0 {
        Seq::empty()
    } else {
        key_text(ids.drop_last()) + decimal(ids.last() as nat) + seq![' ']
    }
}

/// A set has only one list of its members in increasing order.
pub proof fn lemma_lists_unique(a: Seq<StateID>, b: Seq<StateID>, set: Set<StateID>)
    requires
        lists(a, set),
        lists(b, set),
    ensures
        a == b,
    decreases a.len(),
{
    if a.len() == 0 {
        if b.len() > 0 {
            assert(b.contains(b[0]));
        }
    } else {
        let x = a.last();
        assert(a.contains(x));
        let y = b.last();
        assert(b.contains(y));
        let rest = set.remove(x);
        assert forall|v: StateID| a.drop_last().contains(v) <==> rest.contains(v) by {
            if a.drop_last().contains(v) {
                let i = choose|i: int| 0 <= i < a.drop_last().len() && a.drop_last()[i] == v;
            }
            if rest.contains(v) {
                let i = choose|i: int| 0 <= i < a.len() && a[i] == v;
                assert(a.drop_last()[i] == v);
            }
        }
        assert forall|v: StateID| b.drop_last().contains(v) <==> rest.contains(v) by {
            if b.drop_last().contains(v) {
                let i = choose|i: int| 0 <= i < b.drop_last().len() && b.drop_last()[i] == v;
            }
            if rest.contains(v) {
                let i = choose|i: int| 0 <= i < b.len() && b[i] == v;
                assert(b.drop_last()[i] == v);
            }
        }
        lemma_lists_unique(a.drop_last(), b.drop_last(), rest);
        assert(a =~= a.drop_last().push(x));
    }
}

/// The key of a list that is not empty ends with a space, and it is longer
/// than the digits of the last identifier.
pub proof fn lemma_key_end(ids: Seq<StateID>)
    requires
        ids.len() > 0,
    ensures
        key_text(ids) == key_text(ids.drop_last()) + decimal(ids.last() as nat) + seq![' '],
        key_text(ids).len() == key_text(ids.drop_last()).len() + decimal(ids.last() as nat).len() + 1,
        key_text(ids).last() == ' ',
        decimal(ids.last() as nat).len() >= 1,
{
    lemma_decimal(ids.last() as nat);
}

/// The key tells the list: two lists of identifiers with the same key are
/// the same list.
pub proof fn lemma_key_unique(a: Seq<StateID>, b: Seq<StateID>)
    requires
        key_text(a) == key_text(b),
    ensures
        a == b,
    decreases a.len(),
{
    if a.len() == 0 {
        if b.len() > 0 {
            lemma_key_end(b);
        }
    } else if b.len() == 0 {
        lemma_key_end(a);
    } else {
        lemma_key_end(a);
        lemma_key_end(b);
        let t = key_text(a);
        let pa = key_text(a.drop_last());
        let pb = key_text(b.drop_last());
        let da = decimal(a.last() as nat);
        let db = decimal(b.last() as nat);
        lemma_decimal(a.last() as nat);
        lemma_decimal(b.last() as nat);
        lemma_digits_cover(a, b);
        lemma_digits_cover(b, a);
        assert(pa =~= t.subrange(0, pa.len() as int));
        assert(pb =~= t.subrange(0, pb.len() as int));
        assert(da =~= t.subrange(pa.len() as int, (pa.len() + da.len()) as int));
        assert(db =~= t.subrange(pb.len() as int, (pb.len() + db.len()) as int));
        lemma_decimal_injective(a.last() as nat, b.last() as nat);
        lemma_key_unique(a.drop_last(), b.drop_last());
        assert(a =~= a.drop_last().push(a.last()));
    }
}

/// Of two lists with the same key, the last identifier of the one has no
/// fewer digits than that of the other: else, where the digits of the one
/// start, its key would have a space or its start, and the other key a digit.
proof fn lemma_digits_cover(a: Seq<StateID>, b: Seq<StateID>)
    requires
        a.len() > 0,
        b.len() > 0,
        key_text(a) == key_text(b),
    ensures
        decimal(a.last() as nat).len() >= decimal(b.last() as nat).len(),
{
    lemma_key_end(a);
    lemma_key_end(b);
    let t = key_text(a);
    let pa = key_text(a.drop_last());
    let da = decimal(a.last() as nat);
    let db = decimal(b.last() as nat);
    lemma_decimal(b.last() as nat);
    if da.len() < db.len() {
        if a.len() != 1 {
            lemma_key_end(a.drop_last());
            let at = pa.len() - 1;
            assert(t[at] == pa[at]);
        }
    }
}

/// Two sets whose members have the same key are the same set.
pub proof fn lemma_key_identity(a: Seq<StateID>, s: Set<StateID>, b: Seq<StateID>, t: Set<StateID>)
    requires
        lists(a, s),
        lists(b, t),
        key_text(a) == key_text(b),
    ensures
        s == t,
{
    lemma_key_unique(a, b);
}

/// Puts `x` at its place into the ordered `ids`, unless it is there already.
pub fn insert_id(ids: &mut Vec<StateID>, x: StateID)
    requires
        ascending(old(ids)@),
    ensures
        ascending(final(ids)@),
        forall|y: StateID| final(ids)@.contains(y) <==> (old(ids)@.contains(y) || y == x),
{
    let mut i: usize = 0;
    while i < ids.len() && ids[i] < x
        invariant
            i <= ids.len(),
            *ids == *old(ids),
            forall|j: int| 0 <= j < i ==> ids@[j] < x,
        decreases ids.len() - i,
    {
        i = i + 1;
    }
    if i < ids.len() && ids[i] == x {
        return ;
    }
    ids.insert(i, x);
    proof {
        let before = old(ids)@;
        let after = ids@;
        assert(after[i as int] == x);
        assert forall|y: StateID| after.contains(y) <==> (before.contains(y) || y == x) by {
            if before.contains(y) {
                let j = choose|j: int| 0 <= j < before.len() && before[j] == y;
                if j < i {
                    assert(after[j] == y);
                } else {
                    assert(after[j + 1] == y);
                }
            }
            if after.contains(y) {
                let j = choose|j: int| 0 <= j < after.len() && after[j] == y;
            }
        }
    }
}

/// The members of `set`, each once, smallest first.
pub fn sorted_members(set: &BTreeSet<StateID>) -> (ids: Vec<StateID>)
    ensures
        ids@ == members(set@),
        lists(ids@, set@),
{
    let mut ids: Vec<StateID> = Vec::new();
    for x in it: set.iter()
        invariant
            ascending(ids@),
            forall|k: int| 0 <= k < it.index() ==> ids@.contains(*#[trigger] it.seq()[k]),
            forall|y: StateID| ids@.contains(y) ==> set@.contains(y),
    {
        insert_id(&mut ids, *x);
    }
    proof {
        lemma_lists_unique(ids@, members(set@), set@);
    }
    ids
}

/// The canonical key of a set of states: its members in increasing order, each
/// in decimal digits with a space after it.
pub fn canonical_set_string(bset: &BTreeSet<StateID>) -> (res: String)
    ensures
        res@ == key_text(members(bset@)),
        lists(members(bset@), bset@),
{
    let ids = sorted_members(bset);
    let mut res = String::new();
    let mut i: usize = 0;
    while i < ids.len()
        invariant
            i <= ids.len(),
            res@ == key_text(ids@.take(i as int)),
        decreases ids.len() - i,
    {
        proof {
            assert(ids@.take(i + 1).drop_last() == ids@.take(i as int));
        }
        push_decimal(&mut res, ids[i]);
        push_char(&mut res, ' ');
        i = i + 1;
    }
    assert(ids@.take(i as int) == ids@);
    res
}

} // verus!
