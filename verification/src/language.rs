use vstd::prelude::*;
use crate::label::Label;
use crate::thompson::Spec;
use crate::rules::{at_least, copies, exactly, range_spec, up_to};

verus! {

impl Spec {
    /// Whether the word `w` belongs to the language of this tree: a leaf takes
    /// the empty word, any one character or its own character; a choice takes
    /// what either side takes; a sequence takes a word of the first followed by
    /// a word of the second; a repetition takes the empty word, and every word
    /// of its inner tree that is not empty, followed by a word of the
    /// repetition.
    pub open spec fn takes(self, w: Seq<char>) -> bool
        decreases self, w.len(),
    {
        match self {
            Spec::Single(l) => match l {
                Label::Epsilon => w.len() == 0,
                Label::Any => w.len() == 1,
                Label::Symbol(c) => w == seq![c],
            },
            Spec::Union(a, b) => a.takes(w) || b.takes(w),
            Spec::Concat(a, b) => exists|k: int|
                0 <= k <= w.len() && a.takes(#[trigger] w.take(k)) && b.takes(w.skip(k)),
            Spec::Star(a) => w.len() == 0 || exists|k: int|
                0 < k <= w.len() && a.takes(#[trigger] w.take(k)) && self.takes(w.skip(k)),
        }
    }
}

/// The word made of `k` times the character `c`.
pub open spec fn power(c: char, k: nat) -> Seq<char> {
    Seq::new(k, |i: int| c)
}

/// A sequence takes a word exactly when the word splits into a word of the
/// first part and a word of the second.
pub proof fn lemma_concat_matches(a: Spec, b: Spec, u: Seq<char>, v: Seq<char>)
    requires
        a.takes(u),
        b.takes(v),
    ensures
        Spec::Concat(Box::new(a), Box::new(b)).takes(u + v),
{
    let w = u + v;
    let k = u.len() as int;
    assert(w.take(k) =~= u);
    assert(w.skip(k) =~= v);
}

/// A word of a sequence splits into a word of the first part and a word of
/// the second.
pub proof fn lemma_concat_splits(a: Spec, b: Spec, w: Seq<char>) -> (k: int)
    requires
        Spec::Concat(Box::new(a), Box::new(b)).takes(w),
    ensures
        0 <= k <= w.len(),
        a.takes(w.take(k)),
        b.takes(w.skip(k)),
{
    choose|k: int| 0 <= k <= w.len() && a.takes(#[trigger] w.take(k)) && b.takes(w.skip(k))
}

/// A word of a repetition that is not empty splits into a word of the
/// inner tree that is not empty and a word of the repetition.
pub proof fn lemma_star_splits(a: Spec, w: Seq<char>) -> (k: int)
    requires
        Spec::Star(Box::new(a)).takes(w),
        w.len() > 0,
    ensures
        0 < k <= w.len(),
        a.takes(w.take(k)),
        Spec::Star(Box::new(a)).takes(w.skip(k)),
{
    let star = Spec::Star(Box::new(a));
    choose|k: int| 0 < k <= w.len() && a.takes(#[trigger] w.take(k)) && star.takes(w.skip(k))
}

/// A word of the inner tree before a word of a repetition makes a word of
/// the repetition.
pub proof fn lemma_star_first(a: Spec, u: Seq<char>, v: Seq<char>)
    requires
        a.takes(u),
        Spec::Star(Box::new(a)).takes(v),
    ensures
        Spec::Star(Box::new(a)).takes(u + v),
{
    let w = u + v;
    let k = u.len() as int;
    if k != 0 {
        assert(w.take(k) =~= u);
        assert(w.skip(k) =~= v);
    }
}

/// A word of a repetition before a word of the inner tree makes a word of
/// the repetition.
pub proof fn lemma_star_append(a: Spec, u: Seq<char>, v: Seq<char>)
    requires
        Spec::Star(Box::new(a)).takes(u),
        a.takes(v),
    ensures
        Spec::Star(Box::new(a)).takes(u + v),
    decreases u.len(),
{
    if u.len() == 0 {
        lemma_star_first(a, v, Seq::<char>::empty());
    } else {
        let k = lemma_star_splits(a, u);
        lemma_star_append(a, u.skip(k), v);
        lemma_star_first(a, u.take(k), u.skip(k) + v);
        assert(u.take(k) + (u.skip(k) + v) =~= u + v);
    }
}

/// A tree that takes only the word of `j` times `c`, followed by a leaf for
/// `c`, takes only the word of `j + 1` times `c`.
proof fn lemma_one_more(x: Spec, c: char, j: nat, w: Seq<char>)
    requires
        forall|v: Seq<char>| #[trigger] x.takes(v) <==> v == power(c, j),
    ensures
        Spec::Concat(Box::new(x), Box::new(Spec::Single(Label::Symbol(c)))).takes(w) <==> w
            == power(c, j + 1),
{
    let a = Spec::Single(Label::Symbol(c));
    let whole = Spec::Concat(Box::new(x), Box::new(a));
    if whole.takes(w) {
        let k = lemma_concat_splits(x, a, w);
        assert(w =~= w.take(k) + w.skip(k));
        assert(w =~= power(c, j + 1));
    }
    if w == power(c, j + 1) {
        assert(power(c, j + 1) =~= power(c, j) + seq![c]);
        lemma_concat_matches(x, a, power(c, j), seq![c]);
    }
}

/// `n` copies of a leaf for `c`, for `n` from one on, take only the word of
/// `n` times `c`.
pub proof fn lemma_copies_language(c: char, n: nat, w: Seq<char>)
    requires
        n >= 1,
    ensures
        copies(Spec::Single(Label::Symbol(c)), n).takes(w) <==> w == power(c, n),
    decreases n,
{
    let a = Spec::Single(Label::Symbol(c));
    if n == 1 {
        assert(power(c, 1) =~= seq![c]);
    } else {
        assert forall|v: Seq<char>| #[trigger] copies(a, (n - 1) as nat).takes(v) <==> v == power(
            c,
            (n - 1) as nat,
        ) by {
            lemma_copies_language(c, (n - 1) as nat, v);
        }
        lemma_one_more(copies(a, (n - 1) as nat), c, (n - 1) as nat, w);
    }
}

/// The prefix for `min` occurrences of `c` takes only the word of `min` times `c`.
pub proof fn lemma_at_least_language(c: char, min: nat, w: Seq<char>)
    ensures
        at_least(Spec::Single(Label::Symbol(c)), min).takes(w) <==> w == power(c, min),
{
    if min == 0 {
        assert(w.len() == 0 <==> w =~= power(c, 0));
    } else {
        lemma_copies_language(c, min, w);
    }
}

/// What stands for exactly `k` occurrences of `c`, counted from `min`, takes
/// only the word of `k` times `c`.
pub proof fn lemma_exactly_language(c: char, min: nat, k: nat, w: Seq<char>)
    requires
        min <= k,
    ensures
        exactly(Spec::Single(Label::Symbol(c)), min, k).takes(w) <==> w == power(c, k),
    decreases k,
{
    let a = Spec::Single(Label::Symbol(c));
    if k <= min {
        lemma_at_least_language(c, min, w);
    } else {
        assert forall|v: Seq<char>| #[trigger] exactly(a, min, (k - 1) as nat).takes(v) <==> v
            == power(c, (k - 1) as nat) by {
            lemma_exactly_language(c, min, (k - 1) as nat, v);
        }
        lemma_one_more(exactly(a, min, (k - 1) as nat), c, (k - 1) as nat, w);
    }
}

/// What stands for `min` up to `n` occurrences of `c` takes the word of `k`
/// times `c` exactly when `k` lies between `min` and `n`.
pub proof fn lemma_up_to_language(c: char, min: nat, n: nat, k: nat)
    requires
        min <= n,
    ensures
        up_to(Spec::Single(Label::Symbol(c)), min, n).takes(power(c, k)) <==> min <= k <= n,
    decreases n,
{
    if n <= min {
        lemma_at_least_language(c, min, power(c, k));
        lemma_power_injective(c, k, min);
    } else {
        lemma_up_to_language(c, min, (n - 1) as nat, k);
        lemma_exactly_language(c, min, n, power(c, k));
        lemma_power_injective(c, k, n);
    }
}

/// Words of one character repeated are equal only if they are equally long.
pub proof fn lemma_power_injective(c: char, j: nat, k: nat)
    ensures
        power(c, j) == power(c, k) <==> j == k,
{
    if power(c, j) == power(c, k) {
        assert(power(c, j).len() == j);
    }
}

/// Counted repetition: the tree for `c{min,max}` with `min <= max` takes the
/// word of `k` times `c` exactly when `min <= k <= max`.
pub proof fn lemma_counted_repetition(c: char, min: nat, max: nat, k: nat)
    requires
        min <= max,
    ensures
        range_spec(Spec::Single(Label::Symbol(c)), min, Some(max)).takes(power(c, k)) <==> min
            <= k <= max,
{
    lemma_up_to_language(c, min, max, k);
}

} // verus!
