use vstd::prelude::*;
use crate::text::push_char;

verus! {

/// Index of a state inside the arena that issued it.
pub type StateID = usize;

/// The alphabet of transitions.
#[derive(PartialEq, Eq, Debug, Hash, PartialOrd, Ord, Clone, Copy, Structural)]
pub enum Label {
    /// Taken without consuming input.
    Epsilon,
    /// Consumes any single character.
    Any,
    /// Consumes exactly this character.
    Symbol(char),
}

/// A labelled edge to `target`; owned by its source state.
#[derive(PartialEq, Eq, Debug, Clone, Copy, Structural)]
pub struct Transition {
    pub label: Label,
    pub target: StateID,
}

/// Whether an edge with label `l` can be taken on input character `c`.
pub open spec fn label_matches(l: Label, c: char) -> bool {
    l == Label::Any || l == Label::Symbol(c)
}

/// The labels of `labels` stand in strictly increasing order.
pub open spec fn increasing(labels: Seq<Label>) -> bool {
    forall|i: int, j: int| 0 <= i < j < labels.len() ==> labels[i].rank() < labels[j].rank()
}

/// Puts `l` at its place into the ordered `labels`, unless it is there already.
pub fn insert_label(labels: &mut Vec<Label>, l: Label)
    requires
        increasing(old(labels)@),
    ensures
        increasing(final(labels)@),
        forall|x: Label| final(labels)@.contains(x) <==> (old(labels)@.contains(x) || x == l),
{
    let r = l.order();
    let mut i: usize = 0;
    while i < labels.len() && labels[i].order() < r
        invariant
            i <= labels.len(),
            *labels == *old(labels),
            forall|j: int| 0 <= j < i ==> labels@[j].rank() < r,
        decreases labels.len() - i,
    {
        i = i + 1;
    }
    if i < labels.len() && labels[i] == l {
        return ;
    }
    labels.insert(i, l);
    proof {
        let before = old(labels)@;
        let after = labels@;
        assert(after[i as int] == l);
        assert forall|x: Label| after.contains(x) <==> (before.contains(x) || x == l) by {
            if before.contains(x) {
                let j = choose|j: int| 0 <= j < before.len() && before[j] == x;
                if j < i {
                    assert(after[j] == x);
                } else {
                    assert(after[j + 1] == x);
                }
            }
            if after.contains(x) {
                let j = choose|j: int| 0 <= j < after.len() && after[j] == x;
            }
        }
    }
}

impl Label {
    /// The text shown for this label on an edge of a graph dump.
    pub open spec fn text(self) -> Seq<char> {
        match self {
            Label::Any => seq!['*'],
            Label::Epsilon => "&epsilon;"@,
            Label::Symbol(c) => seq![c],
        }
    }

    /// The text shown for this label on an edge of a graph dump: `*` for the
    /// wildcard, `&epsilon;` for epsilon, the character itself otherwise.
    pub fn to_string(&self) -> (res: String)
        ensures
            res@ == self.text(),
    {
        let mut res = String::new();
        match *self {
            Label::Any => push_char(&mut res, '*'),
            Label::Epsilon => res.append("&epsilon;"),
            Label::Symbol(c) => push_char(&mut res, c),
        }
        res
    }

    /// The place of this label in the order of labels: epsilon first, then the
    /// wildcard, then the characters by code point.
    pub open spec fn rank(self) -> int {
        match self {
            Label::Epsilon => 0,
            Label::Any => 1,
            Label::Symbol(c) => 2 + c as int,
        }
    }

    /// The place of this label in the order of labels.
    pub fn order(&self) -> (r: u32)
        ensures
            r == self.rank(),
    {
        match *self {
            Label::Epsilon => 0,
            Label::Any => 1,
            Label::Symbol(c) => 2 + (c as u32),
        }
    }

    /// Whether this label consumes `c`.
    pub fn matches(&self, c: char) -> (r: bool)
        ensures
            r == label_matches(*self, c),
    {
        match *self {
            Label::Any => true,
            Label::Symbol(s) => s == c,
            Label::Epsilon => false,
        }
    }
}

} // verus!
