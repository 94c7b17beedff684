use vstd::prelude::*;
use crate::label::Label;
use crate::thompson::Spec;

verus! {

/// How often a repeated expression may occur.
#[derive(Clone, Copy, Debug, PartialEq, Eq, Structural)]
pub enum Repeater {
    /// `?`
    ZeroOrOne,
    /// `*`
    ZeroOrMore,
    /// `+`
    OneOrMore,
    /// `{min,max}`, or `{min,}` where `max` is absent.
    Range { min: u32, max: Option<u32> },
}

/// A parsed regular expression, as far as the translation reads it. Every
/// construct that the translation does not take has a variant without content.
#[derive(Debug, PartialEq, Eq)]
pub enum Expr {
    Empty,
    Literal { chars: Vec<char>, casei: bool },
    LiteralBytes,
    AnyChar,
    AnyCharNoNL,
    AnyByte,
    AnyByteNoNL,
    Class,
    ClassBytes,
    StartLine,
    EndLine,
    StartText,
    EndText,
    WordBoundary,
    NotWordBoundary,
    WordBoundaryAscii,
    NotWordBoundaryAscii,
    Group { e: Box<Expr> },
    Repeat { e: Box<Expr>, r: Repeater, greedy: bool },
    Concat(Vec<Expr>),
    Alternate(Vec<Expr>),
}

/// A rule of a lexer: a regular expression and the action for what it
/// matches.
pub struct Rule {
    pub regex: Expr,
    pub action: String,
}

/// Why an expression has no translation.
#[derive(Clone, Copy, Debug, PartialEq, Eq, Structural)]
pub enum TranslateError {
    /// The expression holds a construct outside the supported core, or a
    /// concatenation or alternation of nothing.
    UnsupportedConstruct,
    /// The expression holds a literal of zero characters.
    EmptyLiteral,
}

/// One edge per character, joined from the left. Meant for at least one character.
pub open spec fn literal_spec(chars: Seq<char>) -> Spec
    decreases chars.len(),
{
    if chars.len() <= 1 {
        Spec::Single(Label::Symbol(chars[0]))
    } else {
        Spec::Concat(
            Box::new(literal_spec(chars.drop_last())),
            Box::new(Spec::Single(Label::Symbol(chars.last()))),
        )
    }
}

/// `n` copies of `e` joined from the left; `e` itself for `n` below two.
pub open spec fn copies(e: Spec, n: nat) -> Spec
    decreases n,
{
    if n <= 1 {
        e
    } else {
        Spec::Concat(Box::new(copies(e, (n - 1) as nat)), Box::new(e))
    }
}

/// What stands for `min` occurrences of `e`: the empty word for none, else
/// `min` copies.
pub open spec fn at_least(e: Spec, min: nat) -> Spec {
    if min == 0 {
        Spec::Single(Label::Epsilon)
    } else {
        copies(e, min)
    }
}

/// What stands for exactly `k` occurrences of `e`, for `k` from `min` on:
/// the prefix for `min` occurrences with one more copy joined on for each
/// occurrence above `min`.
pub open spec fn exactly(e: Spec, min: nat, k: nat) -> Spec
    decreases k,
{
    if k <= min {
        at_least(e, min)
    } else {
        Spec::Concat(Box::new(exactly(e, min, (k - 1) as nat)), Box::new(e))
    }
}

/// What stands for `min` up to `k` occurrences of `e`: the choice between
/// every count, smallest first.
pub open spec fn up_to(e: Spec, min: nat, k: nat) -> Spec
    decreases k,
{
    if k <= min {
        at_least(e, min)
    } else {
        Spec::Union(Box::new(up_to(e, min, (k - 1) as nat)), Box::new(exactly(e, min, k)))
    }
}

/// The translation of `e{min,max}`, and of `e{min,}` where `max` is absent.
pub open spec fn range_spec(e: Spec, min: nat, max: Option<nat>) -> Spec {
    match max {
        None => Spec::Concat(Box::new(at_least(e, min)), Box::new(Spec::Star(Box::new(e)))),
        Some(n) => up_to(e, min, n),
    }
}

/// The translation of `e` repeated as `r` says.
pub open spec fn repeat_spec(e: Spec, r: Repeater) -> Spec {
    match r {
        Repeater::ZeroOrOne => Spec::Union(Box::new(Spec::Single(Label::Epsilon)), Box::new(e)),
        Repeater::ZeroOrMore => Spec::Star(Box::new(e)),
        Repeater::OneOrMore => Spec::Concat(Box::new(e), Box::new(Spec::Star(Box::new(e)))),
        Repeater::Range { min, max } => range_spec(
            e,
            min as nat,
            match max {
                Some(n) => Some(n as nat),
                None => None,
            },
        ),
    }
}

/// Joins `acc` and `next` as a choice if `alt`, else as a sequence.
pub open spec fn join(alt: bool, acc: Spec, next: Spec) -> Spec {
    if alt {
        Spec::Union(Box::new(acc), Box::new(next))
    } else {
        Spec::Concat(Box::new(acc), Box::new(next))
    }
}

/// The translation of an expression: the tree it lowers to, or the first
/// reason, going from left to right, why there is none.
pub open spec fn translate(e: Expr) -> Result<Spec, TranslateError>
    decreases e, 0nat,
{
    match e {
        Expr::AnyChar => Ok(Spec::Single(Label::Any)),
        Expr::AnyCharNoNL => Ok(Spec::Single(Label::Any)),
        Expr::Literal { chars, casei } => if chars@.len() == 0 {
            Err(TranslateError::EmptyLiteral)
        } else {
            Ok(literal_spec(chars@))
        },
        Expr::Repeat { e: inner, r, greedy } => match translate(*inner) {
            Ok(s) => Ok(repeat_spec(s, r)),
            Err(err) => Err(err),
        },
        Expr::Concat(exprs) => if exprs@.len() == 0 {
            Err(TranslateError::UnsupportedConstruct)
        } else {
            translate_first(exprs, exprs@.len(), false)
        },
        Expr::Alternate(exprs) => if exprs@.len() == 0 {
            Err(TranslateError::UnsupportedConstruct)
        } else {
            translate_first(exprs, exprs@.len(), true)
        },
        _ => Err(TranslateError::UnsupportedConstruct),
    }
}

/// The translations of the first `n` of `exprs`, joined from the left.
pub open spec fn translate_first(exprs: Vec<Expr>, n: nat, alt: bool) -> Result<
    Spec,
    TranslateError,
>
    decreases exprs, n,
{
    if n == 0 || n > exprs@.len() {
        Err(TranslateError::UnsupportedConstruct)
    } else if n == 1 {
        translate(exprs@[0])
    } else {
        match translate_first(exprs, (n - 1) as nat, alt) {
            Ok(acc) => match translate(exprs@[n - 1]) {
                Ok(next) => Ok(join(alt, acc, next)),
                Err(err) => Err(err),
            },
            Err(err) => Err(err),
        }
    }
}

/// The upper bound of a counted repetition as a number without a limit.
pub open spec fn bound(max: Option<u32>) -> Option<nat> {
    match max {
        Some(n) => Some(n as nat),
        None => None,
    }
}

/// Whether an expression is built from the supported core alone: the two
/// wildcards, literals of at least one character, repetitions, and
/// concatenations and alternations of at least one supported expression.
pub open spec fn supported(e: Expr) -> bool
    decreases e,
{
    match e {
        Expr::AnyChar => true,
        Expr::AnyCharNoNL => true,
        Expr::Literal { chars, casei } => chars@.len() > 0,
        Expr::Repeat { e: inner, r, greedy } => supported(*inner),
        Expr::Concat(exprs) => exprs@.len() > 0 && forall|i: int|
            0 <= i < exprs@.len() ==> supported(#[trigger] exprs@[i]),
        Expr::Alternate(exprs) => exprs@.len() > 0 && forall|i: int|
            0 <= i < exprs@.len() ==> supported(#[trigger] exprs@[i]),
        _ => false,
    }
}

/// Every expression of the supported core has a translation.
pub proof fn lemma_translate_total(e: Expr)
    requires
        supported(e),
    ensures
        translate(e) is Ok,
    decreases e, 0nat,
{
    match e {
        Expr::Repeat { e: inner, r, greedy } => {
            lemma_translate_total(*inner);
        },
        Expr::Concat(exprs) => {
            lemma_translate_first_total(exprs, exprs@.len(), false);
        },
        Expr::Alternate(exprs) => {
            lemma_translate_first_total(exprs, exprs@.len(), true);
        },
        _ => {},
    }
}

/// The first `n` of a list of supported expressions have a joint translation.
pub proof fn lemma_translate_first_total(exprs: Vec<Expr>, n: nat, alt: bool)
    requires
        1 <= n <= exprs@.len(),
        forall|i: int| 0 <= i < exprs@.len() ==> supported(#[trigger] exprs@[i]),
    ensures
        translate_first(exprs, n, alt) is Ok,
    decreases exprs, n,
{
    if n == 1 {
        lemma_translate_total(exprs@[0]);
    } else {
        lemma_translate_first_total(exprs, (n - 1) as nat, alt);
        lemma_translate_total(exprs@[n - 1]);
    }
}

/// One edge per character of `chars`, joined from the left.
pub fn literal_to_spec(chars: &Vec<char>) -> (res: Spec)
    requires
        chars.len() > 0,
    ensures
        res == literal_spec(chars@),
{
    let mut tmp: Box<Spec> = Spec::single(Label::Symbol(chars[0]));
    let mut i: usize = 1;
    while i < chars.len()
        invariant
            1 <= i <= chars.len(),
            *tmp == literal_spec(chars@.take(i as int)),
        decreases chars.len() - i,
    {
        proof {
            assert(chars@.take(i + 1).drop_last() == chars@.take(i as int));
        }
        let aux = Spec::single(Label::Symbol(chars[i]));
        tmp = Spec::concat(tmp, aux);
        i = i + 1;
    }
    assert(chars@.take(i as int) == chars@);
    *tmp
}

/// The translation of `s1{min,max}`, and of `s1{min,}` where `max` is absent.
pub fn repeater_range(s1: Box<Spec>, min: u32, max: Option<u32>) -> (res: Spec)
    ensures
        res == range_spec(*s1, min as nat, bound(max)),
{
    let mut begin: u32 = 0;
    let mut aux: Box<Spec>;
    if min == 0 {
        aux = Spec::single(Label::Epsilon);
    } else {
        aux = Box::new(s1.duplicate());
        begin = 1;
    }
    let mut i: u32 = begin;
    while i < min
        invariant
            begin <= i <= min,
            min > 0 ==> begin == 1 && *aux == copies(*s1, i as nat),
            min == 0 ==> *aux == Spec::Single(Label::Epsilon),
        decreases min - i,
    {
        aux = Spec::concat(aux, Box::new(s1.duplicate()));
        i = i + 1;
    }
    match max {
        None => {
            *Spec::concat(aux, Spec::star(s1))
        },
        Some(n) => {
            let mut spec: Box<Spec> = Box::new(aux.duplicate());
            let mut k: u32 = min;
            while k < n
                invariant
                    min <= k,
                    k <= n || k == min,
                    *aux == exactly(*s1, min as nat, k as nat),
                    *spec == up_to(*s1, min as nat, k as nat),
                decreases n - k,
            {
                aux = Spec::concat(aux, Box::new(s1.duplicate()));
                spec = Spec::union(spec, Box::new(aux.duplicate()));
                k = k + 1;
            }
            *spec
        },
    }
}

/// The translation of `re` repeated as `r` says.
pub fn repeater_to_spec(re: &Expr, r: &Repeater) -> (res: Result<Spec, TranslateError>)
    ensures
        res == match translate(*re) {
            Ok(s) => Ok(repeat_spec(s, *r)),
            Err(err) => Err(err),
        },
    decreases *re, 2nat,
{
    let s1 = match regex_to_nfa_spec(re) {
        Ok(s) => Box::new(s),
        Err(err) => {
            return Err(err);
        },
    };
    match *r {
        Repeater::ZeroOrOne => Ok(Spec::Union(Spec::single(Label::Epsilon), s1)),
        Repeater::ZeroOrMore => Ok(Spec::Star(s1)),
        Repeater::OneOrMore => Ok(Spec::Concat(Box::new(s1.duplicate()), Spec::star(s1))),
        Repeater::Range { min, max } => Ok(repeater_range(s1, min, max)),
    }
}

/// The translations of `exprs`, joined from the left as a choice if `alt`,
/// else as a sequence.
fn join_all(exprs: &Vec<Expr>, alt: bool) -> (res: Result<Spec, TranslateError>)
    ensures
        res == translate_first(*exprs, exprs@.len(), alt),
    decreases *exprs, 0nat,
{
    if exprs.len() == 0 {
        return Err(TranslateError::UnsupportedConstruct);
    }
    let mut tmp: Box<Spec> = match regex_to_nfa_spec(&exprs[0]) {
        Ok(s) => Box::new(s),
        Err(err) => {
            proof {
                lemma_first_error(*exprs, 1, exprs@.len(), alt);
            }
            return Err(err);
        },
    };
    let mut i: usize = 1;
    while i < exprs.len()
        invariant
            1 <= i <= exprs.len(),
            translate_first(*exprs, i as nat, alt) == Ok::<Spec, TranslateError>(*tmp),
        decreases exprs.len() - i,
    {
        let aux: Box<Spec> = match regex_to_nfa_spec(&exprs[i]) {
            Ok(s) => Box::new(s),
            Err(err) => {
                assert(translate_first(*exprs, (i + 1) as nat, alt) == Err::<Spec, TranslateError>(
                    err,
                ));
                proof {
                    lemma_first_error(*exprs, (i + 1) as nat, exprs@.len(), alt);
                }
                return Err(err);
            },
        };
        if alt {
            tmp = Spec::union(tmp, aux);
        } else {
            tmp = Spec::concat(tmp, aux);
        }
        i = i + 1;
    }
    Ok(*tmp)
}

/// A translation that fails on the first `n` expressions fails in the same
/// way on the first `m`, for every `m` from `n` on.
proof fn lemma_first_error(exprs: Vec<Expr>, n: nat, m: nat, alt: bool)
    requires
        1 <= n <= m <= exprs@.len(),
        translate_first(exprs, n, alt) is Err,
    ensures
        translate_first(exprs, m, alt) == translate_first(exprs, n, alt),
    decreases m,
{
    if m > n {
        lemma_first_error(exprs, n, (m - 1) as nat, alt);
    }
}

/// The translation of the expressions of `exprs` one after the other.
pub fn concat_to_spec(exprs: &Vec<Expr>) -> (res: Result<Spec, TranslateError>)
    ensures
        res == translate_first(*exprs, exprs@.len(), false),
    decreases *exprs, 1nat,
{
    join_all(exprs, false)
}

/// The translation of the choice between the expressions of `exprs`.
pub fn alternate_to_spec(exprs: &Vec<Expr>) -> (res: Result<Spec, TranslateError>)
    ensures
        res == translate_first(*exprs, exprs@.len(), true),
    decreases *exprs, 1nat,
{
    join_all(exprs, true)
}

/// Lowers a parsed regular expression to the tree that an automaton is built
/// from. Fails on the first construct, from left to right, that has no
/// translation.
pub fn regex_to_nfa_spec(re: &Expr) -> (res: Result<Spec, TranslateError>)
    ensures
        res == translate(*re),
        supported(*re) ==> res is Ok,
    decreases *re, 1nat,
{
    proof {
        if supported(*re) {
            lemma_translate_total(*re);
        }
    }
    match re {
        Expr::AnyChar => Ok(Spec::Single(Label::Any)),
        Expr::AnyCharNoNL => Ok(Spec::Single(Label::Any)),
        Expr::Repeat { e, r, greedy } => repeater_to_spec(e, r),
        Expr::Literal { chars, casei } => {
            if chars.len() == 0 {
                Err(TranslateError::EmptyLiteral)
            } else {
                Ok(literal_to_spec(chars))
            }
        },
        Expr::Concat(exprs) => {
            if exprs.len() == 0 {
                Err(TranslateError::UnsupportedConstruct)
            } else {
                concat_to_spec(exprs)
            }
        },
        Expr::Alternate(exprs) => {
            if exprs.len() == 0 {
                Err(TranslateError::UnsupportedConstruct)
            } else {
                alternate_to_spec(exprs)
            }
        },
        _ => Err(TranslateError::UnsupportedConstruct),
    }
}

} // verus!
