use vstd::prelude::*;
use crate::text::{chars_of, replace_all, replaced, string_of};
use crate::lexspec::texts;

verus! {

/// A table of named definitions. No name occurs twice.
pub struct Definitions {
    entries: Vec<(String, String)>,
}

/// Some entry of `entries` has the name `key`.
pub open spec fn named(entries: Seq<(String, String)>, key: Seq<char>) -> bool {
    exists|i: int| 0 <= i < entries.len() && (#[trigger] entries[i]).0@ == key
}

/// No two entries of `entries` have the same name.
pub open spec fn distinct_names(entries: Seq<(String, String)>) -> bool {
    forall|i: int, j: int|
        0 <= i < j < entries.len() ==> (#[trigger] entries[i]).0@ != (#[trigger] entries[j]).0@
}

impl View for Definitions {
    type V = Map<Seq<char>, Seq<char>>;

    closed spec fn view(&self) -> Map<Seq<char>, Seq<char>> {
        Map::new(
            |key: Seq<char>| named(self.entries@, key),
            |key: Seq<char>|
                self.entries@[choose|i: int|
                    0 <= i < self.entries@.len() && (#[trigger] self.entries@[i]).0@ == key].1@,
        )
    }
}

impl Definitions {
    #[verifier::type_invariant]
    closed spec fn inv(&self) -> bool {
        distinct_names(self.entries@)
    }

    /// A table without definitions.
    pub fn new() -> (res: Definitions)
        ensures
            res@ == Map::<Seq<char>, Seq<char>>::empty(),
    {
        let res = Definitions { entries: Vec::new() };
        res
    }

    /// The place of the entry named `key`, if there is one.
    fn find(&self, key: &String) -> (res: Option<usize>)
        ensures
            match res {
                Some(i) => i < self.entries@.len() && self.entries@[i as int].0@ == key@,
                None => !named(self.entries@, key@),
            },
    {
        let mut i: usize = 0;
        while i < self.entries.len()
            invariant
                i <= self.entries.len(),
                forall|j: int| 0 <= j < i ==> (#[trigger] self.entries@[j]).0@ != key@,
            decreases self.entries.len() - i,
        {
            if self.entries[i].0 == *key {
                return Some(i);
            }
            i = i + 1;
        }
        None
    }

    /// Sets what `key` stands for to `value`, whether it stood for something
    /// before or not.
    pub fn insert(&mut self, key: String, value: String)
        ensures
            final(self)@ == old(self)@.insert(key@, value@),
    {
        proof {
            use_type_invariant(&*self);
        }
        let found = self.find(&key);
        let mut entries: Vec<(String, String)> = Vec::new();
        std::mem::swap(&mut self.entries, &mut entries);
        let ghost before = entries@;
        match found {
            Some(i) => {
                entries[i] = (key, value);
                proof {
                    let after = entries@;
                }
            },
            None => {
                entries.push((key, value));
                proof {
                    let after = entries@;
                }
            },
        }
        std::mem::swap(&mut self.entries, &mut entries);
        proof {
            let after = self.entries@;
            let goal = old(self)@.insert(key@, value@);
            assert forall|k: Seq<char>| self@.dom().contains(k) <==> goal.dom().contains(k) by {
                if named(after, k) {
                    let i = choose|i: int| 0 <= i < after.len() && (#[trigger] after[i]).0@ == k;
                }
                if named(before, k) {
                    let i = choose|i: int| 0 <= i < before.len() && (#[trigger] before[i]).0@ == k;
                    assert(after[i].0@ == k);
                }
                if k == key@ {
                    match found {
                        Some(i) => {
                        },
                        None => {
                            assert(after[before.len() as int].0@ == k);
                        },
                    }
                }
            }
            assert forall|k: Seq<char>| self@.dom().contains(k) implies self@[k] == goal[k] by {
                let i = choose|i: int| 0 <= i < after.len() && (#[trigger] after[i]).0@ == k;
                if k == key@ {
                    match found {
                        Some(f) => {
                        },
                        None => {
                        },
                    }
                } else {
                    let j = choose|j: int| 0 <= j < before.len() && (#[trigger] before[j]).0@ == k;
                }
            }
        }
    }

    /// What `key` stands for, if it stands for something.
    pub fn get(&self, key: &String) -> (res: Option<&String>)
        ensures
            match res {
                Some(v) => self@.dom().contains(key@) && self@[key@] == v@,
                None => !self@.dom().contains(key@),
            },
    {
        proof {
            use_type_invariant(self);
        }
        match self.find(key) {
            Some(i) => {
                proof {
                    let j = choose|j: int|
                        0 <= j < self.entries@.len() && (#[trigger] self.entries@[j]).0@ == key@;
                }
                Some(&self.entries[i].1)
            },
            None => None,
        }
    }
}

/// The character classes that can be named in braces, each with the
/// bracket expression it stands for.
pub open spec fn posix_classes() -> Map<Seq<char>, Seq<char>> {
    Map::<Seq<char>, Seq<char>>::empty().insert("alnum"@, "[0-9A-Za-z]"@).insert(
        "alpha"@,
        "[A-Za-z]"@,
    ).insert("ascii"@, "[\\x00-\\x7F]"@).insert("blank"@, "[\\t ]"@).insert(
        "cntrl"@,
        "[\\x00-\\x1F\\x7F]"@,
    ).insert("digit"@, "[0-9]"@).insert("graph"@, "[!-~]"@).insert("lower"@, "[a-z]"@).insert(
        "print"@,
        "[ -~]"@,
    ).insert("punct"@, "[!-/:-@[-`{-~]"@).insert("space"@, "[\\t\\n\\v\\f\\r ]"@).insert(
        "upper"@,
        "[A-Z]"@,
    ).insert("word"@, "[0-9A-Za-z_]"@).insert("xdigit"@, "[0-9A-Fa-f]"@)
}

/// The table of the character classes that can be named in braces. The
/// path is not read.
pub fn build_rules(path: &str) -> (res: Definitions)
    ensures
        res@ == posix_classes(),
{
    let mut map_rules = Definitions::new();
    map_rules.insert(String::from_str("alnum"), String::from_str("[0-9A-Za-z]"));
    map_rules.insert(String::from_str("alpha"), String::from_str("[A-Za-z]"));
    map_rules.insert(String::from_str("ascii"), String::from_str("[\\x00-\\x7F]"));
    map_rules.insert(String::from_str("blank"), String::from_str("[\\t ]"));
    map_rules.insert(String::from_str("cntrl"), String::from_str("[\\x00-\\x1F\\x7F]"));
    map_rules.insert(String::from_str("digit"), String::from_str("[0-9]"));
    map_rules.insert(String::from_str("graph"), String::from_str("[!-~]"));
    map_rules.insert(String::from_str("lower"), String::from_str("[a-z]"));
    map_rules.insert(String::from_str("print"), String::from_str("[ -~]"));
    map_rules.insert(String::from_str("punct"), String::from_str("[!-/:-@[-`{-~]"));
    map_rules.insert(String::from_str("space"), String::from_str("[\\t\\n\\v\\f\\r ]"));
    map_rules.insert(String::from_str("upper"), String::from_str("[A-Z]"));
    map_rules.insert(String::from_str("word"), String::from_str("[0-9A-Za-z_]"));
    map_rules.insert(String::from_str("xdigit"), String::from_str("[0-9A-Fa-f]"));
    map_rules
}

/// Why a text could not be expanded.
#[derive(Clone, Copy, PartialEq, Eq, Debug, Structural)]
pub enum ExpandError {
    /// The pattern for references is no regular expression.
    BadPattern,
    /// A reference is shorter than a pair of braces.
    BadReference,
    /// A reference names a definition that the table does not hold.
    UnknownDefinition,
}

/// What the regular expression `pattern` finds in `text`: for each match,
/// from left to right and without overlap, the part of the text that its
/// first group took, or the empty text if the group took none. There is no
/// answer if `pattern` is no regular expression.
pub uninterp spec fn group_matches(pattern: Seq<char>, text: Seq<char>) -> Option<Seq<Seq<char>>>;

/// `Regex::new`, then `Regex::captures_iter` with `Captures::at(1)` on each
/// match. The contract only gives the result its name: it depends on the
/// pattern and the text alone.
#[verifier::external_body]
pub(crate) fn captured(pattern: &str, text: &str) -> (res: Option<Vec<String>>)
    ensures
        match res {
            Some(v) => group_matches(pattern@, text@) == Some(texts(v@)),
            None => group_matches(pattern@, text@) is None,
        },
{
    match regex::Regex::new(pattern) {
        Ok(re) => Some(
            re.captures_iter(text).map(|cap| cap.at(1).unwrap_or("").to_string()).collect(),
        ),
        Err(_) => None,
    }
}

/// `text` after the first `n` references of `refs` were expanded in turn:
/// every occurrence of a reference is replaced by what the name between its
/// first and last character stands for.
pub open spec fn expanded(
    text: Seq<char>,
    refs: Seq<Seq<char>>,
    map: Map<Seq<char>, Seq<char>>,
    n: nat,
) -> Result<Seq<char>, ExpandError>
    decreases n,
{
    if n == 0 {
        Ok(text)
    } else {
        match expanded(text, refs, map, (n - 1) as nat) {
            Err(e) => Err(e),
            Ok(t) => {
                let r = refs[n - 1];
                if r.len() < 2 {
                    Err(ExpandError::BadReference)
                } else if map.dom().contains(r.subrange(1, r.len() - 1)) {
                    Ok(replaced(t, r, map[r.subrange(1, r.len() - 1)]))
                } else {
                    Err(ExpandError::UnknownDefinition)
                }
            },
        }
    }
}

/// Expands the references `refs` in `s` one after the other.
pub fn expand_with(s: &str, refs: &Vec<String>, map: &Definitions) -> (res: Result<
    String,
    ExpandError,
>)
    ensures
        match res {
            Ok(t) => expanded(s@, texts(refs@), map@, refs@.len()) == Ok::<Seq<char>, ExpandError>(
                t@,
            ),
            Err(e) => expanded(s@, texts(refs@), map@, refs@.len()) == Err::<
                Seq<char>,
                ExpandError,
            >(e),
        },
{
    let ghost all = texts(refs@);
    let mut text = chars_of(s);
    let mut i: usize = 0;
    while i < refs.len()
        invariant
            i <= refs.len(),
            all == texts(refs@),
            expanded(s@, all, map@, i as nat) == Ok::<Seq<char>, ExpandError>(text@),
        decreases refs.len() - i,
    {
        let tmp = chars_of(refs[i].as_str());
        if tmp.len() < 2 {
            proof {
                lemma_expanded_error(s@, all, map@, (i + 1) as nat, refs@.len() as nat);
            }
            return Err(ExpandError::BadReference);
        }
        let mut key_chars: Vec<char> = Vec::new();
        let mut j: usize = 1;
        while j < tmp.len() - 1
            invariant
                1 <= j <= tmp.len() - 1,
                key_chars@ == tmp@.subrange(1, j as int),
            decreases tmp.len() - j,
        {
            key_chars.push(tmp[j]);
            j = j + 1;
        }
        let key = string_of(&key_chars);
        match map.get(&key) {
            Some(value) => {
                let to = chars_of(value.as_str());
                text = replace_all(&text, &tmp, &to);
            },
            None => {
                proof {
                    lemma_expanded_error(s@, all, map@, (i + 1) as nat, refs@.len() as nat);
                }
                return Err(ExpandError::UnknownDefinition);
            },
        }
        i = i + 1;
    }
    Ok(string_of(&text))
}

/// An expansion that fails on the first `n` references fails in the same way
/// on the first `m`, for every `m` from `n` on.
proof fn lemma_expanded_error(
    text: Seq<char>,
    refs: Seq<Seq<char>>,
    map: Map<Seq<char>, Seq<char>>,
    n: nat,
    m: nat,
)
    requires
        n <= m,
        expanded(text, refs, map, n) is Err,
    ensures
        expanded(text, refs, map, m) == expanded(text, refs, map, n),
    decreases m,
{
    if m > n {
        lemma_expanded_error(text, refs, map, n, (m - 1) as nat);
    }
}

/// The pattern for a reference to a definition: a name of letters in braces.
pub open spec fn reference_pattern() -> Seq<char> {
    "(\\{[:alpha:]{1,}\\})"@
}

/// What `expand_definitions` gives for `text`, given what the pattern for
/// references finds in it.
pub open spec fn expansion(
    text: Seq<char>,
    found: Option<Seq<Seq<char>>>,
    map: Map<Seq<char>, Seq<char>>,
) -> Result<Seq<char>, ExpandError> {
    match found {
        Some(refs) => expanded(text, refs, map, refs.len()),
        None => Err(ExpandError::BadPattern),
    }
}

/// Replaces in `s` every part that the first group of `pattern` takes in
/// it, a name between two other characters, by what the name stands for in
/// `map`. Fails if `pattern` is no regular expression, or if a name stands
/// for nothing.
pub fn expand_matches(pattern: &str, s: &str, map: &Definitions) -> (res: Result<
    String,
    ExpandError,
>)
    ensures
        match res {
            Ok(t) => expansion(s@, group_matches(pattern@, s@), map@) == Ok::<
                Seq<char>,
                ExpandError,
            >(t@),
            Err(e) => expansion(s@, group_matches(pattern@, s@), map@) == Err::<
                Seq<char>,
                ExpandError,
            >(e),
        },
{
    match captured(pattern, s) {
        Some(refs) => expand_with(s, &refs, map),
        None => Err(ExpandError::BadPattern),
    }
}

/// Replaces every reference to a definition in `s`, a name of letters in
/// braces, by what the name stands for in `map`. Fails if a name stands for
/// nothing.
pub fn expand_definitions(s: &str, map: &Definitions) -> (res: Result<String, ExpandError>)
    ensures
        match res {
            Ok(t) => expansion(s@, group_matches(reference_pattern(), s@), map@) == Ok::<
                Seq<char>,
                ExpandError,
            >(t@),
            Err(e) => expansion(s@, group_matches(reference_pattern(), s@), map@) == Err::<
                Seq<char>,
                ExpandError,
            >(e),
        },
{
    expand_matches("(\\{[:alpha:]{1,}\\})", s, map)
}

} // verus!
