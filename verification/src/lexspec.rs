use vstd::prelude::*;

verus! {

/// A definition of a lexer specification: a name and what it stands for.
pub struct Definition {
    pub id: String,
    pub val: String,
}

/// The lines of a lexer specification, sorted into its three sections.
pub struct LexerSpec {
    pub defs: Vec<String>,
    pub rules: Vec<String>,
    pub code: Vec<String>,
}

/// The section of a lexer specification that a line belongs to.
#[derive(Clone, Copy, PartialEq, Eq, Debug, Structural)]
pub enum ReadState {
    Definitions,
    Rules,
    Code,
}

/// The texts of a vector of strings.
pub open spec fn texts(lines: Seq<String>) -> Seq<Seq<char>> {
    Seq::new(lines.len(), |i: int| lines[i]@)
}

/// Whether a line separates two sections: it starts with `%%`.
pub open spec fn separates(line: Seq<char>) -> bool {
    line.len() >= 2 && line[0] == '%' && line[1] == '%'
}

/// The section that follows `state`; the last section has none after it.
pub open spec fn following(state: ReadState) -> ReadState {
    match state {
        ReadState::Definitions => ReadState::Rules,
        ReadState::Rules => ReadState::Code,
        ReadState::Code => ReadState::Code,
    }
}

/// The section that is open behind the first `n` lines.
pub open spec fn section_after(lines: Seq<Seq<char>>, n: nat) -> ReadState
    decreases n,
{
    if n == 0 {
        ReadState::Definitions
    } else {
        let before = section_after(lines, (n - 1) as nat);
        if separates(lines[n - 1]) {
            following(before)
        } else {
            before
        }
    }
}

/// Those of the first `n` lines that belong to the section `which`, in order.
/// The separating lines belong to none.
pub open spec fn section_lines(lines: Seq<Seq<char>>, n: nat, which: ReadState) -> Seq<Seq<char>>
    decreases n,
{
    if n == 0 {
        Seq::empty()
    } else {
        let before = section_lines(lines, (n - 1) as nat, which);
        if !separates(lines[n - 1]) && section_after(lines, (n - 1) as nat) == which {
            before.push(lines[n - 1])
        } else {
            before
        }
    }
}

/// Whether `line` starts with `%%`.
pub fn is_separator(line: &String) -> (res: bool)
    ensures
        res == separates(line@),
{
    let s = line.as_str();
    s.unicode_len() >= 2 && s.get_char(0) == '%' && s.get_char(1) == '%'
}

/// Sorts the lines of a lexer specification into its sections. A line that
/// starts with `%%` closes the section that is open and belongs to none.
pub fn build_desc_from_lines(lines: Vec<String>) -> (res: Box<LexerSpec>)
    ensures
        texts(res.defs@) == section_lines(texts(lines@), lines@.len(), ReadState::Definitions),
        texts(res.rules@) == section_lines(texts(lines@), lines@.len(), ReadState::Rules),
        texts(res.code@) == section_lines(texts(lines@), lines@.len(), ReadState::Code),
{
    let ghost all = texts(lines@);
    let mut state = ReadState::Definitions;
    let mut ds: Vec<String> = Vec::new();
    let mut rs: Vec<String> = Vec::new();
    let mut cd: Vec<String> = Vec::new();
    let mut i: usize = 0;
    while i < lines.len()
        invariant
            i <= lines.len(),
            all == texts(lines@),
            state == section_after(all, i as nat),
            texts(ds@) == section_lines(all, i as nat, ReadState::Definitions),
            texts(rs@) == section_lines(all, i as nat, ReadState::Rules),
            texts(cd@) == section_lines(all, i as nat, ReadState::Code),
        decreases lines.len() - i,
    {
        let line = &lines[i];
        if is_separator(line) {
            state = match state {
                ReadState::Definitions => ReadState::Rules,
                ReadState::Rules => ReadState::Code,
                ReadState::Code => ReadState::Code,
            };
        } else {
            match state {
                ReadState::Definitions => {
                    ds.push(line.clone());
                },
                ReadState::Rules => {
                    rs.push(line.clone());
                },
                ReadState::Code => {
                    cd.push(line.clone());
                },
            }
        }
        i = i + 1;
    }
    Box::new(LexerSpec { defs: ds, rules: rs, code: cd })
}

} // verus!
