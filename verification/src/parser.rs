use vstd::prelude::*;
use crate::chars::{is_whitespace, whitespace};
use crate::text::push_char;

verus! {

/// The character that a buffer gives once its input is used up.
pub const EOF: char = '\u{10FFFF}';

/// Whether `c` is the mark for the end of the input.
pub fn is_eof(c: char) -> (res: bool)
    ensures
        res == (c == EOF),
{
    c == EOF
}

/// What a buffer holds, as mathematical values.
pub struct ReaderModel {
    /// The character that was handed back, if one is waiting.
    pub lookahead: Option<char>,
    /// The characters of the input that were not read yet.
    pub unread: Seq<char>,
}

impl ReaderModel {
    /// The characters that `next_char` will give before it gives the end mark.
    pub open spec fn rest(self) -> Seq<char> {
        match self.lookahead {
            Some(c) => seq![c] + self.unread,
            None => self.unread,
        }
    }
}

/// What is left of the input `rest` after `k` characters were taken and the
/// one behind them was looked at and handed back: the end mark in its place if
/// there was none.
pub open spec fn scanned(rest: Seq<char>, k: nat) -> ReaderModel {
    if k < rest.len() {
        ReaderModel { lookahead: Some(rest[k as int]), unread: rest.skip(k as int + 1) }
    } else {
        ReaderModel { lookahead: Some(EOF), unread: Seq::empty() }
    }
}

/// Whether `c` is whitespace and not the end mark.
pub open spec fn blank(c: char) -> bool {
    c != EOF && whitespace(c)
}

/// Whether `c` is neither whitespace nor the end mark.
pub open spec fn wordy(c: char) -> bool {
    c != EOF && !whitespace(c)
}

/// The number of blank characters at the front of `s`.
pub open spec fn leading_blank(s: Seq<char>) -> nat
    decreases s.len(),
{
    if s.len() > 0 && blank(s[0]) {
        1 + leading_blank(s.drop_first())
    } else {
        0
    }
}

/// The number of characters at the front of `s` that belong to a word.
pub open spec fn leading_word(s: Seq<char>) -> nat
    decreases s.len(),
{
    if s.len() > 0 && wordy(s[0]) {
        1 + leading_word(s.drop_first())
    } else {
        0
    }
}

/// Reads a text character by character and lets one character be handed back.
pub struct LookaheadBuffer {
    c: char,
    valid: bool,
    reader: Vec<char>,
    at: usize,
}

impl View for LookaheadBuffer {
    type V = ReaderModel;

    closed spec fn view(&self) -> ReaderModel {
        ReaderModel {
            lookahead: if self.valid {
                Some(self.c)
            } else {
                None
            },
            unread: self.reader@.skip(self.at as int),
        }
    }
}

impl LookaheadBuffer {
    #[verifier::type_invariant]
    closed spec fn inv(&self) -> bool {
        self.at <= self.reader@.len()
    }

    /// A buffer at the start of `text`.
    pub fn new(text: &str) -> (res: LookaheadBuffer)
        ensures
            res@.lookahead is None,
            res@.unread == text@,
    {
        let mut reader: Vec<char> = Vec::new();
        for c in it: text.chars()
            invariant
                it.seq() == text@,
                reader@ == text@.take(it.index() as int),
        {
            reader.push(c);
        }
        let res = LookaheadBuffer { c: ' ', valid: false, reader: reader, at: 0 };
        res
    }

    /// Whether a character that was handed back is waiting.
    pub fn valid(&self) -> (res: bool)
        ensures
            res == (self@.lookahead is Some),
    {
        self.valid
    }

    /// The next character: the one that was handed back if one is waiting,
    /// else the next one of the input, else the end mark.
    pub fn next_char(&mut self) -> (res: char)
        ensures
            final(self)@.lookahead is None,
            old(self)@.rest().len() > 0 ==> res == old(self)@.rest()[0] && final(self)@.unread
                == old(self)@.rest().drop_first(),
            old(self)@.rest().len() == 0 ==> res == EOF && final(self)@.unread.len() == 0,
    {
        proof {
            use_type_invariant(&*self);
        }
        if self.valid {
            self.valid = false;
            self.c
        } else {
            if self.at < self.reader.len() {
                let c = self.reader[self.at];
                self.at = self.at + 1;
                c
            } else {
                EOF
            }
        }
    }

    /// Hands `c` back to the buffer, to be given as the next character. No
    /// other character may be waiting.
    pub fn return_char(&mut self, c: char)
        requires
            old(self)@.lookahead is None,
        ensures
            final(self)@.lookahead == Some(c),
            final(self)@.unread == old(self)@.unread,
    {
        proof {
            use_type_invariant(&*self);
        }
        self.c = c;
        self.valid = true;
    }
}

/// Takes the blank characters at the front of what is left and leaves the
/// character behind them, or the end mark, as the one that waits.
pub fn skip_whitespace(buffer: &mut LookaheadBuffer)
    ensures
        final(buffer)@ == scanned(old(buffer)@.rest(), leading_blank(old(buffer)@.rest())),
{
    let ghost start = buffer@.rest();
    let ghost mut k: nat = 0;
    let mut c = buffer.next_char();
    assert(start.skip(0) =~= start);
    while !is_eof(c) && is_whitespace(c)
        invariant
            k <= start.len(),
            buffer@.lookahead is None,
            k < start.len() ==> c == start[k as int] && buffer@.unread == start.skip(k as int + 1),
            k == start.len() ==> c == EOF && buffer@.unread.len() == 0,
            leading_blank(start) == k + leading_blank(start.skip(k as int)),
        decreases start.len() - k,
    {
        proof {
            let cur = start.skip(k as int);
            assert(cur.drop_first() =~= start.skip(k as int + 1));
            k = k + 1;
        }
        c = buffer.next_char();
    }
    proof {
        let cur = start.skip(k as int);
    }
    buffer.return_char(c);
    assert(buffer@.unread =~= scanned(start, k).unread);
}

/// The tokens of a lexer specification.
#[derive(PartialEq, Eq, Debug)]
pub enum Token {
    LBrace,
    RBrace,
    Equals,
    Comma,
    Semicolon,
    LParenth,
    RParenth,
    DefsId,
    RulesId,
    CodeId,
    Id(String),
    RegExp,
    Eof,
}

/// The blocks of a lexer specification.
#[derive(Clone, Copy, PartialEq, Eq, Debug, Structural)]
pub enum Block {
    Rules,
    Defs,
    Code,
}

/// What is left of `rest` behind its first character, if it has one.
pub open spec fn behind_first(rest: Seq<char>) -> Seq<char> {
    if rest.len() > 0 {
        rest.drop_first()
    } else {
        rest
    }
}

/// Takes one character and the blank characters behind it. The token is an
/// opening brace if that character is one, and the end of the input
/// otherwise.
pub fn get_next_token(buffer: &mut LookaheadBuffer) -> (res: Box<Token>)
    ensures
        old(buffer)@.rest().len() > 0 && old(buffer)@.rest()[0] == '{' ==> *res == Token::LBrace,
        !(old(buffer)@.rest().len() > 0 && old(buffer)@.rest()[0] == '{') ==> *res == Token::Eof,
        final(buffer)@ == scanned(
            behind_first(old(buffer)@.rest()),
            leading_blank(behind_first(old(buffer)@.rest())),
        ),
{
    let c = buffer.next_char();
    skip_whitespace(buffer);
    if is_eof(c) {
        Box::new(Token::Eof)
    } else if c == '{' {
        Box::new(Token::LBrace)
    } else {
        Box::new(Token::Eof)
    }
}

/// Appends the word at the front of what is left to `res` and leaves the
/// character behind it, or the end mark, as the one that waits.
fn read_word(buffer: &mut LookaheadBuffer, res: &mut String)
    ensures
        final(res)@ == old(res)@ + old(buffer)@.rest().take(
            leading_word(old(buffer)@.rest()) as int,
        ),
        final(buffer)@ == scanned(old(buffer)@.rest(), leading_word(old(buffer)@.rest())),
{
    let ghost start = buffer@.rest();
    let ghost mut k: nat = 0;
    let mut c = buffer.next_char();
    assert(start.skip(0) =~= start);
    while !is_eof(c) && !is_whitespace(c)
        invariant
            k <= start.len(),
            buffer@.lookahead is None,
            k < start.len() ==> c == start[k as int] && buffer@.unread == start.skip(k as int + 1),
            k == start.len() ==> c == EOF && buffer@.unread.len() == 0,
            leading_word(start) == k + leading_word(start.skip(k as int)),
            res@ == old(res)@ + start.take(k as int),
        decreases start.len() - k,
    {
        push_char(res, c);
        proof {
            let cur = start.skip(k as int);
            assert(cur.drop_first() =~= start.skip(k as int + 1));
            k = k + 1;
        }
        c = buffer.next_char();
    }
    proof {
        let cur = start.skip(k as int);
    }
    buffer.return_char(c);
    assert(buffer@.unread =~= scanned(start, k).unread);
}

/// The word at the front of what is left: the characters up to the first
/// whitespace or the end of the input. The character behind the word, or the
/// end mark, is left as the one that waits.
pub fn read_string(buffer: &mut LookaheadBuffer) -> (res: String)
    ensures
        res@ == old(buffer)@.rest().take(leading_word(old(buffer)@.rest()) as int),
        final(buffer)@ == scanned(old(buffer)@.rest(), leading_word(old(buffer)@.rest())),
{
    let mut res = String::new();
    read_word(buffer, &mut res);
    res
}

/// The word that starts with `first`, which was taken already, and goes on
/// with the word at the front of what is left.
pub fn read_string_after_first(buffer: &mut LookaheadBuffer, first: char) -> (res: String)
    ensures
        res@ == seq![first] + old(buffer)@.rest().take(leading_word(old(buffer)@.rest()) as int),
        final(buffer)@ == scanned(old(buffer)@.rest(), leading_word(old(buffer)@.rest())),
{
    let mut res = String::new();
    push_char(&mut res, first);
    read_word(buffer, &mut res);
    res
}

/// The block that a word names, if it names one.
pub open spec fn block_named(word: Seq<char>) -> Option<Block> {
    if word == "rules"@ {
        Some(Block::Rules)
    } else if word == "defs"@ {
        Some(Block::Defs)
    } else if word == "code"@ {
        Some(Block::Code)
    } else {
        None
    }
}

/// The input behind the leading blank characters of `rest`.
pub open spec fn unblanked(rest: Seq<char>) -> Seq<char> {
    scanned(rest, leading_blank(rest)).rest()
}

/// Reads the word that opens a block of the specification and tells which
/// block it names.
pub fn parse_toplevel_block(buffer: &mut LookaheadBuffer) -> (res: Option<Block>)
    ensures
        res == block_named(
            unblanked(old(buffer)@.rest()).take(
                leading_word(unblanked(old(buffer)@.rest())) as int,
            ),
        ),
        final(buffer)@ == scanned(
            unblanked(old(buffer)@.rest()),
            leading_word(unblanked(old(buffer)@.rest())),
        ),
{
    skip_whitespace(buffer);
    let word = read_string(buffer);
    if word == String::from_str("rules") {
        Some(Block::Rules)
    } else if word == String::from_str("defs") {
        Some(Block::Defs)
    } else if word == String::from_str("code") {
        Some(Block::Code)
    } else {
        None
    }
}

/// Whether the word at the front of what is left is `s`. The word is taken.
pub fn match_next_string(buffer: &mut LookaheadBuffer, s: &String) -> (res: bool)
    ensures
        res == (old(buffer)@.rest().take(leading_word(old(buffer)@.rest()) as int) == s@),
        final(buffer)@ == scanned(old(buffer)@.rest(), leading_word(old(buffer)@.rest())),
{
    let word = read_string(buffer);
    word == *s
}

/// Reads the start of a lexer specification and tells which block it opens with.
pub fn parse_lexer_spec(text: &str) -> (res: Option<Block>)
    ensures
        res == block_named(unblanked(text@).take(leading_word(unblanked(text@)) as int)),
{
    let mut buffer = LookaheadBuffer::new(text);
    parse_toplevel_block(&mut buffer)
}

} // verus!
