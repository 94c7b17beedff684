use vstd::prelude::*;
use crate::buffer::LookaheadBuffer;
use crate::chars::{
    alphabetic, alphanumeric, is_alphabetic, is_alphanumeric, leading_whitespace,
    lemma_leading_whitespace_bound,
};
use crate::text::push_char;

verus! {

/// A token of the notation for regular expressions.
#[derive(PartialEq, Eq, Debug)]
pub enum Token {
    LBrack,
    RBrack,
    Id(String),
    LParen,
    RParen,
    Asterisk,
    Plus,
    Bar,
    Dash,
    String(String),
    End,
    Eof,
    Error(char),
}

/// A token as a mathematical value.
pub enum TokenModel {
    LBrack,
    RBrack,
    Id(Seq<char>),
    LParen,
    RParen,
    Asterisk,
    Plus,
    Bar,
    Dash,
    Str(Seq<char>),
    End,
    Eof,
    Error(char),
}

impl View for Token {
    type V = TokenModel;

    open spec fn view(&self) -> TokenModel {
        match self {
            Token::LBrack => TokenModel::LBrack,
            Token::RBrack => TokenModel::RBrack,
            Token::Id(s) => TokenModel::Id(s@),
            Token::LParen => TokenModel::LParen,
            Token::RParen => TokenModel::RParen,
            Token::Asterisk => TokenModel::Asterisk,
            Token::Plus => TokenModel::Plus,
            Token::Bar => TokenModel::Bar,
            Token::Dash => TokenModel::Dash,
            Token::String(s) => TokenModel::Str(s@),
            Token::End => TokenModel::End,
            Token::Eof => TokenModel::Eof,
            Token::Error(c) => TokenModel::Error(*c),
        }
    }
}

impl Token {
    /// Whether the two tokens are of one kind and carry the same text.
    pub fn same(&self, other: &Token) -> (res: bool)
        ensures
            res == (self@ == other@),
    {
        match (self, other) {
            (Token::LBrack, Token::LBrack) => true,
            (Token::RBrack, Token::RBrack) => true,
            (Token::Id(a), Token::Id(b)) => *a == *b,
            (Token::LParen, Token::LParen) => true,
            (Token::RParen, Token::RParen) => true,
            (Token::Asterisk, Token::Asterisk) => true,
            (Token::Plus, Token::Plus) => true,
            (Token::Bar, Token::Bar) => true,
            (Token::Dash, Token::Dash) => true,
            (Token::String(a), Token::String(b)) => *a == *b,
            (Token::End, Token::End) => true,
            (Token::Eof, Token::Eof) => true,
            (Token::Error(a), Token::Error(b)) => *a == *b,
            _ => false,
        }
    }
}

/// A parsed regular expression of the notation.
#[derive(PartialEq, Eq, Debug)]
pub enum Ast {
    Symb(String),
    Str(String),
    Union(Box<Ast>, Box<Ast>),
    Conc(Box<Ast>, Box<Ast>),
    Star(Box<Ast>),
    OnePlus(Box<Ast>),
    CharClass(char, char),
    Epsilon,
}

/// A parsed regular expression as a mathematical value.
pub enum AstModel {
    Symb(Seq<char>),
    Str(Seq<char>),
    Union(Box<AstModel>, Box<AstModel>),
    Conc(Box<AstModel>, Box<AstModel>),
    Star(Box<AstModel>),
    OnePlus(Box<AstModel>),
    CharClass(char, char),
    Epsilon,
}

impl Ast {
    /// This tree as a mathematical value.
    pub open spec fn model(self) -> AstModel
        decreases self,
    {
        match self {
            Ast::Symb(s) => AstModel::Symb(s@),
            Ast::Str(s) => AstModel::Str(s@),
            Ast::Union(a, b) => AstModel::Union(Box::new((*a).model()), Box::new((*b).model())),
            Ast::Conc(a, b) => AstModel::Conc(Box::new((*a).model()), Box::new((*b).model())),
            Ast::Star(a) => AstModel::Star(Box::new((*a).model())),
            Ast::OnePlus(a) => AstModel::OnePlus(Box::new((*a).model())),
            Ast::CharClass(a, b) => AstModel::CharClass(a, b),
            Ast::Epsilon => AstModel::Epsilon,
        }
    }
}

impl View for Ast {
    type V = AstModel;

    open spec fn view(&self) -> AstModel {
        self.model()
    }
}

/// Why a text is no regular expression of the notation.
#[derive(Clone, Copy, PartialEq, Eq, Debug, Structural)]
pub enum ParseError {
    /// The input ended inside a string that this delimiter should have closed.
    UnclosedString(char),
    /// Another token stood where a certain one had to stand.
    UnexpectedToken,
}

/// Whether `c` may stand inside an identifier.
pub open spec fn id_char(c: char) -> bool {
    alphanumeric(c) || c == '_'
}

/// The number of characters at the front of `s` that may stand inside an
/// identifier.
pub open spec fn leading_id(s: Seq<char>) -> nat
    decreases s.len(),
{
    if s.len() > 0 && id_char(s[0]) {
        1 + leading_id(s.drop_first())
    } else {
        0
    }
}

/// The place of the first `c` in `s`, if there is one.
pub open spec fn index_of(s: Seq<char>, c: char) -> Option<nat>
    decreases s.len(),
{
    if s.len() == 0 {
        None
    } else if s[0] == c {
        Some(0)
    } else {
        match index_of(s.drop_first(), c) {
            Some(i) => Some(i + 1),
            None => None,
        }
    }
}

/// The token at the front of `input` after its leading whitespace, and what
/// is left of the input behind it.
pub open spec fn lex(input: Seq<char>, term: Seq<char>) -> (
    Result<TokenModel, ParseError>,
    Seq<char>,
) {
    let t = input.skip(leading_whitespace(input) as int);
    if t.len() == 0 {
        (Ok(TokenModel::Eof), t)
    } else {
        let c = t[0];
        let r = t.drop_first();
        if c == '[' {
            (Ok(TokenModel::LBrack), r)
        } else if c == ']' {
            (Ok(TokenModel::RBrack), r)
        } else if c == '(' {
            (Ok(TokenModel::LParen), r)
        } else if c == ')' {
            (Ok(TokenModel::RParen), r)
        } else if c == '*' {
            (Ok(TokenModel::Asterisk), r)
        } else if c == '+' {
            (Ok(TokenModel::Plus), r)
        } else if c == '|' {
            (Ok(TokenModel::Bar), r)
        } else if c == '-' {
            (Ok(TokenModel::Dash), r)
        } else if c == '\'' || c == '"' {
            match index_of(r, c) {
                Some(i) => (Ok(TokenModel::Str(r.take(i as int))), r.skip(i as int + 1)),
                None => (Err(ParseError::UnclosedString(c)), Seq::empty()),
            }
        } else if alphabetic(c) {
            (
                Ok(TokenModel::Id(seq![c] + r.take(leading_id(r) as int))),
                r.skip(leading_id(r) as int),
            )
        } else if term.contains(c) {
            (Ok(TokenModel::End), r)
        } else {
            (Ok(TokenModel::Error(c)), r)
        }
    }
}

/// What a token stream holds, as mathematical values.
pub struct StreamModel {
    /// The token that was handed back, if one is waiting.
    pub peek: Option<TokenModel>,
    /// The characters that were not read yet.
    pub input: Seq<char>,
    /// The characters that end a regular expression.
    pub term: Seq<char>,
    /// How many characters were read.
    pub pos: nat,
}

/// The view of a token that may be there.
pub open spec fn peek_view(peek: Option<Token>) -> Option<TokenModel> {
    match peek {
        Some(t) => Some(t@),
        None => None,
    }
}

/// The view of a token or the error in its place.
pub open spec fn token_view(r: Result<Token, ParseError>) -> Result<TokenModel, ParseError> {
    match r {
        Ok(t) => Ok(t@),
        Err(e) => Err(e),
    }
}

/// The view of a tree or the error in its place.
pub open spec fn ast_view(r: Result<Ast, ParseError>) -> Result<AstModel, ParseError> {
    match r {
        Ok(t) => Ok(t@),
        Err(e) => Err(e),
    }
}

/// A token stream with capacity for lookahead of 1 token
pub struct TokenStream {
    pub buffer: LookaheadBuffer,
    pub term: Vec<char>,
    pub peek: Option<Token>,
}

impl View for TokenStream {
    type V = StreamModel;

    open spec fn view(&self) -> StreamModel {
        StreamModel {
            peek: peek_view(self.peek),
            input: self.buffer@.remaining(),
            term: self.term@,
            pos: self.buffer@.pos,
        }
    }
}

/// Whether `c` is one of the characters of `term`.
pub fn is_terminator(c: char, term: &Vec<char>) -> (res: bool)
    ensures
        res == term@.contains(c),
{
    let mut i: usize = 0;
    while i < term.len()
        invariant
            i <= term.len(),
            forall|j: int| 0 <= j < i ==> term@[j] != c,
        decreases term.len() - i,
    {
        if term[i] == c {
            return true;
        }
        i = i + 1;
    }
    false
}

/// Whether `c` may stand inside an identifier.
pub fn is_id_char(c: char) -> (res: bool)
    ensures
        res == id_char(c),
{
    is_alphanumeric(c) || c == '_'
}

impl TokenStream {
    /// A stream of the tokens of `buffer`, in which the characters of `term`
    /// end a regular expression.
    pub fn new(buffer: LookaheadBuffer, term: &[char]) -> (res: TokenStream)
        ensures
            res@.peek is None,
            res@.input == buffer@.remaining(),
            res@.term == term@,
            res@.pos == buffer@.pos,
            res.buffer == buffer,
    {
        let mut t: Vec<char> = Vec::new();
        let mut i: usize = 0;
        while i < term.len()
            invariant
                i <= term.len(),
                t@ == term@.take(i as int),
            decreases term.len() - i,
        {
            t.push(term[i]);
            assert(t@ =~= term@.take(i + 1));
            i = i + 1;
        }
        assert(term@.take(term@.len() as int) == term@);
        TokenStream { buffer: buffer, term: t, peek: None }
    }

    /// Hands `tok` back to the stream, to be given as the next token.
    pub fn return_token(&mut self, tok: Token)
        ensures
            final(self)@.peek == Some(tok@),
            final(self)@.input == old(self)@.input,
            final(self)@.term == old(self)@.term,
            final(self)@.pos == old(self)@.pos,
            final(self).buffer == old(self).buffer,
    {
        self.peek = Some(tok);
    }

    /// Reads the body of a string up to the closing `delim`, which is taken
    /// too. Fails if the input ends before.
    pub fn parse_string(&mut self, delim: char) -> (res: Result<String, ParseError>)
        ensures
            final(self).peek == old(self).peek,
            final(self)@.term == old(self)@.term,
            final(self)@.pos + final(self)@.input.len() == old(self)@.pos + old(self)@.input.len(),
            match index_of(old(self)@.input, delim) {
                Some(i) => res is Ok && res->Ok_0@ == old(self)@.input.take(i as int)
                    && final(self)@.input == old(self)@.input.skip(i as int + 1),
                None => res == Err::<String, ParseError>(ParseError::UnclosedString(delim))
                    && final(self)@.input.len() == 0,
            },
    {
        let ghost start = self@.input;
        let ghost mut k: nat = 0;
        let mut res = String::new();
        assert(start.skip(0) =~= start);
        assert(start.take(0) =~= Seq::<char>::empty());
        loop
            invariant
                k <= start.len(),
                start == old(self)@.input,
                self.peek == old(self).peek,
                self.term == old(self).term,
                self@.input == start.skip(k as int),
                self@.pos == old(self)@.pos + k,
                res@ == start.take(k as int),
                index_of(start, delim) == match index_of(start.skip(k as int), delim) {
                    Some(i) => Some(i + k),
                    None => None,
                },
            decreases start.len() - k,
        {
            let ghost before = self@.input;
            match self.buffer.next_char() {
                None => {
                    assert(index_of(before, delim) is None);
                    return Err(ParseError::UnclosedString(delim));
                },
                Some(c) => {
                    assert(before.drop_first() =~= start.skip(k as int + 1));
                    if c == delim {
                        assert(index_of(before, delim) == Some(0nat));
                        return Ok(res);
                    }
                    push_char(&mut res, c);
                    proof {
                        assert(res@ =~= start.take(k as int + 1));
                        k = k + 1;
                    }
                },
            }
        }
    }

    /// Reads the rest of an identifier that starts with `first`: the
    /// characters up to the first that may not stand in an identifier,
    /// which stays in the input.
    pub fn parse_id(&mut self, first: char) -> (res: String)
        ensures
            final(self).peek == old(self).peek,
            final(self)@.term == old(self)@.term,
            final(self)@.pos + final(self)@.input.len() == old(self)@.pos + old(self)@.input.len(),
            res@ == seq![first] + old(self)@.input.take(leading_id(old(self)@.input) as int),
            final(self)@.input == old(self)@.input.skip(leading_id(old(self)@.input) as int),
    {
        let ghost start = self@.input;
        let ghost mut k: nat = 0;
        let mut res = String::new();
        push_char(&mut res, first);
        assert(start.skip(0) =~= start);
        assert(res@ =~= seq![first] + start.take(0));
        loop
            invariant
                k <= start.len(),
                start == old(self)@.input,
                self.peek == old(self).peek,
                self.term == old(self).term,
                self@.input == start.skip(k as int),
                self@.pos == old(self)@.pos + k,
                res@ == seq![first] + start.take(k as int),
                leading_id(start) == k + leading_id(start.skip(k as int)),
            ensures
                leading_id(start.skip(k as int)) == 0,
            decreases start.len() - k,
        {
            let ghost before = self@.input;
            match self.buffer.next_char() {
                Some(c) => {
                    if is_id_char(c) {
                        push_char(&mut res, c);
                        proof {
                            assert(before.drop_first() =~= start.skip(k as int + 1));
                            assert(leading_id(before) == 1 + leading_id(before.drop_first()));
                            assert(res@ =~= seq![first] + start.take(k as int + 1));
                            k = k + 1;
                        }
                    } else {
                        self.buffer.return_char(c);
                        assert(self@.input =~= before);
                        assert(leading_id(before) == 0);
                        break ;
                    }
                },
                None => {
                    assert(self@.input =~= before);
                    assert(leading_id(before) == 0);
                    break ;
                },
            }
        }
        res
    }

    /// Reads the next token from the input, whatever token was handed back.
    pub fn next_token_raw(&mut self) -> (res: Result<Token, ParseError>)
        ensures
            final(self).peek == old(self).peek,
            final(self)@.term == old(self)@.term,
            final(self)@.pos + final(self)@.input.len() == old(self)@.pos + old(self)@.input.len(),
            (token_view(res), final(self)@.input) == lex(old(self)@.input, old(self)@.term),
    {
        proof {
            lemma_leading_whitespace_bound(self@.input);
        }
        self.buffer.skip_whitespace();
        match self.buffer.next_char() {
            None => Ok(Token::Eof),
            Some(c) => {
                if c == '[' {
                    Ok(Token::LBrack)
                } else if c == ']' {
                    Ok(Token::RBrack)
                } else if c == '(' {
                    Ok(Token::LParen)
                } else if c == ')' {
                    Ok(Token::RParen)
                } else if c == '*' {
                    Ok(Token::Asterisk)
                } else if c == '+' {
                    Ok(Token::Plus)
                } else if c == '|' {
                    Ok(Token::Bar)
                } else if c == '-' {
                    Ok(Token::Dash)
                } else if c == '\'' || c == '"' {
                    match self.parse_string(c) {
                        Ok(s) => Ok(Token::String(s)),
                        Err(e) => {
                            assert(self@.input =~= Seq::<char>::empty());
                            Err(e)
                        },
                    }
                } else if is_alphabetic(c) {
                    Ok(Token::Id(self.parse_id(c)))
                } else if is_terminator(c, &self.term) {
                    Ok(Token::End)
                } else {
                    Ok(Token::Error(c))
                }
            },
        }
    }

    /// The next token: the one that was handed back if one is waiting, else
    /// the next one of the input.
    pub fn next_token(&mut self) -> (res: Result<Token, ParseError>)
        ensures
            (token_view(res), final(self)@) == next_token_spec(old(self)@),
    {
        match self.peek.take() {
            None => self.next_token_raw(),
            Some(t) => Ok(t),
        }
    }
}

/// The next token of a stream and the stream behind it.
pub open spec fn next_token_spec(st: StreamModel) -> (Result<TokenModel, ParseError>, StreamModel) {
    match st.peek {
        Some(t) => (Ok(t), StreamModel { peek: None, ..st }),
        None => {
            let (r, rest) = lex(st.input, st.term);
            (
                r,
                StreamModel {
                    peek: None,
                    input: rest,
                    term: st.term,
                    pos: (st.pos + st.input.len() - rest.len()) as nat,
                },
            )
        },
    }
}

/// How much of a stream is left: two for every character that was not read,
/// and one for a token that waits to be given again, unless it marks the end
/// of the input.
pub open spec fn weight(st: StreamModel) -> nat {
    2 * st.input.len() + (if st.peek is Some && st.peek != Some(TokenModel::Eof) {
        1nat
    } else {
        0nat
    })
}

/// The first `c` of a text stands inside the text.
pub proof fn lemma_index_of_bound(s: Seq<char>, c: char)
    ensures
        index_of(s, c) is Some ==> index_of(s, c)->0 < s.len(),
    decreases s.len(),
{
    if s.len() > 0 && s[0] != c {
        lemma_index_of_bound(s.drop_first(), c);
    }
}

/// Reading a token never makes the input longer, and makes it shorter unless
/// the token marks the end of the input.
pub proof fn lemma_lex_shrinks(input: Seq<char>, term: Seq<char>)
    ensures
        lex(input, term).1.len() <= input.len(),
        lex(input, term).0 != Ok::<TokenModel, ParseError>(TokenModel::Eof) ==> lex(input, term).1.len()
            < input.len(),
{
    lemma_leading_whitespace_bound(input);
    let t = input.skip(leading_whitespace(input) as int);
    if t.len() > 0 {
        let r = t.drop_first();
        lemma_index_of_bound(r, t[0]);
        lemma_leading_id_bound(r);
    }
}

/// The leading identifier characters of a text are part of the text.
pub proof fn lemma_leading_id_bound(s: Seq<char>)
    ensures
        leading_id(s) <= s.len(),
    decreases s.len(),
{
    if s.len() > 0 {
        lemma_leading_id_bound(s.drop_first());
    }
}

/// Taking a token never adds to what is left of a stream, and takes from it
/// unless the token marks the end of the input.
pub proof fn lemma_next_token_shrinks(st: StreamModel)
    ensures
        weight(next_token_spec(st).1) <= weight(st),
        next_token_spec(st).0 != Ok::<TokenModel, ParseError>(TokenModel::Eof) ==> weight(
            next_token_spec(st).1,
        ) < weight(st),
        next_token_spec(st).1.peek is None,
{
    if st.peek is None {
        lemma_lex_shrinks(st.input, st.term);
    }
}

/// A tree or an error, and the stream behind what was read for it.
pub type Parsed = (Result<AstModel, ParseError>, StreamModel);

/// What `trailing_closure` does: takes the next token if it is `*` or `+`, and
/// leaves any other token in the stream.
pub open spec fn trailing_closure_spec(st: StreamModel) -> (
    Result<Option<TokenModel>, ParseError>,
    StreamModel,
) {
    let (tok, st1) = next_token_spec(st);
    match tok {
        Err(e) => (Err(e), st1),
        Ok(TokenModel::Asterisk) => (Ok(Some(TokenModel::Asterisk)), st1),
        Ok(TokenModel::Plus) => (Ok(Some(TokenModel::Plus)), st1),
        Ok(t) => (Ok(None), StreamModel { peek: Some(t), ..st1 }),
    }
}

/// What `match_next_token` does: takes the next token, which has to be `t`.
pub open spec fn match_next_token_spec(st: StreamModel, t: TokenModel) -> (
    Result<(), ParseError>,
    StreamModel,
) {
    let (tok, st1) = next_token_spec(st);
    match tok {
        Err(e) => (Err(e), st1),
        Ok(rt) => if rt == t {
            (Ok(()), st1)
        } else {
            (Err(ParseError::UnexpectedToken), st1)
        },
    }
}

/// The regular expression at the front of a stream.
pub open spec fn parse_regexp_spec(st: StreamModel) -> Parsed
    decreases weight(st), 4nat,
{
    parse_union_spec(st)
}

/// A concatenation, and behind a `|` another union. The token behind the
/// concatenation is taken in any case.
pub open spec fn parse_union_spec(st: StreamModel) -> Parsed
    decreases weight(st), 3nat,
{
    let (left, st1) = parse_concat_spec(st);
    match left {
        Err(e) => (Err(e), st1),
        Ok(l) => {
            let (tok, st2) = next_token_spec(st1);
            match tok {
                Err(e) => (Err(e), st2),
                Ok(TokenModel::Bar) => if weight(st2) < weight(st) {
                    let (right, st3) = parse_union_spec(st2);
                    match right {
                        Ok(r) => (Ok(AstModel::Union(Box::new(l), Box::new(r))), st3),
                        Err(e) => (Err(e), st3),
                    }
                } else {
                    (Ok(l), st2)
                },
                Ok(_) => (Ok(l), st2),
            }
        },
    }
}

/// Two factors, one after the other.
pub open spec fn parse_concat_spec(st: StreamModel) -> Parsed
    decreases weight(st), 2nat,
{
    let (first, st1) = parse_factor_spec(st);
    match first {
        Err(e) => (Err(e), st1),
        Ok(f) => if weight(st1) <= weight(st) {
            let (right, st2) = parse_factor_spec(st1);
            match right {
                Ok(r) => (Ok(AstModel::Conc(Box::new(f), Box::new(r))), st2),
                Err(e) => (Err(e), st2),
            }
        } else {
            (Ok(f), st1)
        },
    }
}

/// The factor that starts with the next token.
pub open spec fn parse_factor_spec(st: StreamModel) -> Parsed
    decreases weight(st), 1nat,
{
    let (tok, st1) = next_token_spec(st);
    match tok {
        Err(e) => (Err(e), st1),
        Ok(t) => {
            proof {
                lemma_next_token_shrinks(st);
            }
            parse_factor_token_spec(st1, t)
        },
    }
}

/// The factor that starts with the token `tok`, which was taken already: a
/// regular expression in parentheses, an empty tree for a character class, a
/// symbol, a string, or an empty tree for any other token; then `*` or `+`
/// if one follows.
pub open spec fn parse_factor_token_spec(st: StreamModel, tok: TokenModel) -> Parsed
    decreases weight(st) + (if tok is LParen { 1nat } else { 0nat }), 0nat,
{
    let (pre, st1): Parsed = match tok {
        TokenModel::LParen => {
            let (e, st_a) = parse_regexp_spec(st);
            match e {
                Err(x) => (Err(x), st_a),
                Ok(tree) => {
                    let (m, st_b) = match_next_token_spec(st_a, TokenModel::RParen);
                    match m {
                        Err(x) => (Err(x), st_b),
                        Ok(_) => (Ok(tree), st_b),
                    }
                },
            }
        },
        TokenModel::LBrack => (Ok(AstModel::Epsilon), st),
        TokenModel::Id(s) => (Ok(AstModel::Symb(s)), st),
        TokenModel::Str(s) => (Ok(AstModel::Str(s)), st),
        _ => (Ok(AstModel::Epsilon), st),
    };
    match pre {
        Err(e) => (Err(e), st1),
        Ok(p) => {
            let (c, st2) = trailing_closure_spec(st1);
            match c {
                Err(e) => (Err(e), st2),
                Ok(Some(TokenModel::Asterisk)) => (Ok(AstModel::Star(Box::new(p))), st2),
                Ok(Some(TokenModel::Plus)) => (Ok(AstModel::OnePlus(Box::new(p))), st2),
                Ok(_) => (Ok(p), st2),
            }
        },
    }
}

/// Takes the next token, which has to be `t`.
pub fn match_next_token(ts: &mut TokenStream, t: Token, term: &[char]) -> (res: Result<
    (),
    ParseError,
>)
    ensures
        (res, final(ts)@) == match_next_token_spec(old(ts)@, t@),
        weight(final(ts)@) <= weight(old(ts)@),
{
    proof {
        lemma_next_token_shrinks(ts@);
    }
    match ts.next_token() {
        Err(e) => Err(e),
        Ok(rt) => {
            if !rt.same(&t) {
                Err(ParseError::UnexpectedToken)
            } else {
                Ok(())
            }
        },
    }
}

/// Takes the next token if it is `*` or `+`, and leaves any other token in
/// the stream.
pub fn trailing_closure(ts: &mut TokenStream) -> (res: Result<Option<Token>, ParseError>)
    ensures
        (
            match res {
                Ok(o) => Ok(peek_view(o)),
                Err(e) => Err(e),
            },
            final(ts)@,
        ) == trailing_closure_spec(old(ts)@),
        weight(final(ts)@) <= weight(old(ts)@),
{
    proof {
        lemma_next_token_shrinks(ts@);
    }
    match ts.next_token() {
        Err(e) => Err(e),
        Ok(Token::Asterisk) => Ok(Some(Token::Asterisk)),
        Ok(Token::Plus) => Ok(Some(Token::Plus)),
        Ok(t) => {
            ts.return_token(t);
            Ok(None)
        },
    }
}

/// The tree of a character class. Classes are not read yet: the tree is
/// empty and the stream stays as it is.
pub fn parse_character_class(ts: &mut TokenStream) -> (res: Ast)
    ensures
        res@ == AstModel::Epsilon,
        *final(ts) == *old(ts),
{
    Ast::Epsilon
}

/// Parses a regular expression from the token stream.
pub fn parse_regexp(ts: &mut TokenStream, term: &[char]) -> (res: Result<Ast, ParseError>)
    ensures
        (ast_view(res), final(ts)@) == parse_regexp_spec(old(ts)@),
        weight(final(ts)@) <= weight(old(ts)@),
    decreases weight(old(ts)@), 4nat,
{
    parse_union(ts, term)
}

/// Parses a concatenation and, behind a `|`, another union.
pub fn parse_union(ts: &mut TokenStream, term: &[char]) -> (res: Result<Ast, ParseError>)
    ensures
        (ast_view(res), final(ts)@) == parse_union_spec(old(ts)@),
        weight(final(ts)@) <= weight(old(ts)@),
    decreases weight(old(ts)@), 3nat,
{
    let left = match parse_concat(ts, term) {
        Ok(l) => l,
        Err(e) => {
            return Err(e);
        },
    };
    proof {
        lemma_next_token_shrinks(ts@);
    }
    match ts.next_token() {
        Err(e) => Err(e),
        Ok(Token::Bar) => {
            match parse_union(ts, term) {
                Ok(right) => Ok(Ast::Union(Box::new(left), Box::new(right))),
                Err(e) => Err(e),
            }
        },
        Ok(_) => Ok(left),
    }
}

/// Parses two factors, one after the other.
pub fn parse_concat(ts: &mut TokenStream, term: &[char]) -> (res: Result<Ast, ParseError>)
    ensures
        (ast_view(res), final(ts)@) == parse_concat_spec(old(ts)@),
        weight(final(ts)@) <= weight(old(ts)@),
    decreases weight(old(ts)@), 2nat,
{
    let first = match parse_factor(ts, term) {
        Ok(f) => f,
        Err(e) => {
            return Err(e);
        },
    };
    match parse_factor(ts, term) {
        Ok(right) => Ok(Ast::Conc(Box::new(first), Box::new(right))),
        Err(e) => Err(e),
    }
}

/// Parses the factor that starts with the next token.
pub fn parse_factor(ts: &mut TokenStream, term: &[char]) -> (res: Result<Ast, ParseError>)
    ensures
        (ast_view(res), final(ts)@) == parse_factor_spec(old(ts)@),
        weight(final(ts)@) <= weight(old(ts)@),
    decreases weight(old(ts)@), 1nat,
{
    proof {
        lemma_next_token_shrinks(ts@);
    }
    let tok = match ts.next_token() {
        Ok(t) => t,
        Err(e) => {
            return Err(e);
        },
    };
    parse_factor_token(ts, tok, term)
}

/// Parses the factor that starts with the token `tok`, which was taken already.
pub fn parse_factor_token(ts: &mut TokenStream, tok: Token, term: &[char]) -> (res: Result<
    Ast,
    ParseError,
>)
    ensures
        (ast_view(res), final(ts)@) == parse_factor_token_spec(old(ts)@, tok@),
        weight(final(ts)@) <= weight(old(ts)@),
    decreases weight(old(ts)@) + (if tok@ is LParen { 1nat } else { 0nat }), 0nat,
{
    proof {
        reveal_with_fuel(Ast::model, 2);
    }
    let pre = match tok {
        Token::LParen => {
            let e = match parse_regexp(ts, term) {
                Ok(e) => e,
                Err(x) => {
                    return Err(x);
                },
            };
            match match_next_token(ts, Token::RParen, term) {
                Ok(_) => {},
                Err(x) => {
                    return Err(x);
                },
            }
            e
        },
        Token::LBrack => parse_character_class(ts),
        Token::Id(s) => Ast::Symb(s),
        Token::String(s) => Ast::Str(s),
        _ => Ast::Epsilon,
    };
    match trailing_closure(ts) {
        Err(e) => Err(e),
        Ok(Some(Token::Asterisk)) => Ok(Ast::Star(Box::new(pre))),
        Ok(Some(Token::Plus)) => Ok(Ast::OnePlus(Box::new(pre))),
        Ok(_) => Ok(pre),
    }
}

} // verus!
