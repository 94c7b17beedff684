use rslex::buffer::LookaheadBuffer;
use rslex::regexp::Token::{
    Asterisk, Bar, Dash, End, Eof, Error, Id, LBrack, LParen, RBrack, RParen,
};
use rslex::regexp::{parse_regexp, Ast, ParseError, Token, TokenStream};

#[test]
fn test_parse_string_ts() {
    let term = [','];
    let b1 = LookaheadBuffer::new("abc'* ");
    let mut ts1 = TokenStream::new(b1, &term);
    assert_eq!(ts1.parse_string('\'').unwrap(), "abc");
    assert_eq!(ts1.buffer.next_char(), Some('*'));

    let b2 = LookaheadBuffer::new("abc'def\"  ");
    let mut ts2 = TokenStream::new(b2, &term);
    assert_eq!(ts2.parse_string('"').unwrap(), "abc'def");
    assert_eq!(ts2.buffer.next_char(), Some(' '));
}

#[test]
fn unclosed_string_ts() {
    let term = [','];
    let b1 = LookaheadBuffer::new("abc'def  ");
    let mut ts1 = TokenStream::new(b1, &term);
    let res = ts1.parse_string('"');
    assert_ne!(res, Ok("abc'def".to_string()));
    assert_eq!(res, Err(ParseError::UnclosedString('"')));
}

#[test]
fn test_parse_id_ts() {
    let term = [','];
    let b1 = LookaheadBuffer::new("abc'* ");
    let mut ts1 = TokenStream::new(b1, &term);
    assert_eq!(ts1.parse_id('x'), "xabc");
    assert_eq!(ts1.buffer.next_char(), Some('\''));

    let b2 = LookaheadBuffer::new("bc_def   ");
    let mut ts2 = TokenStream::new(b2, &term);
    assert_eq!(ts2.parse_id('a'), "abc_def");

    let b3 = LookaheadBuffer::new("_times|'xy')*   ");
    let mut ts3 = TokenStream::new(b3, &term);
    assert_eq!(ts3.parse_id('n'), "n_times");
    assert_eq!(ts3.buffer.next_char(), Some('|'));

    let b4 = LookaheadBuffer::new(" +xy)*   ");
    let mut ts4 = TokenStream::new(b4, &term);
    assert_eq!(ts4.parse_id('n'), "n");
    assert_eq!(ts4.buffer.next_char(), Some(' '));
    assert_eq!(ts4.buffer.next_char(), Some('+'));
    assert_eq!(ts4.buffer.next_char(), Some('x'));
    assert_eq!(ts4.parse_id('x'), "xy");
}

#[test]
fn test_next_token_raw() {
    let term = [','];
    let b1 = LookaheadBuffer::new("'return'");
    let mut ts1 = TokenStream::new(b1, &term);
    assert_eq!(ts1.next_token(), Ok(Token::String("return".to_string())));

    let b2 = LookaheadBuffer::new("return");
    let mut ts2 = TokenStream::new(b2, &term);
    assert_eq!(ts2.next_token(), Ok(Id("return".to_string())));
    ts2.return_token(Id("return".to_string()));
    assert_eq!(ts2.next_token(), Ok(Id("return".to_string())));
    assert_eq!(ts2.next_token(), Ok(Eof));

    let b3 = LookaheadBuffer::new("(['a'-'z'])(['A'-'Z'])*");
    let mut ts3 = TokenStream::new(b3, &term);
    assert_eq!(ts3.next_token(), Ok(LParen));
    assert_eq!(ts3.next_token(), Ok(LBrack));
    assert_eq!(ts3.next_token(), Ok(Token::String("a".to_string())));
    assert_eq!(ts3.next_token(), Ok(Dash));
    assert_eq!(ts3.next_token(), Ok(Token::String("z".to_string())));
    assert_eq!(ts3.next_token(), Ok(RBrack));
    assert_eq!(ts3.next_token(), Ok(RParen));
    assert_eq!(ts3.next_token(), Ok(LParen));

    assert_eq!(ts3.peek, None);
    ts3.return_token(LParen);
    assert!(!ts3.peek.is_none());
    assert_eq!(ts3.next_token(), Ok(LParen));
    assert_eq!(ts3.peek, None);

    assert_eq!(ts3.next_token(), Ok(LBrack));
    assert_eq!(ts3.next_token(), Ok(Token::String("A".to_string())));
    assert_eq!(ts3.next_token(), Ok(Dash));
    assert_eq!(ts3.next_token(), Ok(Token::String("Z".to_string())));
    assert_eq!(ts3.next_token(), Ok(RBrack));
    assert_eq!(ts3.next_token(), Ok(RParen));
    assert_eq!(ts3.next_token(), Ok(Asterisk));
    assert_eq!(ts3.next_token(), Ok(Eof));

    let b4 = LookaheadBuffer::new("letter \t (letter | digit)*,");
    let mut ts4 = TokenStream::new(b4, &term);
    assert_eq!(ts4.next_token(), Ok(Id("letter".to_string())));
    assert_eq!(ts4.next_token(), Ok(LParen));
    assert_eq!(ts4.next_token(), Ok(Id("letter".to_string())));
    assert_eq!(ts4.next_token(), Ok(Bar));
    assert_eq!(ts4.next_token(), Ok(Id("digit".to_string())));
    assert_eq!(ts4.next_token(), Ok(RParen));
    assert_eq!(ts4.next_token(), Ok(Asterisk));
    assert_eq!(ts4.next_token(), Ok(End));

    let b5 = LookaheadBuffer::new("let  & dig,");
    let mut ts5 = TokenStream::new(b5, &term);
    assert_eq!(ts5.next_token(), Ok(Id("let".to_string())));
    assert_eq!(ts5.next_token(), Ok(Error('&')));
}

#[test]
fn unclosed_string_is_an_error() {
    let term = [','];
    let b1 = LookaheadBuffer::new("abc'def  ");
    let mut ts1 = TokenStream::new(b1, &term);
    assert_eq!(ts1.parse_string('"'), Err(ParseError::UnclosedString('"')));
    assert_eq!(ts1.buffer.next_char(), None);

    let b2 = LookaheadBuffer::new("  'abc");
    let mut ts2 = TokenStream::new(b2, &term);
    assert_eq!(ts2.next_token(), Err(ParseError::UnclosedString('\'')));
}

#[test]
fn parse_two_factors() {
    let term = [','];
    let b = LookaheadBuffer::new("letter digit* ,");
    let mut ts = TokenStream::new(b, &term);
    let ast = parse_regexp(&mut ts, &term).unwrap();
    assert_eq!(
        ast,
        Ast::Conc(
            Box::new(Ast::Symb("letter".to_string())),
            Box::new(Ast::Star(Box::new(Ast::Symb("digit".to_string()))))
        )
    );
    assert_eq!(ts.next_token(), Ok(Eof));
}

#[test]
fn parse_union_in_parentheses() {
    let term = [','];
    // the token behind a concatenation is always taken, so the first `)`
    // goes with the union and the second one closes the group
    let b = LookaheadBuffer::new("(a b | 'x' c))+ d");
    let mut ts = TokenStream::new(b, &term);
    let ast = parse_regexp(&mut ts, &term).unwrap();
    let inner = Ast::Union(
        Box::new(Ast::Conc(
            Box::new(Ast::Symb("a".to_string())),
            Box::new(Ast::Symb("b".to_string())),
        )),
        Box::new(Ast::Conc(
            Box::new(Ast::Str("x".to_string())),
            Box::new(Ast::Symb("c".to_string())),
        )),
    );
    assert_eq!(
        ast,
        Ast::Conc(
            Box::new(Ast::OnePlus(Box::new(inner))),
            Box::new(Ast::Symb("d".to_string()))
        )
    );
}

#[test]
fn parse_missing_parenthesis() {
    let term = [','];
    let b = LookaheadBuffer::new("(a b c");
    let mut ts = TokenStream::new(b, &term);
    assert_eq!(parse_regexp(&mut ts, &term), Err(ParseError::UnexpectedToken));
}
