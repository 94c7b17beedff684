use rslex::parser::{
    get_next_token, is_eof, match_next_string, parse_lexer_spec, parse_toplevel_block,
    read_string, read_string_after_first, skip_whitespace, Block, LookaheadBuffer, Token, EOF,
};

#[test]
fn parser_no_buffer_use() {
    let mut buffer = LookaheadBuffer::new("abcdef");
    assert!(!buffer.valid());
    assert!(buffer.next_char() == 'a');
    assert!(buffer.next_char() == 'b');
    assert!(buffer.next_char() == 'c');
    assert!(!buffer.valid());
}

#[test]
fn parser_buffer_use() {
    let mut buffer = LookaheadBuffer::new("abcdef");
    assert!(!buffer.valid());
    assert!(buffer.next_char() == 'a');
    buffer.return_char('a');
    assert!(buffer.valid());
    assert!(buffer.next_char() == 'a');
    assert!(!buffer.valid());
    assert!(buffer.next_char() == 'b');
    assert!(buffer.next_char() == 'c');
}

#[test]
fn return_other_char() {
    let mut buffer = LookaheadBuffer::new("abcdef");
    assert!(!buffer.valid());
    assert!(buffer.next_char() == 'a');
    buffer.return_char('x');
    assert!(buffer.valid());
    assert!(buffer.next_char() == 'x');
    assert!(!buffer.valid());
    assert!(buffer.next_char() == 'b');
    assert!(buffer.next_char() == 'c');
    assert!(!buffer.valid());
    buffer.return_char('c');
    assert!(buffer.valid());
    assert!(buffer.next_char() == 'c');
    assert!(!buffer.valid());
    assert!(buffer.next_char() == 'd');
    assert!(buffer.next_char() == 'e');
}

#[test]
fn return_other_char_expect_same() {
    let mut buffer = LookaheadBuffer::new("abcdef");
    assert!(!buffer.valid());
    assert!(buffer.next_char() == 'a');
    buffer.return_char('x');
    assert!(buffer.valid());
    // the character that was handed back comes out, not the one that was read
    assert!(!(buffer.next_char() == 'a'));
}

#[test]
fn read_until_eof() {
    let mut buffer = LookaheadBuffer::new("abc");
    assert!(buffer.next_char() == 'a');
    assert!(buffer.next_char() == 'b');
    assert!(buffer.next_char() == 'c');
    assert!(buffer.next_char() == EOF);
}

#[test]
fn return_char_eof() {
    let mut buffer = LookaheadBuffer::new("abc");
    assert!(buffer.next_char() == 'a');
    assert!(buffer.next_char() == 'b');
    assert!(buffer.next_char() == 'c');
    assert!(buffer.next_char() == EOF);
    buffer.return_char(EOF);
    assert!(buffer.valid());
    assert!(buffer.next_char() == EOF);
}

#[test]
fn parser_test_skip_ws() {
    let mut buffer = LookaheadBuffer::new("   abc   ");
    skip_whitespace(&mut buffer);
    assert!(buffer.next_char() == 'a');
    skip_whitespace(&mut buffer);
    assert!(buffer.next_char() == 'b');
    skip_whitespace(&mut buffer);
    assert!(buffer.next_char() == 'c');
    skip_whitespace(&mut buffer);
    assert!(is_eof(buffer.next_char()));
}

#[test]
fn test_read_string() {
    let mut b1 = LookaheadBuffer::new("aussonderungsaxiom   ");
    assert!(read_string(&mut b1) == "aussonderungsaxiom");

    let mut b2 = LookaheadBuffer::new("");
    assert!(read_string(&mut b2) == "");

    let mut buffer = LookaheadBuffer::new("hombas   ");
    assert!(read_string_after_first(&mut buffer, 's') == "shombas");

    let mut buffer2 = LookaheadBuffer::new(" or die ");
    assert!(read_string_after_first(&mut buffer2, 'b') == "b");
}

#[test]
fn test_parse_toplevel() {
    let mut b1 = LookaheadBuffer::new("   rules { }   ");
    assert_eq!(parse_toplevel_block(&mut b1), Some(Block::Rules));

    let mut b2 = LookaheadBuffer::new("shwemba { }   ");
    assert_eq!(parse_toplevel_block(&mut b2), None);

    let mut b3 = LookaheadBuffer::new("defs { ausmaus }   ");
    assert_eq!(parse_toplevel_block(&mut b3), Some(Block::Defs));
}

#[test]
fn lexer_spec_opens_with_code() {
    assert_eq!(parse_lexer_spec("\n code {}"), Some(Block::Code));
    assert_eq!(parse_lexer_spec(""), None);
}

#[test]
fn next_token_is_brace_or_end() {
    let mut b1 = LookaheadBuffer::new("{   x");
    assert_eq!(*get_next_token(&mut b1), Token::LBrace);
    assert!(b1.next_char() == 'x');

    let mut b2 = LookaheadBuffer::new("=  y");
    assert_eq!(*get_next_token(&mut b2), Token::Eof);
    assert!(b2.next_char() == 'y');

    let mut b3 = LookaheadBuffer::new("");
    assert_eq!(*get_next_token(&mut b3), Token::Eof);
}

#[test]
fn next_word_is_compared() {
    let mut b1 = LookaheadBuffer::new("rules {");
    assert!(match_next_string(&mut b1, &"rules".to_string()));
    assert!(b1.next_char() == ' ');
    let mut b2 = LookaheadBuffer::new("rulesx {");
    assert!(!match_next_string(&mut b2, &"rules".to_string()));
}
