use rslex::buffer::LookaheadBuffer;

#[test]
fn buffer_no_buffer_use() {
    let mut buffer = LookaheadBuffer::new("abcdef");
    assert_eq!(buffer.len(), 6);
    assert_eq!(buffer.next_char(), Some('a'));
    assert_eq!(buffer.next_char(), Some('b'));
    assert_eq!(buffer.next_char(), Some('c'));
    assert_eq!(buffer.next_char(), Some('d'));
    assert_eq!(buffer.next_char(), Some('e'));
    assert_eq!(buffer.next_char(), Some('f'));
    assert_eq!(buffer.next_char(), None);
}

#[test]
fn no_buffer_use_iterator() {
    let mut iter = "abcdef".chars().peekable();
    assert_eq!(iter.next(), Some('a'));
    assert_eq!(iter.next(), Some('b'));

    match iter.peek() {
        None => panic!("Should not be none"),
        Some(c) => assert_eq!(*c, 'c'),
    }

    assert_eq!(iter.next(), Some('c'));
}

#[test]
fn buffer_use_return_variable() {
    let mut buffer = LookaheadBuffer::new("abcdef");
    assert_eq!(buffer.next_char(), Some('a'));
    let c = match buffer.next_char() {
        None => panic!("Should not be none"),
        Some(ch) => ch,
    };

    assert_eq!(c, 'b');

    buffer.return_char(c);

    assert_eq!(buffer.next_char(), Some('b'));
}

#[test]
fn buffer_buffer_use() {
    let mut buffer = LookaheadBuffer::new("abcdef");
    assert_eq!(buffer.next_char(), Some('a'));
    buffer.return_char('a');
    assert_eq!(buffer.next_char(), Some('a'));
    assert_eq!(buffer.next_char(), Some('b'));
    assert_eq!(buffer.next_char(), Some('c'));
    buffer.return_char('c');
    assert_eq!(buffer.next_char(), Some('c'));
    assert_eq!(buffer.next_char(), Some('d'));
    assert_eq!(buffer.next_char(), Some('e'));
    assert_eq!(buffer.next_char(), Some('f'));
    assert_eq!(buffer.next_char(), None);
    buffer.return_char('f');
    assert_eq!(buffer.next_char(), Some('f'));
    assert_eq!(buffer.next_char(), None);
    assert_eq!(buffer.next_char(), None);
}

#[test]
fn buffer_test_skip_ws() {
    let mut buffer = LookaheadBuffer::new("   abc   ");
    buffer.skip_whitespace();
    assert_eq!(buffer.next_char(), Some('a'));
    buffer.skip_whitespace();
    assert_eq!(buffer.next_char(), Some('b'));
    buffer.skip_whitespace();
    assert_eq!(buffer.next_char(), Some('c'));
    buffer.skip_whitespace();
    assert_eq!(buffer.next_char(), None);
}

#[test]
fn position() {
    let mut buffer = LookaheadBuffer::new("   abc   ");
    assert_eq!(buffer.pos(), 0);
    buffer.skip_whitespace();
    assert_eq!(buffer.pos(), 3);
    assert_eq!(buffer.next_char(), Some('a'));
    assert_eq!(buffer.pos(), 4);
    assert_eq!(buffer.next_char(), Some('b'));
    assert_eq!(buffer.pos(), 5);
    assert_eq!(buffer.next_char(), Some('c'));
    assert_eq!(buffer.pos(), 6);
    buffer.return_char('c');
    assert_eq!(buffer.pos(), 5);
    assert_eq!(buffer.next_char(), Some('c'));
    assert_eq!(buffer.pos(), 6);
    buffer.skip_whitespace();
    assert_eq!(buffer.pos(), 9);
}
