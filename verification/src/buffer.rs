use vstd::prelude::*;
use crate::chars::{is_whitespace, leading_whitespace, whitespace};

verus! {

/// A position in the input.
pub struct Pos {
    /// line number (starting at 1)
    pub line: usize,
    /// column number (starting at 0)
    pub col: usize,
}

impl Pos {
    /// The position of the first character.
    pub fn start() -> (res: Pos)
        ensures
            res.line == 1,
            res.col == 0,
    {
        Pos { line: 1, col: 0 }
    }

    /// Moves past `c`: to the start of the next line after a line feed, one
    /// column on after any other character.
    pub fn next(&mut self, c: char)
        requires
            c == '\n' ==> old(self).line < usize::MAX,
            c != '\n' ==> old(self).col < usize::MAX,
        ensures
            c == '\n' ==> final(self).line == old(self).line + 1 && final(self).col == 0,
            c != '\n' ==> final(self).line == old(self).line && final(self).col == old(self).col + 1,
    {
        if c == '\n' {
            self.line += 1;
            self.col = 0;
        } else {
            self.col += 1;
        }
    }
}

/// An index into the characters of the input.
pub type CharPos = usize;

/// What a lookahead buffer holds, as mathematical values.
pub struct BufferModel {
    /// The character that was handed back, if one is waiting.
    pub lookahead: Option<char>,
    /// The characters of the input that were not taken yet.
    pub unread: Seq<char>,
    /// How many characters were taken and not handed back.
    pub pos: nat,
    /// The length of the input in bytes.
    pub size: usize,
}

impl BufferModel {
    /// The characters that `next_char` will give, in order.
    pub open spec fn remaining(self) -> Seq<char> {
        match self.lookahead {
            Some(c) => seq![c] + self.unread,
            None => self.unread,
        }
    }
}

/// Reads a text character by character and lets one character be handed
/// back, which is then given again as the next one.
pub struct LookaheadBuffer {
    contents: Vec<char>,
    size: usize,
    next: usize,
    peek: Option<char>,
    pos: CharPos,
}

impl View for LookaheadBuffer {
    type V = BufferModel;

    closed spec fn view(&self) -> BufferModel {
        BufferModel {
            lookahead: self.peek,
            unread: self.contents@.skip(self.next as int),
            pos: self.pos as nat,
            size: self.size,
        }
    }
}

impl LookaheadBuffer {
    #[verifier::type_invariant]
    closed spec fn inv(&self) -> bool {
        &&& self.next <= self.contents@.len()
        &&& self.pos + (if self.peek is Some { 1int } else { 0int }) <= self.next
    }

    /// A buffer at the start of `s`.
    pub fn new(s: &str) -> (res: LookaheadBuffer)
        ensures
            res@.lookahead is None,
            res@.unread == s@,
            res@.pos == 0,
            res@.size == s.len(),
    {
        let mut contents: Vec<char> = Vec::new();
        for c in it: s.chars()
            invariant
                it.seq() == s@,
                contents@ == s@.take(it.index() as int),
        {
            contents.push(c);
        }
        let res = LookaheadBuffer { contents: contents, size: s.len(), next: 0, peek: None, pos: 0 };
        res
    }

    /// The length of the input in bytes.
    pub fn len(&self) -> (res: usize)
        ensures
            res == self@.size,
    {
        self.size
    }

    /// How many characters were taken and not handed back.
    pub fn pos(&self) -> (res: CharPos)
        ensures
            res == self@.pos,
    {
        self.pos
    }

    /// The character that was handed back if one is waiting, else the next
    /// one of the input.
    fn get_next_char(&mut self) -> (res: Option<char>)
        ensures
            final(self)@.pos == old(self)@.pos,
            final(self)@.size == old(self)@.size,
            final(self)@.lookahead is None,
            match res {
                Some(c) => old(self)@.remaining().len() > 0 && c == old(self)@.remaining()[0]
                    && final(self)@.unread == old(self)@.remaining().drop_first()
                    && final(self).pos < final(self).next,
                None => old(self)@.remaining().len() == 0 && final(self)@.unread.len() == 0,
            },
    {
        proof {
            use_type_invariant(&*self);
        }
        match self.peek {
            None => {
                if self.next < self.contents.len() {
                    let c = self.contents[self.next];
                    self.next = self.next + 1;
                    Some(c)
                } else {
                    None
                }
            },
            Some(c) => {
                self.peek = None;
                Some(c)
            },
        }
    }

    /// Takes the next character, if there is one left.
    pub fn next_char(&mut self) -> (res: Option<char>)
        ensures
            final(self)@.size == old(self)@.size,
            final(self)@.lookahead is None,
            match res {
                Some(c) => old(self)@.remaining().len() > 0 && c == old(self)@.remaining()[0]
                    && final(self)@.unread == old(self)@.remaining().drop_first() && final(self)@.pos
                    == old(self)@.pos + 1,
                None => old(self)@.remaining().len() == 0 && final(self)@.unread.len() == 0
                    && final(self)@.pos == old(self)@.pos,
            },
    {
        let res = self.get_next_char();
        proof {
            use_type_invariant(&*self);
        }
        match res {
            Some(_) => {
                self.pos += 1;
            },
            None => (),
        }
        res
    }

    /// Hands `c` back to the buffer, to be given as the next character. A
    /// character that was handed back before and not taken since is forgotten.
    pub fn return_char(&mut self, c: char)
        requires
            old(self)@.pos > 0,
        ensures
            final(self)@.lookahead == Some(c),
            final(self)@.unread == old(self)@.unread,
            final(self)@.pos == old(self)@.pos - 1,
            final(self)@.size == old(self)@.size,
    {
        proof {
            use_type_invariant(&*self);
        }
        self.pos -= 1;
        self.peek = Some(c);
    }

    /// Takes the whitespace at the front of what is left.
    pub fn skip_whitespace(&mut self)
        ensures
            final(self)@.remaining() == old(self)@.remaining().skip(
                leading_whitespace(old(self)@.remaining()) as int,
            ),
            final(self)@.pos == old(self)@.pos + leading_whitespace(old(self)@.remaining()),
            final(self)@.size == old(self)@.size,
    {
        let ghost start = self@.remaining();
        let ghost mut k: nat = 0;
        assert(start.skip(0) =~= start);
        loop
            invariant
                k <= start.len(),
                start == old(self)@.remaining(),
                self@.remaining() == start.skip(k as int),
                self@.pos == old(self)@.pos + k,
                self@.size == old(self)@.size,
                leading_whitespace(start) == k + leading_whitespace(start.skip(k as int)),
            ensures
                leading_whitespace(start.skip(k as int)) == 0,
            decreases start.len() - k,
        {
            let ghost before = self@.remaining();
            match self.next_char() {
                None => {
                    break ;
                },
                Some(c) => {
                    if !is_whitespace(c) {
                        self.return_char(c);
                        break ;
                    }
                    proof {
                        assert(leading_whitespace(before) == 1 + leading_whitespace(
                            before.drop_first(),
                        ));
                        assert(before.drop_first() =~= start.skip(k as int + 1));
                        k = k + 1;
                    }
                },
            }
        }
    }
}

} // verus!
