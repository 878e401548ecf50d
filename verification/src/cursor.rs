//! The character cursor of the lexer: a peekable walk over the characters of a source text
//! that measures the current token in bytes and collects the finished tokens.
use vstd::prelude::*;
use vstd::utf8::{encode_scalar, encode_utf8};

verus! {

/// What `first` and `second` give back past the end of the input.
pub const EOF_CHAR: char = '\0';

/// The kind of a token, as far as the cursor deals with it: the placeholder of a `define`
/// that is not finished yet, a finished `define` that ends before token `end`, and every
/// other kind of the lexer by its number.
#[derive(Clone, Copy, Debug, PartialEq, Eq, Structural)]
pub enum TokenKind {
    Define { end: usize },
    IllegalDefine,
    Other { code: u16 },
}

/// A finished token: its kind and its length in bytes.
#[derive(Clone, Copy, Debug, PartialEq, Eq, Structural)]
pub struct Token {
    pub kind: TokenKind,
    pub len: u32,
}

/// The length in bytes of the UTF-8 encoding of `s`.
pub open spec fn text_len(s: Seq<char>) -> nat {
    encode_utf8(s).len()
}

/// The length in bytes of the UTF-8 encoding of `c`.
pub open spec fn char_len(c: char) -> nat {
    encode_scalar(c as u32).len()
}

/// The encoding of a text followed by another is as long as both encodings.
proof fn lemma_text_len_concat(a: Seq<char>, b: Seq<char>)
    ensures
        text_len(a + b) == text_len(a) + text_len(b),
    decreases a.len(),
{
    if a.len() > 0 {
        assert((a + b).drop_first() == a.drop_first() + b);
        lemma_text_len_concat(a.drop_first(), b);
    } else {
        assert(a + b == b);
    }
}

/// The encoding of a text is that of its first character followed by that of the rest.
proof fn lemma_text_len_first(s: Seq<char>)
    requires
        s.len() > 0,
    ensures
        text_len(s) == char_len(s[0]) + text_len(s.drop_first()),
{
}

/// The length in bytes of the UTF-8 encoding of `c`.
fn utf8_width(c: char) -> (r: u32)
    ensures
        r == char_len(c),
        1 <= r <= 4,
{
    let v = c as u32;
    if v < 0x80 {
        1
    } else if v < 0x800 {
        2
    } else if v < 0x10000 {
        3
    } else {
        4
    }
}

/// A peekable walk over the characters of a text. Characters are looked at with `first`
/// and `second` and consumed with `bump`; `finish_token` closes the token made of what was
/// consumed since the last token and records it.
pub struct Cursor {
    chars: Vec<char>,
    pos: usize,
    rest_len: u32,
    len_remaining: u32,
    token_start: Ghost<int>,
    prev: char,
    dst: Vec<Token>,
    marker: Option<usize>,
}

impl Cursor {
    /// The whole text that the cursor walks over.
    pub closed spec fn text(&self) -> Seq<char> {
        self.chars@
    }

    /// The number of characters consumed so far.
    pub closed spec fn consumed(&self) -> int {
        self.pos as int
    }

    /// Where the current token begins, in characters.
    pub closed spec fn token_begin(&self) -> int {
        self.token_start@
    }

    /// The characters not consumed yet.
    pub open spec fn rest(&self) -> Seq<char> {
        self.text().subrange(self.consumed(), self.text().len() as int)
    }

    /// The characters of the current token consumed so far.
    pub open spec fn token_text(&self) -> Seq<char> {
        self.text().subrange(self.token_begin(), self.consumed())
    }

    /// The tokens finished so far.
    pub closed spec fn tokens(&self) -> Seq<Token> {
        self.dst@
    }

    /// The index of the token that opened a `define` not finished yet.
    pub closed spec fn spec_marker(&self) -> Option<usize> {
        self.marker
    }

    /// The last character consumed, or `EOF_CHAR` when none was.
    pub open spec fn spec_prev(&self) -> char {
        if self.consumed() == 0 {
            EOF_CHAR
        } else {
            self.text()[self.consumed() - 1]
        }
    }

    /// The cursor is well formed: its counters agree with the text.
    pub closed spec fn wf(&self) -> bool {
        &&& self.pos <= self.chars@.len()
        &&& 0 <= self.token_start@ <= self.pos
        &&& self.rest_len == text_len(self.chars@.subrange(self.pos as int, self.chars@.len() as int))
        &&& self.len_remaining == text_len(self.chars@.subrange(self.token_start@, self.chars@.len() as int))
        &&& self.prev == (if self.pos == 0 {
            EOF_CHAR
        } else {
            self.chars@[self.pos - 1]
        })
        &&& self.marker matches Some(m) ==> m <= self.dst@.len()
    }

    /// A cursor at the start of `input`, with no token finished.
    pub fn new(input: &str) -> (r: Cursor)
        requires
            text_len(input@) <= u32::MAX,
        ensures
            r.wf(),
            r.text() == input@,
            r.consumed() == 0,
            r.token_begin() == 0,
            r.tokens() == Seq::<Token>::empty(),
            r.spec_marker() is None,
    {
        broadcast use vstd::string::group_string_axioms;

        let mut chars: Vec<char> = Vec::new();
        for c in it: input.chars()
            invariant
                chars@ == it.seq().take(it.index() as int),
        {
            chars.push(c);
        }
        proof {
            assert(chars@ == input@);
            assert(chars@.subrange(0, chars@.len() as int) == chars@);
        }
        let n = input.len() as u32;
        Cursor {
            chars,
            pos: 0,
            rest_len: n,
            len_remaining: n,
            token_start: Ghost(0),
            prev: EOF_CHAR,
            dst: Vec::new(),
            marker: None,
        }
    }

    /// The last character consumed, or `EOF_CHAR` when none was.
    pub fn prev(&self) -> (r: char)
        requires
            self.wf(),
        ensures
            r == self.spec_prev(),
    {
        self.prev
    }

    /// The next character, without consuming it; `EOF_CHAR` at the end of the text.
    pub fn first(&self) -> (r: char)
        requires
            self.wf(),
        ensures
            r == (if self.rest().len() > 0 {
                self.rest()[0]
            } else {
                EOF_CHAR
            }),
    {
        if self.pos < self.chars.len() {
            self.chars[self.pos]
        } else {
            EOF_CHAR
        }
    }

    /// The character after the next one, without consuming anything; `EOF_CHAR` where the
    /// text ends before it.
    pub fn second(&self) -> (r: char)
        requires
            self.wf(),
        ensures
            r == (if self.rest().len() > 1 {
                self.rest()[1]
            } else {
                EOF_CHAR
            }),
    {
        if self.chars.len() - self.pos > 1 {
            self.chars[self.pos + 1]
        } else {
            EOF_CHAR
        }
    }

    /// Nothing is left to consume.
    pub fn is_eof(&self) -> (r: bool)
        requires
            self.wf(),
        ensures
            r == (self.rest().len() == 0),
    {
        self.pos == self.chars.len()
    }

    /// The length in bytes of what the current token has consumed.
    pub fn pos_within_token(&self) -> (r: u32)
        requires
            self.wf(),
        ensures
            r == text_len(self.token_text()),
    {
        proof {
            let t = self.chars@;
            lemma_text_len_concat(
                t.subrange(self.token_start@, self.pos as int),
                t.subrange(self.pos as int, t.len() as int),
            );
            assert(t.subrange(self.token_start@, self.pos as int) + t.subrange(self.pos as int, t.len() as int) == t.subrange(
                self.token_start@,
                t.len() as int,
            ));
        }
        self.len_remaining - self.rest_len
    }

    /// Start the next token where the cursor stands.
    pub fn reset_pos_within_token(&mut self)
        requires
            old(self).wf(),
        ensures
            final(self).wf(),
            final(self).text() == old(self).text(),
            final(self).consumed() == old(self).consumed(),
            final(self).token_begin() == old(self).consumed(),
            final(self).tokens() == old(self).tokens(),
            final(self).spec_marker() == old(self).spec_marker(),
    {
        self.len_remaining = self.rest_len;
        self.token_start = Ghost(self.pos as int);
    }

    /// Consume the next character and hand it out; `None`, with nothing changed, at the
    /// end of the text.
    pub fn bump(&mut self) -> (r: Option<char>)
        requires
            old(self).wf(),
        ensures
            final(self).wf(),
            final(self).text() == old(self).text(),
            final(self).token_begin() == old(self).token_begin(),
            final(self).tokens() == old(self).tokens(),
            final(self).spec_marker() == old(self).spec_marker(),
            old(self).rest().len() == 0 ==> r is None && final(self).consumed() == old(self).consumed(),
            old(self).rest().len() > 0 ==> r == Some(old(self).rest()[0]) && final(self).consumed() == old(self).consumed() + 1
                && final(self).token_text() == old(self).token_text().push(old(self).rest()[0]),
    {
        if self.pos == self.chars.len() {
            return None;
        }
        let c = self.chars[self.pos];
        let w = utf8_width(c);
        proof {
            let t = self.chars@;
            let rest = t.subrange(self.pos as int, t.len() as int);
            lemma_text_len_first(rest);
            assert(rest.drop_first() == t.subrange(self.pos + 1, t.len() as int));
        }
        self.rest_len = self.rest_len - w;
        self.pos = self.pos + 1;
        self.prev = c;
        Some(c)
    }

    /// Close the current token with kind `kind`: record it with the length in bytes of what
    /// it consumed, and start the next token where the cursor stands.
    pub fn finish_token(&mut self, kind: TokenKind)
        requires
            old(self).wf(),
        ensures
            final(self).wf(),
            final(self).text() == old(self).text(),
            final(self).consumed() == old(self).consumed(),
            final(self).token_begin() == old(self).consumed(),
            final(self).tokens() == old(self).tokens().push(Token { kind, len: text_len(old(self).token_text()) as u32 }),
            final(self).spec_marker() == old(self).spec_marker(),
    {
        let len = self.pos_within_token();
        self.reset_pos_within_token();
        self.dst.push(Token { kind, len });
    }

    /// Open a `define`: remember the index of the next token, unless a `define` is open
    /// already (they do not nest). The kind handed back is the placeholder that the next
    /// token carries until the `define` is finished.
    pub fn set_marker(&mut self) -> (r: TokenKind)
        requires
            old(self).wf(),
        ensures
            final(self).wf(),
            r == TokenKind::IllegalDefine,
            final(self).text() == old(self).text(),
            final(self).consumed() == old(self).consumed(),
            final(self).token_begin() == old(self).token_begin(),
            final(self).tokens() == old(self).tokens(),
            final(self).spec_marker() == (if old(self).spec_marker() is None {
                Some(old(self).tokens().len() as usize)
            } else {
                old(self).spec_marker()
            }),
    {
        if self.marker.is_none() {
            self.marker = Some(self.dst.len());
        }
        TokenKind::IllegalDefine
    }

    /// Finish the open `define`, if any: its token becomes a `define` that ends before the
    /// next token. Tells whether a `define` was open.
    pub fn finish_marker(&mut self) -> (r: bool)
        requires
            old(self).wf(),
            old(self).spec_marker() matches Some(m) ==> m < old(self).tokens().len(),
        ensures
            final(self).wf(),
            r == old(self).spec_marker() is Some,
            final(self).text() == old(self).text(),
            final(self).consumed() == old(self).consumed(),
            final(self).token_begin() == old(self).token_begin(),
            final(self).spec_marker() is None,
            final(self).tokens() == (match old(self).spec_marker() {
                Some(m) => old(self).tokens().update(
                    m as int,
                    Token { kind: TokenKind::Define { end: old(self).tokens().len() as usize }, len: old(self).tokens()[m as int].len },
                ),
                None => old(self).tokens(),
            }),
    {
        match self.marker.take() {
            Some(m) => {
                let end = self.dst.len();
                let len = self.dst[m].len;
                self.dst.set(m, Token { kind: TokenKind::Define { end }, len });
                true
            },
            None => false,
        }
    }

    /// The finished tokens, after finishing the open `define`, if any.
    pub fn finish(self) -> (r: Vec<Token>)
        requires
            self.wf(),
            self.spec_marker() matches Some(m) ==> m < self.tokens().len(),
        ensures
            r@ == (match self.spec_marker() {
                Some(m) => self.tokens().update(
                    m as int,
                    Token { kind: TokenKind::Define { end: self.tokens().len() as usize }, len: self.tokens()[m as int].len },
                ),
                None => self.tokens(),
            }),
    {
        let mut c = self;
        c.finish_marker();
        c.dst
    }
}

} // verus!
