//! A character-level lexer for dgen text that reports byte positions. The parser does not use
//! it; it splits text into coarse tokens for tools that only need delimiters, numbers and
//! names.

use vstd::prelude::*;
use crate::text::{byte_offsets, byte_len, char_is_whitespace, chars_of, copy_chars, is_whitespace, string_from_chars};
use crate::scan::{line_end, lemma_line_end, ws_end};

verus! {

/// The kinds of brackets.
#[derive(Debug, PartialEq, Eq, Clone, Copy, Structural)]
pub enum Delimiter {
    Paren,
    CurlyBrace,
    SquareBracket,
}

/// A token, with the text it was read from where it has one.
#[derive(Debug, PartialEq)]
pub enum Token {
    NumberLiteral(String),
    BooleanLiteral(String),
    StringDelimiter(String),
    StringLiteralBytes(String),
    Comment(String),
    OpenDelimiter(Delimiter),
    CloseDelimiter(Delimiter),
    RightSkinnyArrow,
    Semicolon,
    Comma,
    Period,
    UnaryMinus,
    UnaryPlus,
    Ident(String),
}

/// Text that cannot be split into tokens.
#[derive(Debug, Clone, PartialEq)]
pub enum LexicalError {
    UnexpectedEof,
    UnexpectedCharacter(char),
}

/// The characters of a text with their byte positions, read one at a time with one character
/// of lookahead; remembers the position of the last character read.
pub struct CharIter {
    chars: Vec<char>,
    offsets: Vec<usize>,
    index: usize,
    position: usize,
}

impl CharIter {
    pub closed spec fn wf(&self) -> bool {
        &&& self.offsets@.len() == self.chars@.len() + 1
        &&& self.index <= self.chars@.len()
        &&& forall|i: int| 0 <= i < self.offsets@.len() ==> #[trigger] self.offsets@[i] <= self.offsets@[self.chars@.len() as int]
        &&& self.position <= self.offsets@[self.chars@.len() as int]
    }

    /// The characters not read yet.
    pub closed spec fn rest(&self) -> Seq<char> {
        self.chars@.skip(self.index as int)
    }

    /// All the characters.
    pub closed spec fn all_chars(&self) -> Seq<char> {
        self.chars@
    }

    /// The byte offset of each character position.
    pub closed spec fn all_offsets(&self) -> Seq<usize> {
        self.offsets@
    }

    /// The position of the next character to read.
    pub closed spec fn next_index(&self) -> int {
        self.index as int
    }

    /// The byte length of the text.
    pub closed spec fn text_len(&self) -> usize {
        self.offsets@[self.chars@.len() as int]
    }

    /// The byte position of the last character read (0 before any).
    pub closed spec fn last_position(&self) -> usize {
        self.position
    }

    pub fn new(input: &str) -> (it: CharIter)
        ensures
            it.wf(),
            it.rest() == input@,
            it.last_position() == 0,
            it.text_len() as nat == byte_len(input@),
            it.next_index() == 0,
            it.all_chars() == input@,
            it.all_offsets().len() == input@.len() + 1,
            forall|k: int| 0 <= k <= input@.len() ==> it.all_offsets()[k] as nat == byte_len(#[trigger] input@.take(k)),
    {
        let chars = chars_of(input);
        let bytes = input.as_bytes();
        let _n = bytes.len();
        let offsets = byte_offsets(&chars);
        proof {
            assert forall|i: int| 0 <= i < offsets@.len() implies #[trigger] offsets@[i] <= offsets@[chars@.len() as int] by {
                crate::text::lemma_byte_len_take_mono(chars@, i, chars@.len() as int);
            }
            assert(chars@.skip(0) =~= chars@);
            assert(chars@.take(chars@.len() as int) =~= chars@);
        }
        CharIter { chars, offsets, index: 0, position: 0 }
    }

    /// The next character and its byte position, without reading it.
    pub fn peek(&self) -> (r: Option<(usize, char)>)
        requires
            self.wf(),
        ensures
            self.rest().len() == 0 <==> r is None,
            r matches Some((p, c)) ==> c == self.rest()[0] && p <= self.text_len(),
            self.next_index() < self.all_chars().len() ==> r == Some((self.all_offsets()[self.next_index()], self.all_chars()[self.next_index()])),
    {
        if self.index < self.chars.len() {
            Some((self.offsets[self.index], self.chars[self.index]))
        } else {
            None
        }
    }

    /// Reads the next character; its position becomes the last position.
    pub fn next(&mut self) -> (r: Option<(usize, char)>)
        requires
            old(self).wf(),
        ensures
            final(self).wf(),
            final(self).text_len() == old(self).text_len(),
            old(self).rest().len() == 0 ==> r is None && final(self).rest() == old(self).rest()
                && final(self).last_position() == old(self).last_position(),
            old(self).rest().len() > 0 ==> (r matches Some((p, c)) && c == old(self).rest()[0]
                && final(self).rest() == old(self).rest().drop_first() && final(self).last_position() == p),
            final(self).all_chars() == old(self).all_chars(),
            final(self).all_offsets() == old(self).all_offsets(),
            old(self).next_index() < old(self).all_chars().len() ==> final(self).next_index() == old(self).next_index() + 1
                && final(self).last_position() == old(self).all_offsets()[old(self).next_index()],
            old(self).next_index() >= old(self).all_chars().len() ==> *final(self) == *old(self),
    {
        if self.index < self.chars.len() {
            let p = self.offsets[self.index];
            let c = self.chars[self.index];
            self.index = self.index + 1;
            self.position = p;
            assert(self.chars@.skip(self.index as int) =~= old(self).chars@.skip(old(self).index as int).drop_first());
            Some((p, c))
        } else {
            None
        }
    }
}

pub open spec fn is_identifier_start(c: char) -> bool {
    ('a' <= c <= 'z') || ('A' <= c <= 'Z') || c == '_'
}

/// Whether `take_while` with the predicate `pred` takes `c` (0: not a newline, 1: a decimal
/// digit, 2: not whitespace).
pub open spec fn takes(pred: u8, c: char) -> bool {
    if pred == 0 {
        c != '\n'
    } else if pred == 1 {
        '0' <= c <= '9'
    } else {
        !is_whitespace(c)
    }
}

/// The first position at or after `k` whose character `pred` does not take (or the length).
pub open spec fn take_end(cs: Seq<char>, k: int, pred: u8) -> int
    decreases cs.len() - k,
{
    if 0 <= k < cs.len() && takes(pred, cs[k]) {
        take_end(cs, k + 1, pred)
    } else {
        k
    }
}

proof fn lemma_take_end(cs: Seq<char>, k: int, pred: u8)
    requires
        0 <= k <= cs.len(),
    ensures
        k <= take_end(cs, k, pred) <= cs.len(),
    decreases cs.len() - k,
{
    if k < cs.len() && takes(pred, cs[k]) {
        lemma_take_end(cs, k + 1, pred);
    }
}

/// The first position at or after `k`, below `lim`, whose byte offset is at least `x` (or `lim`).
pub open spec fn first_at_least(offs: Seq<usize>, lim: int, k: int, x: usize) -> int
    decreases lim - k,
{
    if k < 0 || k >= lim || offs[k] >= x {
        k
    } else {
        first_at_least(offs, lim, k + 1, x)
    }
}

/// The characters whose byte offsets lie from `start` up to, not including, `end`.
pub open spec fn slice_text(cs: Seq<char>, offs: Seq<usize>, start: usize, end: usize) -> Seq<char> {
    let a = first_at_least(offs, cs.len() as int, 0, start);
    let b = first_at_least(offs, cs.len() as int, a, end);
    cs.subrange(a, b)
}

/// Whether a newline lies in `cs[i..j]`.
pub open spec fn has_newline(cs: Seq<char>, i: int, j: int) -> bool {
    exists|k: int| i <= k < j && cs[k] == '\n'
}

/// A token as its kind and the characters it holds.
pub enum TokenView {
    NumberLiteral(Seq<char>),
    Comment(Seq<char>),
    Ident(Seq<char>),
    OpenDelimiter(Delimiter),
    CloseDelimiter(Delimiter),
    RightSkinnyArrow,
    Semicolon,
    Comma,
    Period,
    UnaryMinus,
    UnaryPlus,
    Unread,
}

pub open spec fn token_view(t: Token) -> TokenView {
    match t {
        Token::NumberLiteral(s) => TokenView::NumberLiteral(s@),
        Token::Comment(s) => TokenView::Comment(s@),
        Token::Ident(s) => TokenView::Ident(s@),
        Token::OpenDelimiter(d) => TokenView::OpenDelimiter(d),
        Token::CloseDelimiter(d) => TokenView::CloseDelimiter(d),
        Token::RightSkinnyArrow => TokenView::RightSkinnyArrow,
        Token::Semicolon => TokenView::Semicolon,
        Token::Comma => TokenView::Comma,
        Token::Period => TokenView::Period,
        Token::UnaryMinus => TokenView::UnaryMinus,
        Token::UnaryPlus => TokenView::UnaryPlus,
        _ => TokenView::Unread,
    }
}

/// The one-character token that `c` is, if any.
pub open spec fn single_token(c: char) -> Option<TokenView> {
    if c == '(' {
        Some(TokenView::OpenDelimiter(Delimiter::Paren))
    } else if c == ')' {
        Some(TokenView::CloseDelimiter(Delimiter::Paren))
    } else if c == '{' {
        Some(TokenView::OpenDelimiter(Delimiter::CurlyBrace))
    } else if c == '}' {
        Some(TokenView::CloseDelimiter(Delimiter::CurlyBrace))
    } else if c == '[' {
        Some(TokenView::OpenDelimiter(Delimiter::SquareBracket))
    } else if c == ']' {
        Some(TokenView::CloseDelimiter(Delimiter::SquareBracket))
    } else if c == '.' {
        Some(TokenView::Period)
    } else if c == ',' {
        Some(TokenView::Comma)
    } else if c == ';' {
        Some(TokenView::Semicolon)
    } else if c == '+' {
        Some(TokenView::UnaryPlus)
    } else {
        None
    }
}

/// What one step of the lexer gives: the end of the text, an unexpected character, or a token
/// with its start and end positions.
pub enum LexStep {
    End,
    Unexpected(char),
    Token(usize, TokenView, usize),
}

/// The step of the lexer from position `i` of `cs`, whose characters have the byte offsets
/// `offs`, when `pos` is the offset of the last character read and `nl` whether a newline was
/// skipped since the last token; with the position, last offset and newline flag after it.
/// Whitespace is skipped; a comment that is not the first thing on its line is skipped too.
pub open spec fn lex_next(cs: Seq<char>, offs: Seq<usize>, i: int, pos: usize, nl: bool) -> (LexStep, int, usize, bool)
    decreases cs.len() - i,
{
    let j = ws_end(cs, i);
    let pos1 = if j > i && j >= 1 { offs[j - 1] } else { pos };
    let first = nl || has_newline(cs, i, j);
    if i < 0 || j < i || j >= cs.len() {
        (LexStep::End, j, pos1, false)
    } else {
        let c = cs[j];
        match single_token(c) {
            Some(tv) => (LexStep::Token(offs[j], tv, offs[j]), j + 1, offs[j], false),
            None => if c == '#' {
                let k = line_end(cs, j);
                proof {
                    lemma_line_end(cs, j);
                }
                let end = offs[k - 1];
                if first {
                    (LexStep::Token(pos1, TokenView::Comment(slice_text(cs, offs, pos1, end)), end), k, end, false)
                } else if k > i {
                    lex_next(cs, offs, k, end, false)
                } else {
                    (LexStep::End, k, end, false)
                }
            } else if c == '-' {
                if j + 1 < cs.len() && cs[j + 1] == '>' {
                    (LexStep::Token(offs[j], TokenView::RightSkinnyArrow, offs[j + 1]), j + 2, offs[j + 1], false)
                } else {
                    (LexStep::Token(offs[j], TokenView::UnaryMinus, offs[j]), j + 1, offs[j], false)
                }
            } else if '0' <= c <= '9' {
                let e = take_end(cs, j, 1);
                (LexStep::Token(pos1, TokenView::NumberLiteral(slice_text(cs, offs, pos1, offs[e - 1])), offs[e - 1]), e, offs[e - 1], false)
            } else if is_identifier_start(c) {
                let e = take_end(cs, j, 2);
                (LexStep::Token(pos1, TokenView::Ident(slice_text(cs, offs, pos1, offs[e - 1])), offs[e - 1]), e, offs[e - 1], false)
            } else {
                (LexStep::Unexpected(c), j, pos1, false)
            },
        }
    }
}

/// Whether `r` is what the step `st` gives.
pub open spec fn gives(st: LexStep, r: Option<Result<Spanned, LexicalError>>) -> bool {
    match st {
        LexStep::End => r is None,
        LexStep::Unexpected(c) => r == Some(Err::<Spanned, LexicalError>(LexicalError::UnexpectedCharacter(c))),
        LexStep::Token(a, tv, b) => r matches Some(Ok((x, t, y))) && x == a && y == b && token_view(t) == tv,
    }
}

/// Splits a text into coarse tokens, each with the byte positions it spans.
pub struct Lexer {
    input: Vec<char>,
    offsets: Vec<usize>,
    char_iter: CharIter,
    is_newline: bool,
}

/// A token and the byte positions it starts and ends at.
pub type Spanned = (usize, Token, usize);

impl Lexer {
    pub closed spec fn wf(&self) -> bool {
        &&& self.char_iter.wf()
        &&& self.char_iter.chars@ == self.input@
        &&& self.char_iter.offsets@ == self.offsets@
        &&& self.offsets@.len() == self.input@.len() + 1
        &&& self.char_iter.text_len() == self.offsets@[self.input@.len() as int]
        &&& forall|i: int, j: int| 0 <= i <= j <= self.input@.len() ==> self.offsets@[i] <= self.offsets@[j]
    }

    /// The characters not read yet.
    pub closed spec fn remaining(&self) -> Seq<char> {
        self.char_iter.rest()
    }

    /// The whole text.
    pub closed spec fn text(&self) -> Seq<char> {
        self.input@
    }

    /// The byte offset of each character position of the text.
    pub closed spec fn byte_offsets_view(&self) -> Seq<usize> {
        self.offsets@
    }

    /// The position of the next character to read, the byte offset of the last character read,
    /// and whether a newline was skipped since the last token.
    pub closed spec fn state(&self) -> (int, usize, bool) {
        (self.char_iter.index as int, self.char_iter.position, self.is_newline)
    }

    pub fn new(input: &str) -> (l: Lexer)
        ensures
            l.wf(),
            l.remaining() == input@,
            l.text() == input@,
            l.byte_offsets_view().len() == input@.len() + 1,
            forall|k: int| 0 <= k <= input@.len() ==> l.byte_offsets_view()[k] as nat == byte_len(#[trigger] input@.take(k)),
            l.state() == (0int, 0usize, false),
    {
        let cs = chars_of(input);
        let bytes = input.as_bytes();
        let _n = bytes.len();
        let offsets = byte_offsets(&cs);
        let it = CharIter::new(input);
        proof {
            assert forall|i: int, j: int| 0 <= i <= j <= cs@.len() implies offsets@[i] <= offsets@[j] by {
                crate::text::lemma_byte_len_take_mono(cs@, i, j);
            }
            assert(cs@.take(cs@.len() as int) =~= cs@);
            assert(it.chars@ =~= cs@);
            assert(it.offsets@ =~= offsets@) by {
                assert forall|k: int| 0 <= k < offsets@.len() implies it.offsets@[k] == offsets@[k] by {
                    assert(it.offsets@[k] as nat == byte_len(input@.take(k)));
                }
            }
        }
        Lexer { input: cs, offsets, char_iter: it, is_newline: false }
    }

    /// The text between two byte positions, which must be character boundaries.
    fn slice(&self, start: usize, end: usize) -> (s: String)
        requires
            self.wf(),
        ensures
            s@ == slice_text(self.input@, self.offsets@, start, end),
    {
        let ghost n = self.input@.len() as int;
        let mut a: usize = 0;
        while a < self.input.len() && self.offsets[a] < start
            invariant
                self.wf(),
                a <= self.input@.len(),
                n == self.input@.len(),
                first_at_least(self.offsets@, n, a as int, start) == first_at_least(self.offsets@, n, 0, start),
            decreases self.input@.len() - a,
        {
            a = a + 1;
        }
        let mut b: usize = a;
        while b < self.input.len() && self.offsets[b] < end
            invariant
                self.wf(),
                a <= b <= self.input@.len(),
                n == self.input@.len(),
                a as int == first_at_least(self.offsets@, n, 0, start),
                first_at_least(self.offsets@, n, b as int, end) == first_at_least(self.offsets@, n, a as int, end),
            decreases self.input@.len() - b,
        {
            b = b + 1;
        }
        string_from_chars(copy_chars(self.input.as_slice(), a, b).as_slice())
    }

    /// Skips whitespace, noting whether a newline was among it.
    fn skip_whitespace(&mut self)
        requires
            old(self).wf(),
        ensures
            final(self).wf(),
            final(self).char_iter.rest().len() <= old(self).char_iter.rest().len(),
            final(self).input == old(self).input,
            final(self).offsets == old(self).offsets,
            final(self).char_iter.index == ws_end(old(self).input@, old(self).char_iter.index as int),
            final(self).char_iter.position == (if final(self).char_iter.index > old(self).char_iter.index {
                old(self).offsets@[final(self).char_iter.index - 1]
            } else {
                old(self).char_iter.position
            }),
            final(self).is_newline == (old(self).is_newline || has_newline(
                old(self).input@,
                old(self).char_iter.index as int,
                final(self).char_iter.index as int,
            )),
    {
        let ghost i0 = self.char_iter.index as int;
        loop
            invariant
                self.wf(),
                self.char_iter.rest().len() <= old(self).char_iter.rest().len(),
                self.input == old(self).input,
                self.offsets == old(self).offsets,
                i0 == old(self).char_iter.index,
                i0 <= self.char_iter.index,
                ws_end(self.input@, self.char_iter.index as int) == ws_end(self.input@, i0),
                self.char_iter.position == (if self.char_iter.index > i0 {
                    self.offsets@[self.char_iter.index - 1]
                } else {
                    old(self).char_iter.position
                }),
                self.is_newline == (old(self).is_newline || has_newline(self.input@, i0, self.char_iter.index as int)),
            ensures
                self.wf(),
                self.char_iter.rest().len() <= old(self).char_iter.rest().len(),
                self.input == old(self).input,
                self.offsets == old(self).offsets,
                i0 <= self.char_iter.index,
                self.char_iter.index == ws_end(self.input@, i0),
                self.char_iter.position == (if self.char_iter.index > i0 {
                    self.offsets@[self.char_iter.index - 1]
                } else {
                    old(self).char_iter.position
                }),
                self.is_newline == (old(self).is_newline || has_newline(self.input@, i0, self.char_iter.index as int)),
            decreases self.char_iter.rest().len(),
        {
            let ghost idx = self.char_iter.index as int;
            match self.char_iter.peek() {
                Some((_, c)) => {
                    if char_is_whitespace(c) {
                        if c == '\n' {
                            self.is_newline = true;
                        }
                        let _ = self.char_iter.next();
                        proof {
                            if c == '\n' {
                                assert(self.input@[idx] == '\n');
                                assert(has_newline(self.input@, i0, idx + 1));
                            } else {
                                if has_newline(self.input@, i0, idx + 1) {
                                    let k = choose|k: int| i0 <= k < idx + 1 && self.input@[k] == '\n';
                                    assert(k != idx);
                                    assert(has_newline(self.input@, i0, idx));
                                }
                                if has_newline(self.input@, i0, idx) {
                                    let k = choose|k: int| i0 <= k < idx && self.input@[k] == '\n';
                                    assert(has_newline(self.input@, i0, idx + 1));
                                }
                            }
                        }
                    } else {
                        break;
                    }
                },
                None => {
                    break;
                },
            }
        }
    }

    /// Reads characters while `pred` holds of them (0: not a newline, 1: a decimal digit,
    /// 2: not whitespace). The token starts at the position of the last character read before,
    /// and ends at the position of the last character taken.
    fn take_while(&mut self, pred: u8) -> (r: (usize, String, usize))
        requires
            old(self).wf(),
        ensures
            final(self).wf(),
            final(self).input == old(self).input,
            final(self).offsets == old(self).offsets,
            final(self).is_newline == old(self).is_newline,
            final(self).char_iter.index == take_end(old(self).input@, old(self).char_iter.index as int, pred),
            r.0 == old(self).char_iter.position,
            r.2 == (if final(self).char_iter.index > old(self).char_iter.index {
                old(self).offsets@[final(self).char_iter.index - 1]
            } else {
                old(self).char_iter.position
            }),
            final(self).char_iter.position == r.2,
            r.1@ == slice_text(old(self).input@, old(self).offsets@, r.0, r.2),
    {
        let ghost i0 = self.char_iter.index as int;
        let start = self.char_iter.position;
        let mut end = start;
        loop
            invariant
                self.wf(),
                self.input == old(self).input,
                self.offsets == old(self).offsets,
                self.is_newline == old(self).is_newline,
                i0 == old(self).char_iter.index,
                i0 <= self.char_iter.index,
                start == old(self).char_iter.position,
                take_end(self.input@, self.char_iter.index as int, pred) == take_end(self.input@, i0, pred),
                end == (if self.char_iter.index > i0 { self.offsets@[self.char_iter.index - 1] } else { start }),
                self.char_iter.position == end,
            ensures
                self.wf(),
                self.input == old(self).input,
                self.offsets == old(self).offsets,
                self.is_newline == old(self).is_newline,
                i0 <= self.char_iter.index,
                start == old(self).char_iter.position,
                self.char_iter.index == take_end(self.input@, i0, pred),
                end == (if self.char_iter.index > i0 { self.offsets@[self.char_iter.index - 1] } else { start }),
                self.char_iter.position == end,
            decreases self.char_iter.rest().len(),
        {
            match self.char_iter.peek() {
                Some((loc, c)) => {
                    let take = if pred == 0 {
                        c != '\n'
                    } else if pred == 1 {
                        '0' <= c && c <= '9'
                    } else {
                        !char_is_whitespace(c)
                    };
                    if take {
                        let _ = self.char_iter.next();
                        end = loc;
                    } else {
                        break;
                    }
                },
                None => {
                    break;
                },
            }
        }
        let text = self.slice(start, end);
        (start, text, end)
    }

    fn take_single_char(&mut self, token: Token) -> (r: Option<Result<Spanned, LexicalError>>)
        requires
            old(self).wf(),
        ensures
            final(self).wf(),
            final(self).input == old(self).input,
            final(self).offsets == old(self).offsets,
            final(self).is_newline == old(self).is_newline,
            old(self).char_iter.index < old(self).input@.len() ==> {
                let p = old(self).offsets@[old(self).char_iter.index as int];
                &&& r matches Some(Ok((a, t, b))) && a == p && b == p && t == token
                &&& final(self).char_iter.index == old(self).char_iter.index + 1
                &&& final(self).char_iter.position == p
            },
            old(self).char_iter.index >= old(self).input@.len() ==> r is None && final(self).char_iter
                == old(self).char_iter,
    {
        match self.char_iter.next() {
            Some((location, _)) => Some(Ok((location, token, location))),
            None => None,
        }
    }

    /// The next token, an error, or nothing at the end of the text. A comment is a token only
    /// when it is the first thing on its line; others are skipped.
    #[verifier::rlimit(60)]
    pub fn next_token(&mut self) -> (r: Option<Result<Spanned, LexicalError>>)
        requires
            old(self).wf(),
        ensures
            final(self).wf(),
            final(self).text() == old(self).text(),
            final(self).byte_offsets_view() == old(self).byte_offsets_view(),
            ({
                let st = lex_next(
                    old(self).text(),
                    old(self).byte_offsets_view(),
                    old(self).state().0,
                    old(self).state().1,
                    old(self).state().2,
                );
                gives(st.0, r) && final(self).state() == (st.1, st.2, st.3)
            }),
    {
        let ghost target = lex_next(self.input@, self.offsets@, self.char_iter.index as int, self.char_iter.position, self.is_newline);
        loop
            invariant
                self.wf(),
                self.input == old(self).input,
                self.offsets == old(self).offsets,
                target == lex_next(old(self).input@, old(self).offsets@, old(self).char_iter.index as int,
                    old(self).char_iter.position, old(self).is_newline),
                target == lex_next(self.input@, self.offsets@, self.char_iter.index as int, self.char_iter.position,
                    self.is_newline),
            decreases self.char_iter.rest().len(),
        {
            let ghost i = self.char_iter.index as int;
            self.skip_whitespace();
            let first_on_line = self.is_newline;
            self.is_newline = false;
            proof {
                lemma_line_end(self.input@, self.char_iter.index as int);
            }
            let (current_position, current_char) = match self.char_iter.peek() {
                Some(x) => x,
                None => {
                    return None;
                },
            };
            if current_char == '(' {
                return self.take_single_char(Token::OpenDelimiter(Delimiter::Paren));
            } else if current_char == ')' {
                return self.take_single_char(Token::CloseDelimiter(Delimiter::Paren));
            } else if current_char == '{' {
                return self.take_single_char(Token::OpenDelimiter(Delimiter::CurlyBrace));
            } else if current_char == '}' {
                return self.take_single_char(Token::CloseDelimiter(Delimiter::CurlyBrace));
            } else if current_char == '[' {
                return self.take_single_char(Token::OpenDelimiter(Delimiter::SquareBracket));
            } else if current_char == ']' {
                return self.take_single_char(Token::CloseDelimiter(Delimiter::SquareBracket));
            } else if current_char == '.' {
                return self.take_single_char(Token::Period);
            } else if current_char == ',' {
                return self.take_single_char(Token::Comma);
            } else if current_char == ';' {
                return self.take_single_char(Token::Semicolon);
            } else if current_char == '#' {
                let (start, text, end) = self.take_comment_or_skip();
                if first_on_line {
                    return Some(Ok((start, Token::Comment(text), end)));
                }
            } else if current_char == '+' {
                return self.take_single_char(Token::UnaryPlus);
            } else if current_char == '-' {
                let _ = self.char_iter.next();
                match self.char_iter.peek() {
                    Some((end, '>')) => {
                        let _ = self.char_iter.next();
                        return Some(Ok((current_position, Token::RightSkinnyArrow, end)));
                    },
                    _ => {
                        return Some(Ok((current_position, Token::UnaryMinus, current_position)));
                    },
                }
            } else if '0' <= current_char && current_char <= '9' {
                proof {
                    lemma_take_end(self.input@, self.char_iter.index + 1, 1);
                }
                let (start, text, end) = self.take_while(1);
                return Some(Ok((start, Token::NumberLiteral(text), end)));
            } else if ('a' <= current_char && current_char <= 'z') || ('A' <= current_char && current_char <= 'Z')
                || current_char == '_' {
                proof {
                    lemma_take_end(self.input@, self.char_iter.index + 1, 2);
                }
                let (start, text, end) = self.take_while(2);
                return Some(Ok((start, Token::Ident(text), end)));
            } else {
                return Some(Err(LexicalError::UnexpectedCharacter(current_char)));
            }
        }
    }

    /// Reads a comment up to the end of its line.
    fn take_comment_or_skip(&mut self) -> (r: (usize, String, usize))
        requires
            old(self).wf(),
            old(self).char_iter.rest().len() > 0,
            old(self).char_iter.rest()[0] != '\n',
        ensures
            final(self).wf(),
            final(self).char_iter.rest().len() < old(self).char_iter.rest().len(),
            final(self).input == old(self).input,
            final(self).offsets == old(self).offsets,
            final(self).is_newline == old(self).is_newline,
            final(self).char_iter.index == line_end(old(self).input@, old(self).char_iter.index as int),
            r.0 == old(self).char_iter.position,
            r.2 == old(self).offsets@[final(self).char_iter.index - 1],
            final(self).char_iter.position == r.2,
            r.1@ == slice_text(old(self).input@, old(self).offsets@, r.0, r.2),
    {
        let ghost i0 = self.char_iter.index as int;
        let start = self.char_iter.position;
        let mut end = start;
        let first = self.char_iter.next();
        match first {
            Some((loc, _)) => {
                end = loc;
            },
            None => {},
        }
        proof {
            assert(self.input@[i0] == old(self).char_iter.rest()[0]);
        }
        loop
            invariant
                self.wf(),
                self.char_iter.rest().len() < old(self).char_iter.rest().len(),
                self.input == old(self).input,
                self.offsets == old(self).offsets,
                self.is_newline == old(self).is_newline,
                i0 == old(self).char_iter.index,
                i0 < self.char_iter.index,
                start == old(self).char_iter.position,
                line_end(self.input@, self.char_iter.index as int) == line_end(self.input@, i0),
                end == self.offsets@[self.char_iter.index - 1],
                self.char_iter.position == end,
            ensures
                self.wf(),
                self.char_iter.rest().len() < old(self).char_iter.rest().len(),
                self.input == old(self).input,
                self.offsets == old(self).offsets,
                self.is_newline == old(self).is_newline,
                i0 < self.char_iter.index,
                start == old(self).char_iter.position,
                self.char_iter.index == line_end(self.input@, i0),
                end == self.offsets@[self.char_iter.index - 1],
                self.char_iter.position == end,
            decreases self.char_iter.rest().len(),
        {
            match self.char_iter.peek() {
                Some((loc, c)) => {
                    if c != '\n' {
                        let _ = self.char_iter.next();
                        end = loc;
                    } else {
                        break;
                    }
                },
                None => {
                    break;
                },
            }
        }
        let text = self.slice(start, end);
        (start, text, end)
    }
}

} // verus!
