//! Splits program text into the tokens of the dgen grammar.
//!
//! Whitespace and `#` comments separate tokens. A comment that is the first thing on its line
//! is kept as a documentation line, so that it can be attached to the definition that follows.

use vstd::prelude::*;
use crate::lexeme::{lemma_decimal_value_grows, lemma_hex_value_grows, lemma_hex_lexeme, lemma_int_lexeme, lemma_tok_first, lemma_tok_unique, lemma_gap_unique, lexeme_at, gap_stop, ends_lexeme, lexes, quote_end, is_hex_text, hex_at, digit_at, fraction_at, hex_prefix_at};
use crate::ast::{escape_error_text, unescape, unescape_chars, EscapeError, IString};
use crate::text::{
    all_digits, all_hex, byte_len, copy_chars, char_is_whitespace, decimal_value, hex_digit, hex_digit_value,
    hex_value, is_ascii_alpha, is_digit, is_whitespace, string_from_chars,
};

verus! {

/// The kinds of tokens of the grammar, with the values their text denotes.
#[derive(Debug, PartialEq)]
pub enum TokKind {
    Ident(IString),
    Def,
    True,
    False,
    Uint(u64),
    Sint(i64),
    Decimal(IString),
    Str(IString),
    Chr(char),
    LParen,
    RParen,
    LBrace,
    RBrace,
    LBracket,
    RBracket,
    Comma,
    Semicolon,
    Colon,
    Equals,
    Arrow,
}

/// A token and the characters `[start, end)` it was read from.
#[derive(Debug, PartialEq)]
pub struct Tok {
    pub kind: TokKind,
    pub start: usize,
    pub end: usize,
}

/// A comment that was the first thing on its line: the position of its `#` and its trimmed text.
#[derive(Debug, PartialEq)]
pub struct DocLine {
    pub pos: usize,
    pub text: IString,
}

/// Why the text could not be split into tokens: the character position and what went wrong.
#[derive(Debug, PartialEq)]
pub struct ScanError {
    pub pos: usize,
    pub message: IString,
    pub at_eof: bool,
}

/// The tokens and documentation lines of a text.
pub struct Scanned {
    pub toks: Vec<Tok>,
    pub docs: Vec<DocLine>,
}

pub open spec fn is_ident_start(c: char) -> bool {
    is_ascii_alpha(c) || c == '_'
}

pub open spec fn is_ident_char(c: char) -> bool {
    is_ident_start(c) || is_digit(c) || c == '.'
}

/// Index of the first `\n` at or after `i`, or the length when there is none.
pub open spec fn line_end(cs: Seq<char>, i: int) -> int
    decreases cs.len() - i,
{
    if i >= cs.len() {
        cs.len() as int
    } else if cs[i] == '\n' {
        i
    } else {
        line_end(cs, i + 1)
    }
}

pub proof fn lemma_line_end(cs: Seq<char>, i: int)
    requires
        0 <= i <= cs.len(),
    ensures
        i <= line_end(cs, i) <= cs.len(),
        line_end(cs, i) < cs.len() ==> cs[line_end(cs, i)] == '\n',
        forall|k: int| i <= k < line_end(cs, i) ==> cs[k] != '\n',
    decreases cs.len() - i,
{
    if i < cs.len() && cs[i] != '\n' {
        lemma_line_end(cs, i + 1);
    }
}

/// `cs[i..j]` consists of whitespace and comments (a `#` up to the end of its line) only.
#[verifier::opaque]
pub open spec fn skippable(cs: Seq<char>, i: int, j: int) -> bool
    decreases j - i,
{
    if i < 0 || j > cs.len() || i > j {
        false
    } else if i == j {
        true
    } else if is_whitespace(cs[i]) {
        skippable(cs, i + 1, j)
    } else if cs[i] == '#' {
        let k = line_end(cs, i);
        proof {
            lemma_line_end(cs, i);
        }
        k > i && k <= j && skippable(cs, k, j)
    } else {
        false
    }
}

/// The text of token `t`.
pub open spec fn tok_text(cs: Seq<char>, t: Tok) -> Seq<char> {
    cs.subrange(t.start as int, t.end as int)
}

pub open spec fn ident_text(t: Seq<char>) -> bool {
    &&& t.len() > 0
    &&& is_ident_start(t[0])
    &&& forall|k: int| 1 <= k < t.len() ==> is_ident_char(#[trigger] t[k])
}

pub open spec fn is_keyword(t: Seq<char>) -> bool {
    t == "def"@ || t == "true"@ || t == "false"@
}

/// `t` is a decimal or (`0x`-prefixed) hexadecimal numeral for `n`.
pub open spec fn uint_text(t: Seq<char>, n: nat) -> bool {
    ||| (t.len() > 0 && all_digits(t) && decimal_value(t) == n)
    ||| (t.len() > 2 && t[0] == '0' && (t[1] == 'x' || t[1] == 'X') && all_hex(t.skip(2))
        && hex_value(t.skip(2)) == n)
}

/// `t` is a sign followed by a decimal numeral for `v`.
pub open spec fn sint_text(t: Seq<char>, v: int) -> bool {
    &&& t.len() > 1
    &&& (t[0] == '-' || t[0] == '+')
    &&& all_digits(t.skip(1))
    &&& v == (if t[0] == '-' {
        -(decimal_value(t.skip(1)) as int)
    } else {
        decimal_value(t.skip(1)) as int
    })
}

/// Every character of `s` is a digit or `.`.
pub open spec fn digits_and_points(s: Seq<char>) -> bool {
    forall|k: int| 0 <= k < s.len() ==> (is_digit(#[trigger] s[k]) || s[k] == '.')
}

/// No two characters of `s` are `.`.
pub open spec fn at_most_one_point(s: Seq<char>) -> bool {
    forall|a: int, b: int| #![trigger s[a], s[b]] 0 <= a < b < s.len() && s[a] == '.' ==> s[b] != '.'
}

/// `t` is an optionally signed numeral with one fractional point, and `d` is `t` without a leading `+`.
pub open spec fn decimal_text(t: Seq<char>, d: Seq<char>) -> bool {
    let body = if t.len() > 0 && (t[0] == '-' || t[0] == '+') { t.skip(1) } else { t };
    &&& body.len() >= 3
    &&& is_digit(body[0])
    &&& is_digit(body.last())
    &&& body.contains('.')
    &&& digits_and_points(body)
    &&& at_most_one_point(body)
    &&& d == (if t[0] == '+' { t.skip(1) } else { t })
}

/// The token's text is what its kind says it is.
#[verifier::opaque]
pub open spec fn tok_spells(cs: Seq<char>, t: Tok) -> bool {
    let x = tok_text(cs, t);
    &&& t.start < t.end <= cs.len()
    &&& match t.kind {
        TokKind::Ident(name) => ident_text(x) && !is_keyword(x) && name@ == x,
        TokKind::Def => x == "def"@,
        TokKind::True => x == "true"@,
        TokKind::False => x == "false"@,
        TokKind::Uint(n) => uint_text(x, n as nat),
        TokKind::Sint(v) => sint_text(x, v as int),
        TokKind::Decimal(d) => decimal_text(x, d@),
        TokKind::Str(v) => x.len() >= 2 && x[0] == '"' && x.last() == '"' && unescape(
            x.subrange(1, x.len() - 1),
        ) == Ok::<Seq<char>, EscapeError>(v@),
        TokKind::Chr(c) => x.len() >= 2 && x[0] == '\'' && x.last() == '\'' && unescape(
            x.subrange(1, x.len() - 1),
        ) == Ok::<Seq<char>, EscapeError>(seq![c]),
        TokKind::LParen => x == seq!['('],
        TokKind::RParen => x == seq![')'],
        TokKind::LBrace => x == seq!['{'],
        TokKind::RBrace => x == seq!['}'],
        TokKind::LBracket => x == seq!['['],
        TokKind::RBracket => x == seq![']'],
        TokKind::Comma => x == seq![','],
        TokKind::Semicolon => x == seq![';'],
        TokKind::Colon => x == seq![':'],
        TokKind::Equals => x == seq!['='],
        TokKind::Arrow => x == seq!['-', '>'],
    }
}

/// Where the text before token `k` begins: the end of the previous token, or the start.
pub open spec fn prev_end(toks: Seq<Tok>, k: int) -> int {
    if k <= 0 {
        0
    } else {
        toks[k - 1].end as int
    }
}

/// Token `k` spells its kind and only whitespace and comments precede it.
pub open spec fn tok_ok(cs: Seq<char>, toks: Seq<Tok>, k: int) -> bool {
    tok_spells(cs, toks[k]) && skippable(cs, prev_end(toks, k), toks[k].start as int)
}

/// `toks` is a tokenization of all of `cs`: each token spells its kind, and the text before,
/// between and after the tokens is whitespace and comments.
pub open spec fn tokenizes(cs: Seq<char>, toks: Seq<Tok>) -> bool {
    &&& forall|k: int| 0 <= k < toks.len() ==> #[trigger] tok_ok(cs, toks, k)
    &&& skippable(cs, prev_end(toks, toks.len() as int), cs.len() as int)
}

proof fn lemma_skippable_ws(cs: Seq<char>, i: int, j: int)
    requires
        0 <= i < j <= cs.len(),
        is_whitespace(cs[i]),
        skippable(cs, i + 1, j),
    ensures
        skippable(cs, i, j),
{
    reveal(skippable);
}

proof fn lemma_skippable_comment(cs: Seq<char>, i: int, j: int)
    requires
        0 <= i < cs.len(),
        cs[i] == '#',
        line_end(cs, i) <= j <= cs.len(),
        skippable(cs, line_end(cs, i), j),
    ensures
        skippable(cs, i, j),
{
    reveal(skippable);
    lemma_line_end(cs, i);
}

/// The first position at or after `a` that does not hold whitespace (or the length).
pub open spec fn ws_end(s: Seq<char>, a: int) -> int
    decreases s.len() - a,
{
    if 0 <= a < s.len() && is_whitespace(s[a]) {
        ws_end(s, a + 1)
    } else {
        a
    }
}

/// The position, no lower than `a`, from which only whitespace runs up to `b`.
pub open spec fn ws_start(s: Seq<char>, a: int, b: int) -> int
    decreases b - a,
{
    if a < b && is_whitespace(s[b - 1]) {
        ws_start(s, a, b - 1)
    } else {
        b
    }
}

/// `s` without the whitespace at either end.
pub open spec fn trimmed(s: Seq<char>) -> Seq<char> {
    let a = ws_end(s, 0);
    s.subrange(a, ws_start(s, a, s.len() as int))
}

/// Trims whitespace at both ends.
pub fn trim_whitespace(cs: &[char]) -> (r: Vec<char>)
    ensures
        r@ == trimmed(cs@),
{
    let mut a: usize = 0;
    while a < cs.len() && char_is_whitespace(cs[a])
        invariant
            0 <= a <= cs@.len(),
            ws_end(cs@, a as int) == ws_end(cs@, 0),
        decreases cs@.len() - a,
    {
        a = a + 1;
    }
    let mut b: usize = cs.len();
    while b > a && char_is_whitespace(cs[b - 1])
        invariant
            a <= b <= cs@.len(),
            ws_start(cs@, a as int, b as int) == ws_start(cs@, a as int, cs@.len() as int),
        decreases b,
    {
        b = b - 1;
    }
    let mut r: Vec<char> = Vec::new();
    let mut k: usize = a;
    while k < b
        invariant
            a <= k <= b,
            b <= cs@.len(),
            r@ == cs@.subrange(a as int, k as int),
        decreases b - k,
    {
        r.push(cs[k]);
        k = k + 1;
        assert(r@ =~= cs@.subrange(a as int, k as int));
    }
    r
}

/// A documentation line as its position and text.
pub open spec fn doc_view(d: DocLine) -> (int, Seq<char>) {
    (d.pos as int, d.text@)
}

/// The documentation lines of the whitespace and comments that start at `i`: the comments that
/// are the first thing on their line, each with its text after the `#`, trimmed. `at_start`
/// tells whether only whitespace precedes `i` on its line.
pub open spec fn gap_docs(cs: Seq<char>, i: int, at_start: bool) -> Seq<(int, Seq<char>)>
    decreases cs.len() - i,
{
    if i < 0 || i >= cs.len() {
        Seq::empty()
    } else if is_whitespace(cs[i]) {
        gap_docs(cs, i + 1, at_start || cs[i] == '\n')
    } else if cs[i] == '#' {
        let k = line_end(cs, i);
        proof {
            lemma_line_end(cs, i + 1);
        }
        (if at_start {
            seq![(i, trimmed(cs.subrange(i + 1, k)))]
        } else {
            Seq::empty()
        }) + gap_docs(cs, k, false)
    } else {
        Seq::empty()
    }
}

/// The documentation lines in the gaps before the first `n` tokens.
pub open spec fn docs_before(cs: Seq<char>, toks: Seq<Tok>, n: int) -> Seq<(int, Seq<char>)>
    decreases n,
{
    if n <= 0 {
        Seq::empty()
    } else {
        docs_before(cs, toks, n - 1) + gap_docs(cs, prev_end(toks, n - 1), n - 1 == 0)
    }
}

/// The documentation lines of a text split into the tokens `toks`.
pub open spec fn text_docs(cs: Seq<char>, toks: Seq<Tok>) -> Seq<(int, Seq<char>)> {
    docs_before(cs, toks, toks.len() as int) + gap_docs(cs, prev_end(toks, toks.len() as int), toks.len() == 0)
}

proof fn lemma_docs_before_push(cs: Seq<char>, toks: Seq<Tok>, t: Tok, n: int)
    requires
        0 <= n <= toks.len(),
    ensures
        docs_before(cs, toks.push(t), n) == docs_before(cs, toks, n),
    decreases n,
{
    if n > 0 {
        lemma_docs_before_push(cs, toks, t, n - 1);
        if n - 1 > 0 {
            assert(toks.push(t)[n - 2] == toks[n - 2]);
        }
        assert(prev_end(toks.push(t), n - 1) == prev_end(toks, n - 1));
    }
}

/// Skips whitespace and comments from `i`, recording the comments that begin their line.
/// `at_line_start` tells whether only whitespace precedes `i` on its line.
fn skip_gap(cs: &Vec<char>, i: usize, at_line_start: bool, docs: &mut Vec<DocLine>) -> (r: (
    usize,
    bool,
))
    requires
        i <= cs@.len(),
    ensures
        i <= r.0 <= cs@.len(),
        skippable(cs@, i as int, r.0 as int),
        r.0 < cs@.len() ==> !is_whitespace(cs@[r.0 as int]) && cs@[r.0 as int] != '#',
        forall|k: int| 0 <= k < old(docs)@.len() ==> final(docs)@[k] == old(docs)@[k],
        final(docs)@.len() >= old(docs)@.len(),
        forall|k: int|
            old(docs)@.len() <= k < final(docs)@.len() ==> i <= (#[trigger] final(docs)@[k]).pos
                < r.0 && cs@[final(docs)@[k].pos as int] == '#',
        forall|k: int, l: int|
            old(docs)@.len() <= k < l < final(docs)@.len() ==> final(docs)@[k].pos < final(docs)@[l].pos,
        final(docs)@.map_values(|d: DocLine| doc_view(d)) == old(docs)@.map_values(|d: DocLine| doc_view(d))
            + gap_docs(cs@, i as int, at_line_start),
    decreases cs@.len() - i,
{
    proof {
        reveal(skippable);
    }
    if i >= cs.len() {
        return (i, at_line_start);
    }
    let c = cs[i];
    if char_is_whitespace(c) {
        let (j, f) = skip_gap(cs, i + 1, at_line_start || c == '\n', docs);
        proof {
            lemma_skippable_ws(cs@, i as int, j as int);
        }
        (j, f)
    } else if c == '#' {
        proof {
            lemma_line_end(cs@, i as int);
        }
        let mut k: usize = i + 1;
        while k < cs.len() && cs[k] != '\n'
            invariant
                i < k <= cs@.len(),
                line_end(cs@, i as int) == line_end(cs@, k as int),
            decreases cs@.len() - k,
        {
            k = k + 1;
        }
        if at_line_start {
            let body = trim_whitespace(&cs.as_slice()[i + 1..k]);
            docs.push(DocLine { pos: i, text: string_from_chars(body.as_slice()) });
        }
        let (j, f) = skip_gap(cs, k, false, docs);
        proof {
            lemma_skippable_comment(cs@, i as int, j as int);
        }
        (j, f)
    } else {
        (i, at_line_start)
    }
}


fn char_is_digit(c: char) -> (b: bool)
    ensures
        b == is_digit(c),
{
    '0' <= c && c <= '9'
}

fn char_is_ident_start(c: char) -> (b: bool)
    ensures
        b == is_ident_start(c),
{
    ('a' <= c && c <= 'z') || ('A' <= c && c <= 'Z') || c == '_'
}

fn char_is_ident_char(c: char) -> (b: bool)
    ensures
        b == is_ident_char(c),
{
    char_is_ident_start(c) || char_is_digit(c) || c == '.'
}

fn scan_error(pos: usize, message: &str, at_eof: bool) -> (e: ScanError)
    ensures
        e.pos == pos,
        e.message@ == message@,
        e.at_eof == at_eof,
{
    ScanError { pos, message: String::from_str(message), at_eof }
}

/// Reads an identifier or keyword starting at `i`.
fn scan_word(cs: &Vec<char>, i: usize) -> (r: (TokKind, usize))
    requires
        i < cs@.len(),
        cs@.len() < usize::MAX - 4,
        is_ident_start(cs@[i as int]),
    ensures
        i < r.1 <= cs@.len(),
        tok_spells(cs@, Tok { kind: r.0, start: i, end: r.1 }),
        ends_lexeme(cs@, Tok { kind: r.0, start: i, end: r.1 }),
        r.1 == cs@.len() || !is_ident_char(cs@[r.1 as int]),
{
    proof {
        reveal(tok_spells);
    }
    let mut j: usize = i + 1;
    while j < cs.len() && char_is_ident_char(cs[j])
        invariant
            i < j <= cs@.len(),
            is_ident_start(cs@[i as int]),
            forall|k: int| i < k < j ==> is_ident_char(#[trigger] cs@[k]),
        decreases cs@.len() - j,
    {
        j = j + 1;
    }
    let ghost x = cs@.subrange(i as int, j as int);
    assert(ident_text(x)) by {
        assert forall|k: int| 1 <= k < x.len() implies is_ident_char(#[trigger] x[k]) by {
            assert(x[k] == cs@[i + k]);
        }
    }
    let n = j - i;
    proof {
        reveal_strlit("def");
        reveal_strlit("true");
        reveal_strlit("false");
    }
    if n == 3 && cs[i] == 'd' && cs[i + 1] == 'e' && cs[i + 2] == 'f' {
        assert(x =~= "def"@);
        (TokKind::Def, j)
    } else if n == 4 && cs[i] == 't' && cs[i + 1] == 'r' && cs[i + 2] == 'u' && cs[i + 3] == 'e' {
        assert(x =~= "true"@);
        (TokKind::True, j)
    } else if n == 5 && cs[i] == 'f' && cs[i + 1] == 'a' && cs[i + 2] == 'l' && cs[i + 3] == 's'
        && cs[i + 4] == 'e' {
        assert(x =~= "false"@);
        (TokKind::False, j)
    } else {
        assert(!is_keyword(x)) by {
            if x == "def"@ {
                assert(x[0] == 'd' && x[1] == 'e' && x[2] == 'f');
            }
            if x == "true"@ {
                assert(x[0] == 't' && x[1] == 'r' && x[2] == 'u' && x[3] == 'e');
            }
            if x == "false"@ {
                assert(x[0] == 'f' && x[1] == 'a' && x[2] == 'l' && x[3] == 's' && x[4] == 'e');
            }
        }
        let name = string_from_chars(&cs.as_slice()[i..j]);
        (TokKind::Ident(name), j)
    }
}

/// Reads a run of decimal digits from `i` into a value, failing when it does not fit in 64 bits.
fn scan_digits(cs: &Vec<char>, i: usize) -> (r: Option<(u64, usize)>)
    requires
        i <= cs@.len(),
    ensures
        r matches Some((v, j)) ==> {
            &&& i <= j <= cs@.len()
            &&& all_digits(cs@.subrange(i as int, j as int))
            &&& v as nat == decimal_value(cs@.subrange(i as int, j as int))
            &&& (j == cs@.len() || !is_digit(cs@[j as int]))
        },
        r is None ==> forall|e: int|
            i <= e <= cs@.len() && (forall|m: int| i <= m < e ==> #[trigger] is_digit(cs@[m])) && !digit_at(
                cs@,
                e,
            ) ==> decimal_value(#[trigger] cs@.subrange(i as int, e)) > u64::MAX,
{
    let mut j: usize = i;
    let mut v: u64 = 0;
    while j < cs.len() && char_is_digit(cs[j])
        invariant
            i <= j <= cs@.len(),
            all_digits(cs@.subrange(i as int, j as int)),
            v as nat == decimal_value(cs@.subrange(i as int, j as int)),
        decreases cs@.len() - j,
    {
        let d: u64 = (cs[j] as u32 - '0' as u32) as u64;
        if v > (u64::MAX - d) / 10 {
            proof {
                assert(v * 10 + d > u64::MAX) by (nonlinear_arith)
                    requires
                        v > (u64::MAX - d) / 10,
                        d <= 9,
                ;
                let sub = cs@.subrange(i as int, j as int + 1);
                assert(sub.drop_last() =~= cs@.subrange(i as int, j as int));
                assert forall|e: int|
                    i <= e <= cs@.len() && (forall|m: int| i <= m < e ==> #[trigger] is_digit(cs@[m])) && !digit_at(
                        cs@,
                        e,
                    ) implies decimal_value(#[trigger] cs@.subrange(i as int, e)) > u64::MAX by {
                    if e <= j {
                        if e < j {
                            assert(cs@.subrange(i as int, j as int)[e - i] == cs@[e]);
                        }
                    }
                    lemma_decimal_value_grows(cs@, i as int, j + 1, e);
                }
            }
            return None;
        }
        proof {
            let sub = cs@.subrange(i as int, j as int + 1);
            assert(sub.drop_last() =~= cs@.subrange(i as int, j as int));
            assert(all_digits(sub)) by {
                assert forall|k: int| 0 <= k < sub.len() implies is_digit(#[trigger] sub[k]) by {
                    if k < sub.len() - 1 {
                        assert(sub[k] == cs@.subrange(i as int, j as int)[k]);
                    }
                }
            }
        }
        v = v * 10 + d;
        j = j + 1;
    }
    Some((v, j))
}

/// The end of the run of decimal digits that starts at `i`, which holds at least one digit.
fn digits_end(cs: &Vec<char>, i: usize) -> (j: usize)
    requires
        i < cs@.len(),
        cs@.len() < usize::MAX,
        is_digit(cs@[i as int]),
    ensures
        i < j <= cs@.len(),
        all_digits(cs@.subrange(i as int, j as int)),
        forall|t: int| i <= t < j ==> is_digit(#[trigger] cs@[t]),
        j == cs@.len() || !is_digit(cs@[j as int]),
{
    let mut j: usize = i + 1;
    while j < cs.len() && char_is_digit(cs[j])
        invariant
            i < j <= cs@.len(),
            forall|t: int| i <= t < j ==> is_digit(#[trigger] cs@[t]),
        decreases cs@.len() - j,
    {
        j = j + 1;
    }
    assert forall|t: int| 0 <= t < cs@.subrange(i as int, j as int).len() implies is_digit(
        #[trigger] cs@.subrange(i as int, j as int)[t],
    ) by {
        assert(cs@.subrange(i as int, j as int)[t] == cs@[i + t]);
    }
    j
}

/// Reads the fractional part `.digits` at `k` (if present) of a numeral that started at `i`.
fn fraction_end(cs: &Vec<char>, k: usize) -> (r: Option<usize>)
    requires
        k <= cs@.len(),
        cs@.len() < usize::MAX - 4,
    ensures
        r matches Some(e) ==> k + 2 <= e <= cs@.len() && cs@[k as int] == '.' && (forall|t: int|
            k < t < e ==> is_digit(#[trigger] cs@[t])) && !digit_at(cs@, e as int),
        r is None ==> !(k + 1 < cs@.len() && cs@[k as int] == '.' && is_digit(cs@[k + 1])),
{
    if k + 1 < cs.len() && cs[k] == '.' && char_is_digit(cs[k + 1]) {
        let mut e: usize = k + 2;
        while e < cs.len() && char_is_digit(cs[e])
            invariant
                k + 2 <= e <= cs@.len(),
                forall|t: int| k < t < e ==> is_digit(#[trigger] cs@[t]),
            decreases cs@.len() - e,
        {
            e = e + 1;
        }
        Some(e)
    } else {
        None
    }
}

/// Reads a numeral starting at `i` (a digit, or a sign followed by a digit).
fn scan_number(cs: &Vec<char>, i: usize) -> (r: Result<(TokKind, usize), ScanError>)
    requires
        i < cs@.len(),
        cs@.len() < usize::MAX - 4,
        is_digit(cs@[i as int]) || ((cs@[i as int] == '-' || cs@[i as int] == '+') && i + 1
            < cs@.len() && is_digit(cs@[i + 1])),
    ensures
        r matches Ok((kind, j)) ==> i < j <= cs@.len() && tok_spells(
            cs@,
            Tok { kind: kind, start: i, end: j },
        ) && ends_lexeme(cs@, Tok { kind: kind, start: i, end: j }),
        r matches Err(e) ==> e.pos == i,
        r is Err ==> forall|t: Tok| #[trigger] lexeme_at(cs@, t) ==> t.start != i,
{
    proof {
        reveal(tok_spells);
    }
    let signed = cs[i] == '-' || cs[i] == '+';
    // hexadecimal
    if !signed && cs[i] == '0' && i + 2 < cs.len() && (cs[i + 1] == 'x' || cs[i + 1] == 'X') {
        match hex_digit(cs[i + 2]) {
            Some(d0) => {
                let mut j: usize = i + 3;
                let mut v: u64 = d0 as u64;
                proof {
                    let sub = cs@.subrange(i + 2, i + 3);
                    assert(sub.drop_last() =~= Seq::<char>::empty());
                    assert(sub[0] == cs@[i + 2]);
                    assert(all_hex(sub));
                    assert(hex_value(sub.drop_last()) == 0);
                    assert(sub.last() == cs@[i + 2]);
                }
                while j < cs.len()
                    invariant
                        i + 3 <= j <= cs@.len(),
                        all_hex(cs@.subrange(i + 2, j as int)),
                        v as nat == hex_value(cs@.subrange(i + 2, j as int)),
                        hex_prefix_at(cs@, i as int),
                    ensures
                        i + 3 <= j <= cs@.len(),
                        all_hex(cs@.subrange(i + 2, j as int)),
                        v as nat == hex_value(cs@.subrange(i + 2, j as int)),
                        !hex_at(cs@, j as int),
                    decreases cs@.len() - j,
                {
                    match hex_digit(cs[j]) {
                        Some(d) => {
                            if v > (u64::MAX - d as u64) / 16 {
                                proof {
                                    let dd = d as u64;
                                    assert(v * 16 + dd > u64::MAX) by (nonlinear_arith)
                                        requires
                                            v > (u64::MAX - dd) / 16,
                                            dd <= 15,
                                    ;
                                    let sub = cs@.subrange(i + 2, j as int + 1);
                                    assert(sub.drop_last() =~= cs@.subrange(i + 2, j as int));
                                    assert(hex_value(sub) == v * 16 + dd);
                                    assert(hex_prefix_at(cs@, i as int));
                                    assert forall|t: Tok| #[trigger] lexeme_at(cs@, t) implies t.start != i by {
                                        if t.start == i {
                                            lemma_hex_lexeme(cs@, t);
                                            let e = t.end as int;
                                            if e < j {
                                                assert(cs@.subrange(i + 2, j as int)[e - (i + 2)] == cs@[e]);
                                                assert(hex_digit_value(cs@.subrange(i + 2, j as int)[e - (i + 2)]) is Some);
                                            }
                                            assert(hex_digit_value(cs@[j as int]) is Some);
                                            lemma_hex_value_grows(cs@, i + 2, j + 1, e);
                                        }
                                    }
                                }
                                return Err(scan_error(i, "integer literal is too large", false));
                            }
                            proof {
                                let sub = cs@.subrange(i + 2, j as int + 1);
                                assert(sub.drop_last() =~= cs@.subrange(i + 2, j as int));
                                assert(all_hex(sub)) by {
                                    assert forall|k: int| 0 <= k < sub.len() implies (
                                    #[trigger] hex_digit_value(sub[k])) is Some by {
                                        if k < sub.len() - 1 {
                                            assert(sub[k] == cs@.subrange(i + 2, j as int)[k]);
                                        }
                                    }
                                }
                            }
                            v = v * 16 + d as u64;
                            j = j + 1;
                        },
                        None => {
                            break ;
                        },
                    }
                }
                proof {
                    let x = cs@.subrange(i as int, j as int);
                    assert(x.skip(2) =~= cs@.subrange(i + 2, j as int));
                    assert(x[0] == cs@[i as int] && x[1] == cs@[i + 1]);
                    assert(is_hex_text(x));
                }
                return Ok((TokKind::Uint(v), j));
            },
            None => {},
        }
    }
    let digits_start: usize = if signed {
        i + 1
    } else {
        i
    };
    let k = digits_end(cs, digits_start);
    match fraction_end(cs, k) {
                Some(e) => {
                    let ghost x = cs@.subrange(i as int, e as int);
                    let ghost body = if x.len() > 0 && (x[0] == '-' || x[0] == '+') {
                        x.skip(1)
                    } else {
                        x
                    };
                    assert(body =~= cs@.subrange(digits_start as int, e as int));
                    assert(body[k - digits_start] == '.');
                    assert(body.contains('.'));
                    assert forall|t: int| 0 <= t < body.len() implies (is_digit(#[trigger] body[t])
                        || body[t] == '.') by {
                        if t < k - digits_start {
                            assert(body[t] == cs@.subrange(digits_start as int, k as int)[t]);
                        } else if t > k - digits_start {
                            assert(body[t] == cs@[digits_start + t]);
                        }
                    }
                    assert forall|a: int, b: int| #![trigger body[a], body[b]] 0 <= a < b < body.len() && body[a] == '.' implies body[b] != '.' by {
                        if a < k - digits_start {
                            assert(body[a] == cs@.subrange(digits_start as int, k as int)[a]);
                        }
                        if b > k - digits_start {
                            assert(body[b] == cs@[digits_start + b]);
                        }
                    }
                    assert(is_digit(body[0])) by {
                        assert(body[0] == cs@.subrange(digits_start as int, k as int)[0]);
                    }
                    let text_start: usize = if cs[i] == '+' {
                        i + 1
                    } else {
                        i
                    };
                    assert(cs@.subrange(text_start as int, e as int) =~= (if x[0] == '+' {
                        x.skip(1)
                    } else {
                        x
                    }));
                    let d = string_from_chars(&cs.as_slice()[text_start..e]);
                    Ok((TokKind::Decimal(d), e))
                },
                None => {
                    assert(!crate::lexeme::fraction_at(cs@, k as int));
                    assert(digits_start == i ==> !hex_prefix_at(cs@, i as int));
                    let mag: u64 = match scan_digits(cs, digits_start) {
                        None => {
                            proof {
                                assert forall|t: Tok| #[trigger] lexeme_at(cs@, t) implies t.start != i by {
                                    if t.start == i {
                                        lemma_int_lexeme(cs@, digits_start as int, k as int, t);
                                        assert(decimal_value(cs@.subrange(digits_start as int, k as int)) > u64::MAX);
                                    }
                                }
                            }
                            return Err(scan_error(i, "integer literal is too large", false));
                        },
                        Some((m, k2)) => {
                            assert(k2 == k) by {
                                if k2 < k {
                                    assert(is_digit(cs@[k2 as int]));
                                }
                                if k < k2 {
                                    assert(cs@.subrange(digits_start as int, k2 as int)[k - digits_start] == cs@[k as int]);
                                }
                            }
                            m
                        },
                    };
                    let ghost x = cs@.subrange(i as int, k as int);
                    if !signed {
                        assert(x =~= cs@.subrange(digits_start as int, k as int));
                        Ok((TokKind::Uint(mag), k))
                    } else {
                        assert(x.skip(1) =~= cs@.subrange(digits_start as int, k as int));
                        if cs[i] == '-' {
                            if mag > 9223372036854775808u64 {
                                proof {
                                    assert forall|t: Tok| #[trigger] lexeme_at(cs@, t) implies t.start != i by {
                                        if t.start == i {
                                            lemma_int_lexeme(cs@, digits_start as int, k as int, t);
                                        }
                                    }
                                }
                                Err(scan_error(i, "integer literal is too small", false))
                            } else if mag == 9223372036854775808u64 {
                                Ok((TokKind::Sint(i64::MIN), k))
                            } else {
                                Ok((TokKind::Sint(-(mag as i64)), k))
                            }
                        } else {
                            if mag > 9223372036854775807u64 {
                                proof {
                                    assert forall|t: Tok| #[trigger] lexeme_at(cs@, t) implies t.start != i by {
                                        if t.start == i {
                                            lemma_int_lexeme(cs@, digits_start as int, k as int, t);
                                        }
                                    }
                                }
                                Err(scan_error(i, "integer literal is too large", false))
                            } else {
                                Ok((TokKind::Sint(mag as i64), k))
                            }
                        }
                    }
                },
    }
}

/// Reads a quoted literal whose opening `quote` is at `i`; returns the unescaped body.
fn scan_quoted(cs: &Vec<char>, i: usize, quote: char) -> (r: Result<(Vec<char>, usize), ScanError>)
    requires
        i < cs@.len(),
        cs@.len() < usize::MAX - 4,
        cs@[i as int] == quote,
        quote == '"' || quote == '\'',
    ensures
        r matches Ok((v, j)) ==> {
            &&& i + 2 <= j <= cs@.len()
            &&& cs@[j - 1] == quote
            &&& j - 1 == quote_end(cs@, i + 1, quote)
            &&& unescape(cs@.subrange(i + 1, j - 1)) == Ok::<Seq<char>, EscapeError>(v@)
        },
        r matches Err(e) ==> e.pos == i,
        r is Err ==> forall|t: Tok| #[trigger] lexeme_at(cs@, t) ==> t.start != i,
{
    let mut k: usize = i + 1;
    while k < cs.len() && cs[k] != quote
        invariant
            i < k <= cs@.len() + 1,
            cs@.len() < usize::MAX - 4,
            quote_end(cs@, k as int, quote) == quote_end(cs@, i + 1, quote),
        decreases cs@.len() + 2 - k,
    {
        if cs[k] == '\\' {
            k = k + 2;
        } else {
            k = k + 1;
        }
    }
    if k >= cs.len() {
        proof {
            assert forall|t: Tok| #[trigger] lexeme_at(cs@, t) implies t.start != i by {
                if t.start == i {
                    lemma_tok_first(cs@, t);
                }
            }
        }
        return Err(scan_error(i, "unterminated literal", true));
    }
    let body: Vec<char> = copy_chars(cs.as_slice(), i + 1, k);
    match unescape_chars(&body) {
        Ok(v) => Ok((v, k + 1)),
        Err(_) => {
            proof {
                assert forall|t: Tok| #[trigger] lexeme_at(cs@, t) implies t.start != i by {
                    if t.start == i {
                        lemma_tok_first(cs@, t);
                        reveal(tok_spells);
                        let x = tok_text(cs@, t);
                        assert(x.subrange(1, x.len() - 1) =~= cs@.subrange(i + 1, k as int));
                    }
                }
            }
            Err(scan_error(i, "invalid escape sequence in literal", false))
        },
    }
}

/// The one-character punctuation token for `c`.
fn punctuation(c: char) -> (r: Option<TokKind>)
    ensures
        r matches Some(k) ==> tok_spells(seq![c], Tok { kind: k, start: 0, end: 1 }),
        r matches Some(k) ==> (k is LParen || k is RParen || k is LBrace || k is RBrace || k is LBracket
            || k is RBracket || k is Comma || k is Semicolon || k is Colon || k is Equals),
        r is None ==> c != '(' && c != ')' && c != '{' && c != '}' && c != '[' && c != ']' && c != ','
            && c != ';' && c != ':' && c != '=',
{
    proof {
        reveal(tok_spells);
        assert(seq![c].subrange(0, 1) =~= seq![c]);
    }
    if c == '(' {
        Some(TokKind::LParen)
    } else if c == ')' {
        Some(TokKind::RParen)
    } else if c == '{' {
        Some(TokKind::LBrace)
    } else if c == '}' {
        Some(TokKind::RBrace)
    } else if c == '[' {
        Some(TokKind::LBracket)
    } else if c == ']' {
        Some(TokKind::RBracket)
    } else if c == ',' {
        Some(TokKind::Comma)
    } else if c == ';' {
        Some(TokKind::Semicolon)
    } else if c == ':' {
        Some(TokKind::Colon)
    } else if c == '=' {
        Some(TokKind::Equals)
    } else {
        None
    }
}

/// Reads the token that starts at `j`.
fn scan_token(cs: &Vec<char>, j: usize) -> (r: Result<(TokKind, usize), ScanError>)
    requires
        j < cs@.len(),
        cs@.len() < usize::MAX - 4,
    ensures
        r matches Ok((kind, e)) ==> j < e <= cs@.len() && tok_spells(
            cs@,
            Tok { kind: kind, start: j, end: e },
        ) && ends_lexeme(cs@, Tok { kind: kind, start: j, end: e }),
        r matches Err(err) ==> err.pos <= cs@.len(),
        r is Err ==> forall|t: Tok| #[trigger] lexeme_at(cs@, t) ==> t.start != j,
{
    let c = cs[j];
    if char_is_ident_start(c) {
        return Ok(scan_word(cs, j));
    }
    if char_is_digit(c) || ((c == '-' || c == '+') && j + 1 < cs.len() && char_is_digit(cs[j + 1])) {
        return scan_number(cs, j);
    }
    if c == '"' || c == '\'' {
        match scan_quoted(cs, j, c) {
            Ok((v, e)) => {
                let ghost x = cs@.subrange(j as int, e as int);
                proof {
                    reveal(tok_spells);
                }
                assert(x.subrange(1, x.len() - 1) =~= cs@.subrange(j + 1, e - 1));
                assert(x[0] == cs@[j as int]);
                assert(x.last() == cs@[e - 1]);
                if c == '"' {
                    return Ok((TokKind::Str(string_from_chars(v.as_slice())), e));
                } else if v.len() == 1 {
                    assert(v@ =~= seq![v@[0]]);
                    return Ok((TokKind::Chr(v[0]), e));
                } else {
                    proof {
                        assert forall|t: Tok| #[trigger] lexeme_at(cs@, t) implies t.start != j by {
                            if t.start == j {
                                lemma_tok_first(cs@, t);
                                let y = tok_text(cs@, t);
                                assert(y.subrange(1, y.len() - 1) =~= cs@.subrange(j + 1, e - 1));
                                if let TokKind::Chr(ch) = t.kind {
                                    assert(seq![ch].len() == 1);
                                }
                            }
                        }
                    }
                    return Err(scan_error(j, "a character literal must hold exactly one character", false));
                }
            },
            Err(err) => {
                return Err(err);
            },
        }
    }
    if c == '-' && j + 1 < cs.len() && cs[j + 1] == '>' {
        proof {
            reveal(tok_spells);
            assert(cs@.subrange(j as int, j + 2) =~= seq!['-', '>']);
        }
        return Ok((TokKind::Arrow, j + 2));
    }
    match punctuation(c) {
        Some(k) => {
            proof {
                reveal(tok_spells);
                assert(cs@.subrange(j as int, j + 1) =~= seq![c]);
                assert(seq![c].subrange(0, 1) =~= seq![c]);
            }
            Ok((k, j + 1))
        },
        None => {
            proof {
                assert forall|t: Tok| #[trigger] lexeme_at(cs@, t) implies t.start != j by {
                    if t.start == j {
                        lemma_tok_first(cs@, t);
                    }
                }
            }
            Err(scan_error(j, "unexpected character", false))
        },
    }
}

proof fn lemma_push_tok(cs: Seq<char>, toks: Seq<Tok>, t: Tok)
    requires
        forall|k: int| 0 <= k < toks.len() ==> #[trigger] tok_ok(cs, toks, k),
        tok_spells(cs, t),
        skippable(cs, prev_end(toks, toks.len() as int), t.start as int),
    ensures
        forall|k: int| 0 <= k < toks.push(t).len() ==> #[trigger] tok_ok(cs, toks.push(t), k),
{
    let n = toks.push(t);
    assert forall|k: int| 0 <= k < n.len() implies #[trigger] tok_ok(cs, n, k) by {
        if k < toks.len() {
            assert(n[k] == toks[k]);
            assert(prev_end(n, k) == prev_end(toks, k));
            assert(tok_ok(cs, toks, k));
        } else {
            assert(n[k] == t);
            assert(prev_end(n, k) == prev_end(toks, toks.len() as int));
        }
    }
}

/// Where the tokenization `all` continues after its first `done.len()` tokens, which end where
/// those of `done` end, when whitespace and comments run from there to `j`.
proof fn lemma_next_start(cs: Seq<char>, done: Seq<Tok>, all: Seq<Tok>, j: int)
    requires
        lexes(cs, all),
        done.len() <= all.len(),
        forall|m: int| 0 <= m < done.len() ==> (#[trigger] all[m]).end == done[m].end,
        skippable(cs, prev_end(done, done.len() as int), j),
        gap_stop(cs, j),
    ensures
        (all.len() == done.len() && j == cs.len()) || (all.len() > done.len() && all[done.len() as int].start
            == j && lexeme_at(cs, all[done.len() as int])),
{
    let n = done.len() as int;
    if n > 0 {
        assert(all[n - 1].end == done[n - 1].end);
    }
    assert(prev_end(all, n) == prev_end(done, n));
    if all.len() == n {
        lemma_gap_unique(cs, prev_end(done, n), j, cs.len() as int);
    } else {
        assert(tok_ok(cs, all, n));
        assert(crate::lexeme::ends_lexeme(cs, all[n]));
        lemma_tok_first(cs, all[n]);
        lemma_gap_unique(cs, prev_end(done, n), j, all[n].start as int);
    }
}

/// Splits `cs` into tokens and documentation lines.
pub fn scan(cs: &Vec<char>) -> (r: Result<Scanned, ScanError>)
    ensures
        r matches Ok(s) ==> s.docs@.map_values(|d: DocLine| doc_view(d)) == text_docs(cs@, s.toks@),
        r matches Ok(s) ==> s.toks@.len() <= cs@.len() && cs@.len() < usize::MAX - 16 && lexes(cs@, s.toks@) && (forall|k: int|
            0 <= k < s.docs@.len() ==> (#[trigger] s.docs@[k]).pos < cs@.len() && cs@[s.docs@[k].pos as int] == '#')
            && (forall|k: int, l: int| 0 <= k < l < s.docs@.len() ==> s.docs@[k].pos < s.docs@[l].pos),
        r matches Err(e) ==> e.pos <= cs@.len(),
        r is Err ==> cs@.len() >= usize::MAX - 16 || forall|toks: Seq<Tok>| !(#[trigger] lexes(cs@, toks)),
{
    if cs.len() >= usize::MAX - 16 {
        return Err(scan_error(0, "program text is too long", false));
    }
    let mut toks: Vec<Tok> = Vec::new();
    let mut docs: Vec<DocLine> = Vec::new();
    let mut i: usize = 0;
    let mut at_line_start = true;
    loop
        invariant_except_break
            forall|k: int| 0 <= k < docs@.len() ==> (#[trigger] docs@[k]).pos < i,
            docs@.map_values(|d: DocLine| doc_view(d)) == docs_before(cs@, toks@, toks@.len() as int),
        invariant
            i <= cs@.len(),
            toks@.len() <= i,
            cs@.len() < usize::MAX - 16,
            i == prev_end(toks@, toks@.len() as int),
            forall|k: int| 0 <= k < toks@.len() ==> #[trigger] tok_ok(cs@, toks@, k),
            forall|k: int| 0 <= k < toks@.len() ==> #[trigger] ends_lexeme(cs@, toks@[k]),
            forall|k: int|
                0 <= k < docs@.len() ==> (#[trigger] docs@[k]).pos < cs@.len() && cs@[docs@[k].pos as int] == '#',
            forall|k: int, l: int| 0 <= k < l < docs@.len() ==> docs@[k].pos < docs@[l].pos,
            forall|all: Seq<Tok>| #[trigger] lexes(cs@, all) ==> toks@.len() <= all.len() && (forall|m: int|
                0 <= m < toks@.len() ==> (#[trigger] all[m]).end == toks@[m].end),
            at_line_start == (toks@.len() == 0),
        ensures
            docs@.map_values(|d: DocLine| doc_view(d)) == text_docs(cs@, toks@),
            i <= cs@.len(),
            toks@.len() <= cs@.len(),
            lexes(cs@, toks@),
            forall|k: int|
                0 <= k < docs@.len() ==> (#[trigger] docs@[k]).pos < cs@.len() && cs@[docs@[k].pos as int] == '#',
            forall|k: int, l: int| 0 <= k < l < docs@.len() ==> docs@[k].pos < docs@[l].pos,
        decreases cs@.len() - i,
    {
        let ghost old_docs = docs@;
        let (j, _f) = skip_gap(cs, i, at_line_start, &mut docs);
        if j >= cs.len() {
            assert(tokenizes(cs@, toks@));
            assert(lexes(cs@, toks@));
            break ;
        }
        let ghost docs_now = docs@;
        proof {
            assert forall|all: Seq<Tok>| #[trigger] lexes(cs@, all) implies all.len() > toks@.len() && all[toks@.len() as int].start
                == j && lexeme_at(cs@, all[toks@.len() as int]) by {
                lemma_next_start(cs@, toks@, all, j as int);
            }
        }
        let (kind, e) = match scan_token(cs, j) {
            Ok(t) => t,
            Err(err) => {
                assert forall|all: Seq<Tok>| !(#[trigger] lexes(cs@, all)) by {
                    if lexes(cs@, all) {
                        assert(lexeme_at(cs@, all[toks@.len() as int]));
                    }
                }
                return Err(err);
            },
        };
        proof {
            let nt = Tok { kind: kind, start: j, end: e };
            assert forall|all: Seq<Tok>| #[trigger] lexes(cs@, all) implies all[toks@.len() as int].end == e by {
                lemma_tok_unique(cs@, all[toks@.len() as int], nt);
            }
        }
        proof {
            lemma_push_tok(cs@, toks@, Tok { kind: kind, start: j, end: e });
        }
        proof {
            let nt = Tok { kind: kind, start: j, end: e };
            let n = toks@.len() as int;
            lemma_docs_before_push(cs@, toks@, nt, n);
            assert(prev_end(toks@.push(nt), n) == prev_end(toks@, n));
        }
        toks.push(Tok { kind, start: j, end: e });
        i = e;
        at_line_start = false;
    }
    Ok(Scanned { toks, docs })
}

} // verus!
