//! Where tokens end: each token is the longest lexeme that starts where it starts, so a text
//! has at most one tokenization.

use vstd::prelude::*;
use crate::scan::{prev_end, tok_ok, at_most_one_point, digits_and_points, decimal_text, is_ident_char, is_ident_start, skippable, tok_spells, tok_text, tokenizes, Tok, TokKind, line_end, lemma_line_end};
use crate::text::{all_digits, all_hex, decimal_value, hex_digit_value, hex_value, is_digit, is_whitespace};
use crate::ast::{unescape, EscapeError};

verus! {

/// A position where a gap of whitespace and comments must stop: the end of the text, or a
/// character that is neither whitespace nor the start of a comment.
pub open spec fn gap_stop(cs: Seq<char>, j: int) -> bool {
    j == cs.len() || (0 <= j < cs.len() && !is_whitespace(cs[j]) && cs[j] != '#')
}

pub open spec fn digit_at(cs: Seq<char>, e: int) -> bool {
    0 <= e < cs.len() && is_digit(cs[e])
}

pub open spec fn hex_at(cs: Seq<char>, e: int) -> bool {
    0 <= e < cs.len() && hex_digit_value(cs[e]) is Some
}

/// A `.` followed by a digit at `e`.
pub open spec fn fraction_at(cs: Seq<char>, e: int) -> bool {
    0 <= e && e + 1 < cs.len() && cs[e] == '.' && is_digit(cs[e + 1])
}

/// `0x` or `0X` followed by a hexadecimal digit at `e`.
pub open spec fn hex_prefix_at(cs: Seq<char>, e: int) -> bool {
    0 <= e && e + 2 < cs.len() && cs[e] == '0' && (cs[e + 1] == 'x' || cs[e + 1] == 'X') && hex_at(cs, e + 2)
}

/// Whether the text `x` of an unsigned numeral is hexadecimal.
pub open spec fn is_hex_text(x: Seq<char>) -> bool {
    x.len() > 2 && x[0] == '0' && (x[1] == 'x' || x[1] == 'X')
}

/// The index of the quote that closes a literal whose body starts at `k`: a backslash takes the
/// character after it along, so an escaped quote does not close. Past the end when none does.
pub open spec fn quote_end(cs: Seq<char>, k: int, q: char) -> int
    decreases cs.len() + 1 - k,
{
    if k < 0 || k >= cs.len() {
        k
    } else if cs[k] == q {
        k
    } else if cs[k] == '\\' {
        quote_end(cs, k + 2, q)
    } else {
        quote_end(cs, k + 1, q)
    }
}

/// The token `t` ends where its lexeme ends: the character after it could not continue it.
pub open spec fn ends_lexeme(cs: Seq<char>, t: Tok) -> bool {
    let e = t.end as int;
    let x = tok_text(cs, t);
    match t.kind {
        TokKind::Ident(_) | TokKind::Def | TokKind::True | TokKind::False => !(e < cs.len()
            && is_ident_char(cs[e])),
        TokKind::Uint(_) => if is_hex_text(x) {
            !hex_at(cs, e)
        } else {
            !digit_at(cs, e) && !fraction_at(cs, e) && !hex_prefix_at(cs, t.start as int)
        },
        TokKind::Sint(_) => !digit_at(cs, e) && !fraction_at(cs, e),
        TokKind::Decimal(_) => !digit_at(cs, e),
        TokKind::Str(_) => e - 1 == quote_end(cs, t.start + 1, '"'),
        TokKind::Chr(_) => e - 1 == quote_end(cs, t.start + 1, '\''),
        _ => true,
    }
}

/// `toks` is the tokenization of `cs`: it tokenizes `cs` and each token is a whole lexeme.
pub open spec fn lexes(cs: Seq<char>, toks: Seq<Tok>) -> bool {
    &&& tokenizes(cs, toks)
    &&& forall|k: int| 0 <= k < toks.len() ==> #[trigger] ends_lexeme(cs, toks[k])
}

/// Two token kinds that are the same, comparing the text they carry by its characters.
pub open spec fn same_kind(a: TokKind, b: TokKind) -> bool {
    match (a, b) {
        (TokKind::Ident(x), TokKind::Ident(y)) => x@ == y@,
        (TokKind::Decimal(x), TokKind::Decimal(y)) => x@ == y@,
        (TokKind::Str(x), TokKind::Str(y)) => x@ == y@,
        (TokKind::Ident(_), _) | (TokKind::Decimal(_), _) | (TokKind::Str(_), _) => false,
        _ => a == b,
    }
}

/// Two token sequences that are the same token for token.
pub open spec fn same_toks(a: Seq<Tok>, b: Seq<Tok>) -> bool {
    &&& a.len() == b.len()
    &&& forall|k: int|
        0 <= k < a.len() ==> (#[trigger] a[k]).start == b[k].start && a[k].end == b[k].end && same_kind(
            a[k].kind,
            b[k].kind,
        )
}

/// A run of characters satisfying `p` that starts at `s` and cannot be extended ends in one place.
proof fn lemma_run_end(cs: Seq<char>, s: int, e1: int, e2: int, p: spec_fn(char) -> bool)
    requires
        0 <= s <= e1 <= cs.len(),
        s <= e2 <= cs.len(),
        forall|k: int| s <= k < e1 ==> #[trigger] p(cs[k]),
        forall|k: int| s <= k < e2 ==> #[trigger] p(cs[k]),
        e1 < cs.len() ==> !p(cs[e1]),
        e2 < cs.len() ==> !p(cs[e2]),
    ensures
        e1 == e2,
{
    if e1 < e2 {
        assert(p(cs[e1]));
    } else if e2 < e1 {
        assert(p(cs[e2]));
    }
}

proof fn lemma_sub_digits(cs: Seq<char>, a: int, b: int)
    requires
        0 <= a <= b <= cs.len(),
        all_digits(cs.subrange(a, b)),
    ensures
        forall|k: int| a <= k < b ==> #[trigger] is_digit(cs[k]),
{
    assert forall|k: int| a <= k < b implies #[trigger] is_digit(cs[k]) by {
        assert(cs.subrange(a, b)[k - a] == cs[k]);
    }
}

proof fn lemma_sub_hex(cs: Seq<char>, a: int, b: int)
    requires
        0 <= a <= b <= cs.len(),
        all_hex(cs.subrange(a, b)),
    ensures
        forall|k: int| a <= k < b ==> (#[trigger] hex_digit_value(cs[k])) is Some,
{
    assert forall|k: int| a <= k < b implies (#[trigger] hex_digit_value(cs[k])) is Some by {
        assert(cs.subrange(a, b)[k - a] == cs[k]);
    }
}

/// What the first characters of a token are, by its kind.
pub proof fn lemma_tok_first(cs: Seq<char>, t: Tok)
    requires
        tok_spells(cs, t),
    ensures
        t.start < t.end <= cs.len(),
        gap_stop(cs, t.start as int),
        (t.kind is Ident || t.kind is Def || t.kind is True || t.kind is False) <==> is_ident_start(
            cs[t.start as int],
        ),
        t.kind is Uint ==> is_digit(cs[t.start as int]),
        t.kind is Sint ==> (cs[t.start as int] == '-' || cs[t.start as int] == '+') && t.start + 1
            < t.end && is_digit(cs[t.start + 1]),
        t.kind is Decimal ==> is_digit(cs[t.start as int]) || ((cs[t.start as int] == '-'
            || cs[t.start as int] == '+') && t.start + 1 < t.end && is_digit(cs[t.start + 1])),
        t.kind is Str <==> cs[t.start as int] == '"',
        t.kind is Chr <==> cs[t.start as int] == '\'',
        t.kind is Arrow ==> cs[t.start as int] == '-' && t.start + 1 < t.end && cs[t.start + 1] == '>',
        t.kind is LParen <==> cs[t.start as int] == '(',
        t.kind is RParen <==> cs[t.start as int] == ')',
        t.kind is LBrace <==> cs[t.start as int] == '{',
        t.kind is RBrace <==> cs[t.start as int] == '}',
        t.kind is LBracket <==> cs[t.start as int] == '[',
        t.kind is RBracket <==> cs[t.start as int] == ']',
        t.kind is Comma <==> cs[t.start as int] == ',',
        t.kind is Semicolon <==> cs[t.start as int] == ';',
        t.kind is Colon <==> cs[t.start as int] == ':',
        t.kind is Equals <==> cs[t.start as int] == '=',
{
    reveal(tok_spells);
    reveal_strlit("def");
    reveal_strlit("true");
    reveal_strlit("false");
    let x = tok_text(cs, t);
    let s = t.start as int;
    assert(x[0] == cs[s]);
    if x.len() > 1 {
        assert(x[1] == cs[s + 1]);
    }
    match t.kind {
        TokKind::Decimal(d) => {
            if !(x[0] == '-' || x[0] == '+') {
                let body = x;
                assert(is_digit(body[0]));
            } else {
                assert(x.skip(1)[0] == x[1]);
            }
        },
        TokKind::Sint(_) => {
            assert(x.skip(1)[0] == x[1]);
        },
        TokKind::Uint(_) => {
            if !(x.len() > 0 && all_digits(x)) {
                assert(x[0] == '0');
            }
        },
        TokKind::Str(_) => {},
        TokKind::Chr(_) => {},
        _ => {},
    }
}

/// Whitespace and comments that start at `i` and stop where they must stop end in one place.
pub proof fn lemma_gap_unique(cs: Seq<char>, i: int, j1: int, j2: int)
    requires
        skippable(cs, i, j1),
        skippable(cs, i, j2),
        gap_stop(cs, j1),
        gap_stop(cs, j2),
    ensures
        j1 == j2,
    decreases j1 - i,
{
    reveal(skippable);
    if i == j1 || i == j2 {
    } else if is_whitespace(cs[i]) {
        lemma_gap_unique(cs, i + 1, j1, j2);
    } else {
        lemma_line_end(cs, i);
        lemma_gap_unique(cs, line_end(cs, i), j1, j2);
    }
}

/// The digits of the text of a numeral with a fractional point: they run from `a` to the point
/// at `p`, and from after the point to the end.
proof fn lemma_decimal_parts(cs: Seq<char>, t: Tok) -> (p: int)
    requires
        tok_spells(cs, t),
        t.kind is Decimal,
    ensures
        ({
            let a = if is_digit(cs[t.start as int]) { t.start as int } else { t.start + 1 };
            &&& t.start <= a < p
            &&& p + 1 < t.end
            &&& cs[p] == '.'
            &&& (is_digit(cs[t.start as int]) || cs[t.start as int] == '-' || cs[t.start as int] == '+')
            &&& forall|k: int| a <= k < p ==> #[trigger] is_digit(cs[k])
            &&& forall|k: int| p < k < t.end ==> #[trigger] is_digit(cs[k])
        }),
{
    reveal(tok_spells);
    lemma_tok_first(cs, t);
    let x = tok_text(cs, t);
    let st = t.start as int;
    let signed = x[0] == '-' || x[0] == '+';
    let body = if x.len() > 0 && (x[0] == '-' || x[0] == '+') { x.skip(1) } else { x };
    let a = if signed { st + 1 } else { st };
    let d = t.kind->Decimal_0;
    assert(decimal_text(x, d@));
    assert(at_most_one_point(body));
    assert(digits_and_points(body));
    assert(x[0] == cs[st]);
    assert(forall|k: int| 0 <= k < body.len() ==> body[k] == cs[a + k]);
    let q = choose|q: int| 0 <= q < body.len() && body[q] == '.';
    assert(body.contains('.'));
    assert(0 <= q < body.len() && body[q] == '.');
    assert(is_digit(body[0]));
    assert(q != 0);
    assert(q != body.len() - 1);
    assert forall|k: int| a <= k < a + q implies #[trigger] is_digit(cs[k]) by {
        assert(body[k - a] == cs[k]);
        if body[k - a] == '.' {
            assert(body[q] != '.');
        }
    }
    assert forall|k: int| a + q < k < t.end implies #[trigger] is_digit(cs[k]) by {
        assert(body[k - a] == cs[k]);
        if body[k - a] == '.' {
            assert(body[k - a] != '.');
        }
    }
    if !signed {
        assert(is_digit(cs[st]));
    } else {
        assert(!is_digit(cs[st]));
    }
    a + q
}

/// Two whole lexemes that start at the same place are the same token.
pub proof fn lemma_tok_unique(cs: Seq<char>, t1: Tok, t2: Tok)
    requires
        tok_spells(cs, t1),
        tok_spells(cs, t2),
        ends_lexeme(cs, t1),
        ends_lexeme(cs, t2),
        t1.start == t2.start,
    ensures
        t1.end == t2.end,
        same_kind(t1.kind, t2.kind),
{
    lemma_tok_first(cs, t1);
    lemma_tok_first(cs, t2);
    let s = t1.start as int;
    let c = cs[s];
    let x1 = tok_text(cs, t1);
    let x2 = tok_text(cs, t2);
    if is_ident_start(c) {
        reveal(tok_spells);
        assert forall|k: int| s <= k < t1.end implies #[trigger] is_ident_char(cs[k]) by {
            assert(x1[k - s] == cs[k]);
            reveal_strlit("def");
            reveal_strlit("true");
            reveal_strlit("false");
        }
        assert forall|k: int| s <= k < t2.end implies #[trigger] is_ident_char(cs[k]) by {
            assert(x2[k - s] == cs[k]);
            reveal_strlit("def");
            reveal_strlit("true");
            reveal_strlit("false");
        }
        lemma_run_end(cs, s, t1.end as int, t2.end as int, |ch: char| is_ident_char(ch));
        assert(x1 == x2);
        reveal_strlit("def");
        reveal_strlit("true");
        reveal_strlit("false");
        assert("def"@ != "true"@ && "def"@ != "false"@ && "true"@ != "false"@) by {
            assert("def"@.len() != "true"@.len());
            assert("true"@.len() != "false"@.len());
            assert("def"@.len() != "false"@.len());
        }
    } else if c == '"' || c == '\'' {
        reveal(tok_spells);
        assert(x1.subrange(1, x1.len() - 1) =~= cs.subrange(s + 1, t1.end - 1));
        assert(x2.subrange(1, x2.len() - 1) =~= cs.subrange(s + 1, t2.end - 1));
        if c == '"' {
            assert(t1.kind is Str && t2.kind is Str);
        } else {
            assert(t1.kind is Chr && t2.kind is Chr);
            if let (TokKind::Chr(a), TokKind::Chr(b)) = (t1.kind, t2.kind) {
                assert(seq![a][0] == a && seq![b][0] == b);
            }
        }
    } else if t1.kind is Arrow || t2.kind is Arrow {
        reveal(tok_spells);
        assert(cs[s + 1] == '>' && !is_digit(cs[s + 1]));
    } else if t1.kind is Sint || t1.kind is Decimal || t1.kind is Uint {
        lemma_tok_unique_numeral(cs, t1, t2);
    } else if t2.kind is Sint || t2.kind is Decimal || t2.kind is Uint {
        lemma_tok_unique_numeral(cs, t2, t1);
    } else {
        reveal(tok_spells);
    }
}

/// The digits of an unsigned numeral: hexadecimal after `0x`, or decimal from its start.
proof fn lemma_uint_parts(cs: Seq<char>, t: Tok)
    requires
        tok_spells(cs, t),
        t.kind is Uint,
    ensures
        ({
            let x = tok_text(cs, t);
            let s = t.start as int;
            if is_hex_text(x) {
                &&& hex_prefix_at(cs, s)
                &&& forall|k: int| s + 2 <= k < t.end ==> (#[trigger] hex_digit_value(cs[k])) is Some
                &&& t.kind->Uint_0 == hex_value(x.skip(2))
            } else {
                &&& forall|k: int| s <= k < t.end ==> #[trigger] is_digit(cs[k])
                &&& t.kind->Uint_0 == decimal_value(x)
            }
        }),
{
    reveal(tok_spells);
    let x = tok_text(cs, t);
    let s = t.start as int;
    let e = t.end as int;
    if is_hex_text(x) {
        assert(!is_digit(x[1]));
        assert(!all_digits(x));
        assert(x.skip(2) =~= cs.subrange(s + 2, e));
        lemma_sub_hex(cs, s + 2, e);
        assert(x[0] == cs[s] && x[1] == cs[s + 1]);
    } else {
        assert(all_digits(x));
        lemma_sub_digits(cs, s, e);
    }
}

/// Two whole numeral lexemes that start at the same place are the same token.
proof fn lemma_tok_unique_numeral(cs: Seq<char>, t1: Tok, t2: Tok)
    requires
        tok_spells(cs, t1),
        tok_spells(cs, t2),
        ends_lexeme(cs, t1),
        ends_lexeme(cs, t2),
        t1.start == t2.start,
        t1.kind is Sint || t1.kind is Decimal || t1.kind is Uint,
    ensures
        t1.end == t2.end,
        same_kind(t1.kind, t2.kind),
        same_kind(t2.kind, t1.kind),
{
    lemma_tok_first(cs, t1);
    lemma_tok_first(cs, t2);
    let s = t1.start as int;
    let e1 = t1.end as int;
    let e2 = t2.end as int;
    let x1 = tok_text(cs, t1);
    let x2 = tok_text(cs, t2);
    let dig = |ch: char| is_digit(ch);
    let hexd = |ch: char| hex_digit_value(ch) is Some;
    assert(t2.kind is Sint || t2.kind is Decimal || t2.kind is Uint) by {
        if t2.kind is Arrow {
            assert(!is_digit(cs[s + 1]));
        }
    }
    // The hexadecimal numeral: the other must be hexadecimal too.
    if (t1.kind is Uint && is_hex_text(x1)) || (t2.kind is Uint && is_hex_text(x2)) {
        let (h, o) = if t1.kind is Uint && is_hex_text(x1) { (t1, t2) } else { (t2, t1) };
        let xh = tok_text(cs, h);
        let xo = tok_text(cs, o);
        lemma_uint_parts(cs, h);
        assert(!is_digit(cs[s + 1]));
        if o.kind is Uint {
            lemma_uint_parts(cs, o);
            if is_hex_text(xo) {
                lemma_run_end(cs, s + 2, h.end as int, o.end as int, hexd);
                assert(xh == xo);
            } else {
                assert(hex_prefix_at(cs, s));
            }
        } else if o.kind is Decimal {
            let p = lemma_decimal_parts(cs, o);
            assert(p == s + 1 || is_digit(cs[s + 1]));
        }
    } else if t1.kind is Uint || t2.kind is Uint {
        // A decimal unsigned numeral: the other starts with a digit too.
        let (u, o) = if t1.kind is Uint { (t1, t2) } else { (t2, t1) };
        lemma_uint_parts(cs, u);
        if o.kind is Uint {
            lemma_uint_parts(cs, o);
            lemma_run_end(cs, s, u.end as int, o.end as int, dig);
            assert(tok_text(cs, u) == tok_text(cs, o));
        } else if o.kind is Decimal {
            let p = lemma_decimal_parts(cs, o);
            lemma_run_end(cs, s, u.end as int, p, dig);
            assert(fraction_at(cs, u.end as int));
        }
    } else if t1.kind is Sint || t2.kind is Sint {
        let (u, o) = if t1.kind is Sint { (t1, t2) } else { (t2, t1) };
        reveal(tok_spells);
        let xu = tok_text(cs, u);
        assert(xu.skip(1) =~= cs.subrange(s + 1, u.end as int));
        lemma_sub_digits(cs, s + 1, u.end as int);
        if o.kind is Sint {
            let xo = tok_text(cs, o);
            assert(xo.skip(1) =~= cs.subrange(s + 1, o.end as int));
            lemma_sub_digits(cs, s + 1, o.end as int);
            lemma_run_end(cs, s + 1, u.end as int, o.end as int, dig);
            assert(xu == xo);
        } else {
            let p = lemma_decimal_parts(cs, o);
            lemma_run_end(cs, s + 1, u.end as int, p, dig);
            assert(fraction_at(cs, u.end as int));
        }
    } else {
        let p1 = lemma_decimal_parts(cs, t1);
        let p2 = lemma_decimal_parts(cs, t2);
        let a = if is_digit(cs[s]) { s } else { s + 1 };
        lemma_run_end(cs, a, p1, p2, dig);
        lemma_run_end(cs, p1 + 1, e1, e2, dig);
        assert(x1 == x2);
        reveal(tok_spells);
    }
}

proof fn lemma_lexes_prefix(cs: Seq<char>, t1: Seq<Tok>, t2: Seq<Tok>, n: int)
    requires
        lexes(cs, t1),
        lexes(cs, t2),
        0 <= n <= t1.len(),
        n <= t2.len(),
    ensures
        forall|k: int|
            0 <= k < n ==> (#[trigger] t1[k]).start == t2[k].start && t1[k].end == t2[k].end
                && same_kind(t1[k].kind, t2[k].kind),
        prev_end(t1, n) == prev_end(t2, n),
    decreases n,
{
    if n > 0 {
        lemma_lexes_prefix(cs, t1, t2, n - 1);
        let k = n - 1;
        assert(tok_ok(cs, t1, k));
        assert(tok_ok(cs, t2, k));
        assert(ends_lexeme(cs, t1[k]));
        assert(ends_lexeme(cs, t2[k]));
        lemma_tok_first(cs, t1[k]);
        lemma_tok_first(cs, t2[k]);
        lemma_gap_unique(cs, prev_end(t1, k), t1[k].start as int, t2[k].start as int);
        lemma_tok_unique(cs, t1[k], t2[k]);
    }
}

/// A text has at most one tokenization into whole lexemes.
pub proof fn lemma_lexes_unique(cs: Seq<char>, t1: Seq<Tok>, t2: Seq<Tok>)
    requires
        lexes(cs, t1),
        lexes(cs, t2),
    ensures
        same_toks(t1, t2),
{
    if t1.len() < t2.len() {
        lemma_lexes_prefix(cs, t1, t2, t1.len() as int);
        let n = t1.len() as int;
        assert(tok_ok(cs, t2, n));
        lemma_tok_first(cs, t2[n]);
        lemma_gap_unique(cs, prev_end(t1, n), cs.len() as int, t2[n].start as int);
    } else if t2.len() < t1.len() {
        lemma_lexes_prefix(cs, t1, t2, t2.len() as int);
        let n = t2.len() as int;
        assert(tok_ok(cs, t1, n));
        lemma_tok_first(cs, t1[n]);
        lemma_gap_unique(cs, prev_end(t2, n), cs.len() as int, t1[n].start as int);
    } else {
        lemma_lexes_prefix(cs, t1, t2, t1.len() as int);
    }
}

/// `t` is a whole lexeme of `cs`.
pub open spec fn lexeme_at(cs: Seq<char>, t: Tok) -> bool {
    tok_spells(cs, t) && ends_lexeme(cs, t)
}

/// Appending digits never makes a decimal numeral smaller.
pub proof fn lemma_decimal_value_grows(cs: Seq<char>, a: int, b: int, c: int)
    requires
        0 <= a <= b <= c <= cs.len(),
    ensures
        decimal_value(cs.subrange(a, b)) <= decimal_value(cs.subrange(a, c)),
    decreases c - b,
{
    if b < c {
        lemma_decimal_value_grows(cs, a, b, c - 1);
        assert(cs.subrange(a, c).drop_last() =~= cs.subrange(a, c - 1));
    }
}

/// Appending digits never makes a hexadecimal numeral smaller.
pub proof fn lemma_hex_value_grows(cs: Seq<char>, a: int, b: int, c: int)
    requires
        0 <= a <= b <= c <= cs.len(),
    ensures
        hex_value(cs.subrange(a, b)) <= hex_value(cs.subrange(a, c)),
    decreases c - b,
{
    if b < c {
        lemma_hex_value_grows(cs, a, b, c - 1);
        assert(cs.subrange(a, c).drop_last() =~= cs.subrange(a, c - 1));
    }
}

/// A whole lexeme that starts with `0x` and a hexadecimal digit is a hexadecimal numeral.
pub proof fn lemma_hex_lexeme(cs: Seq<char>, t: Tok)
    requires
        lexeme_at(cs, t),
        hex_prefix_at(cs, t.start as int),
    ensures
        t.kind is Uint,
        t.start + 3 <= t.end <= cs.len(),
        forall|k: int| t.start + 2 <= k < t.end ==> (#[trigger] hex_digit_value(cs[k])) is Some,
        !hex_at(cs, t.end as int),
        t.kind->Uint_0 == hex_value(cs.subrange(t.start + 2, t.end as int)),
{
    let s = t.start as int;
    lemma_tok_first(cs, t);
    assert(!is_digit(cs[s + 1]) && cs[s + 1] != '.');
    if t.kind is Decimal {
        let p = lemma_decimal_parts(cs, t);
        assert(p == s + 1 || is_digit(cs[s + 1]));
    }
    assert(t.kind is Uint);
    lemma_uint_parts(cs, t);
    let x = tok_text(cs, t);
    if is_hex_text(x) {
        assert(x.skip(2) =~= cs.subrange(s + 2, t.end as int));
    } else {
        assert(is_digit(cs[s + 1]));
    }
}

/// A whole lexeme that starts where a run of decimal digits (after an optional sign) starts,
/// when the run is not followed by a fractional part, is the integer numeral of that run.
pub proof fn lemma_int_lexeme(cs: Seq<char>, ds: int, k: int, t: Tok)
    requires
        lexeme_at(cs, t),
        t.start <= ds <= t.start + 1,
        ds < k <= cs.len(),
        ds == t.start ==> is_digit(cs[ds]) && !hex_prefix_at(cs, ds),
        ds == t.start + 1 ==> cs[t.start as int] == '-' || cs[t.start as int] == '+',
        forall|m: int| ds <= m < k ==> #[trigger] is_digit(cs[m]),
        !digit_at(cs, k),
        !fraction_at(cs, k),
    ensures
        t.end == k,
        t.kind is Uint || t.kind is Sint,
        t.kind is Uint ==> ds == t.start && t.kind->Uint_0 == decimal_value(cs.subrange(ds, k)),
        t.kind is Sint ==> ds == t.start + 1 && t.kind->Sint_0 == (if cs[t.start as int] == '-' {
            -(decimal_value(cs.subrange(ds, k)) as int)
        } else {
            decimal_value(cs.subrange(ds, k)) as int
        }),
{
    let s = t.start as int;
    let dig = |ch: char| is_digit(ch);
    lemma_tok_first(cs, t);
    assert(is_digit(cs[ds]));
    if ds == s + 1 {
        assert(!is_digit(cs[s]));
    }
    assert(t.kind is Uint || t.kind is Sint || t.kind is Decimal) by {
        if t.kind is Arrow {
            assert(!is_digit(cs[s + 1]));
        }
    }
    if t.kind is Uint {
        lemma_uint_parts(cs, t);
        lemma_run_end(cs, s, t.end as int, k, dig);
    } else if t.kind is Sint {
        reveal(tok_spells);
        let x = tok_text(cs, t);
        assert(x.skip(1) =~= cs.subrange(s + 1, t.end as int));
        lemma_sub_digits(cs, s + 1, t.end as int);
        lemma_run_end(cs, s + 1, t.end as int, k, dig);
        assert(x[0] == cs[s]);
    } else {
        let p = lemma_decimal_parts(cs, t);
        lemma_run_end(cs, ds, p, k, dig);
    }
}

} // verus!
