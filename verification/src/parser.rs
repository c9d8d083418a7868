//! The grammar of dgen programs, as a parser over the tokens of [`crate::scan`].
//!
//! ```text
//! program  := def* expr?
//! def      := "def" ident "(" (param ("," param)*)? ")" "=" expr ";"
//! param    := ident ":" type
//! expr     := literal | ident | ident "(" (expr ("," expr)*)? ")" mapper?
//! mapper   := "{" ident "->" expr "}"
//! literal  := uint | sint | decimal | string | char | "true" | "false" | "[" (uint ("," uint)*)? "]"
//! ```

use vstd::prelude::*;
use crate::ast::{
    join_lines, gen_type_name, Expr, FunctionCall, FunctionMapper, GenType, IString, MacroArgument, MacroDef, Program, Span,
    WithSpan, process_doc_comments,
};
use crate::scan::{
    prev_end, scan, tokenizes, DocLine, ScanError, Scanned, Tok, TokKind,
};
use crate::text::{lemma_byte_len_take_mono, byte_len, byte_offsets, chars_of};
use crate::errors::{is_boundary, region_text, SourceErrRegion};
use crate::parse_facts::{lemma_args_elem, lemma_defs_elem, lemma_expr_at_same, lemma_program_at_same};
use crate::lexeme::{lemma_lexes_unique, lexes};
use crate::scan::{doc_view, text_docs, tok_ok, tok_spells};

verus! {

/// Why a token sequence is not a program: the index of the offending token (the number of
/// tokens when the input ended too early) and what was expected there.
#[derive(Debug, Clone, Copy, PartialEq)]
pub struct ParseFailure {
    pub tok: usize,
    pub expected: &'static str,
}

/// Number of tokens an expression is written with.
pub open spec fn expr_ntoks(e: Expr) -> nat
    decreases e,
{
    match e {
        Expr::Function(call) => 3 + args_ntoks(call.args@) + match call.mapper {
            Some(m) => 4 + expr_ntoks(m.mapper_body.value),
            None => 0,
        },
        Expr::BinaryLiteral(bytes) => if bytes@.len() == 0 {
            2
        } else {
            2 * bytes@.len() + 1
        },
        _ => 1,
    }
}

/// Number of tokens a comma-separated argument list is written with.
pub open spec fn args_ntoks(args: Seq<WithSpan<Expr>>) -> nat
    decreases args,
{
    if args.len() == 0 {
        0
    } else {
        args_ntoks(args.drop_last()) + (if args.len() > 1 {
            1nat
        } else {
            0nat
        }) + expr_ntoks(args.last().value)
    }
}

pub open spec fn is_ident(t: Tok, name: Seq<char>) -> bool {
    t.kind matches TokKind::Ident(n) && n@ == name
}

/// The tokens from `i` on are the expression `e`, and `e.span` runs from the first byte of
/// the first token to the last byte of the last one.
pub open spec fn expr_at(toks: Seq<Tok>, offs: Seq<usize>, i: int, e: WithSpan<Expr>) -> bool
    decreases e,
{
    let n = expr_ntoks(e.value);
    &&& 0 <= i
    &&& i + n <= toks.len()
    &&& e.span.start == offs[toks[i].start as int]
    &&& e.span.end == offs[toks[i + n - 1].end as int]
    &&& expr_shape(toks, offs, i, e.value)
}

/// The tokens from `i` on are written as `e` says.
pub open spec fn expr_shape(toks: Seq<Tok>, offs: Seq<usize>, i: int, e: Expr) -> bool
    decreases e,
{
    match e {
        Expr::IntLiteral(v) => toks[i].kind == TokKind::Uint(v),
        Expr::SignedIntLiteral(v) => toks[i].kind == TokKind::Sint(v),
        Expr::DecimalLiteral(d) => toks[i].kind matches TokKind::Decimal(t) && t@ == d@,
        Expr::StringLiteral(s) => toks[i].kind matches TokKind::Str(t) && t@ == s@,
        Expr::CharLiteral(c) => toks[i].kind == TokKind::Chr(c),
        Expr::BooleanLiteral(b) => toks[i].kind == (if b {
            TokKind::True
        } else {
            TokKind::False
        }),
        Expr::ArgumentUsage(name) => is_ident(toks[i], name@) && !(i + 1 < toks.len() && toks[i
            + 1].kind == TokKind::LParen),
        Expr::BinaryLiteral(bytes) => {
            &&& toks[i].kind == TokKind::LBracket
            &&& forall|k: int|
                0 <= k < bytes@.len() ==> toks[i + 1 + 2 * k].kind == TokKind::Uint(
                    #[trigger] bytes@[k] as u64,
                )
            &&& forall|k: int|
                0 <= k < bytes@.len() - 1 ==> #[trigger] toks[i + 2 + 2 * k].kind == TokKind::Comma
            &&& toks[i + expr_ntoks(e) - 1].kind == TokKind::RBracket
        },
        Expr::Function(call) => {
            let close = i + 2 + args_ntoks(call.args@);
            &&& is_ident(toks[i], call.function_name@)
            &&& toks[i + 1].kind == TokKind::LParen
            &&& args_at(toks, offs, i + 2, call.args@)
            &&& toks[close].kind == TokKind::RParen
            &&& match call.mapper {
                None => !(close + 1 < toks.len() && toks[close + 1].kind == TokKind::LBrace),
                Some(m) => {
                    &&& toks[close + 1].kind == TokKind::LBrace
                    &&& is_ident(toks[close + 2], m.arg_name@)
                    &&& toks[close + 3].kind == TokKind::Arrow
                    &&& expr_at(toks, offs, close + 4, m.mapper_body)
                    &&& toks[close + 4 + expr_ntoks(m.mapper_body.value)].kind == TokKind::RBrace
                },
            }
        },
    }
}

/// The tokens from `i` on are the comma-separated expressions `args`.
pub open spec fn args_at(toks: Seq<Tok>, offs: Seq<usize>, i: int, args: Seq<WithSpan<Expr>>) -> bool
    decreases args,
{
    if args.len() == 0 {
        true
    } else {
        let init = args.drop_last();
        let k = i + args_ntoks(init);
        &&& args_at(toks, offs, i, init)
        &&& (args.len() > 1 ==> toks[k].kind == TokKind::Comma)
        &&& expr_at(toks, offs, k + (if args.len() > 1 { 1int } else { 0int }), args.last())
    }
}


/// Every token's character range indexes into `offs`.
pub open spec fn toks_in(toks: Seq<Tok>, offs: Seq<usize>) -> bool {
    forall|k: int| 0 <= k < toks.len() ==> (#[trigger] toks[k]).start < toks[k].end < offs.len()
}

/// The token kinds that carry no value.
#[derive(Clone, Copy, PartialEq, Eq, Structural)]
pub enum Punct {
    LParen,
    RParen,
    LBrace,
    RBrace,
    LBracket,
    RBracket,
    Comma,
    Semicolon,
    Colon,
    Equals,
    Arrow,
    Def,
}

pub open spec fn punct_kind(p: Punct) -> TokKind {
    match p {
        Punct::LParen => TokKind::LParen,
        Punct::RParen => TokKind::RParen,
        Punct::LBrace => TokKind::LBrace,
        Punct::RBrace => TokKind::RBrace,
        Punct::LBracket => TokKind::LBracket,
        Punct::RBracket => TokKind::RBracket,
        Punct::Comma => TokKind::Comma,
        Punct::Semicolon => TokKind::Semicolon,
        Punct::Colon => TokKind::Colon,
        Punct::Equals => TokKind::Equals,
        Punct::Arrow => TokKind::Arrow,
        Punct::Def => TokKind::Def,
    }
}

/// Whether token `i` exists and is the punctuation `p`.
fn tok_is(toks: &Vec<Tok>, i: usize, p: Punct) -> (b: bool)
    ensures
        b == (i < toks@.len() && toks@[i as int].kind == punct_kind(p)),
{
    if i >= toks.len() {
        return false;
    }
    match (&toks[i].kind, p) {
        (TokKind::LParen, Punct::LParen) => true,
        (TokKind::RParen, Punct::RParen) => true,
        (TokKind::LBrace, Punct::LBrace) => true,
        (TokKind::RBrace, Punct::RBrace) => true,
        (TokKind::LBracket, Punct::LBracket) => true,
        (TokKind::RBracket, Punct::RBracket) => true,
        (TokKind::Comma, Punct::Comma) => true,
        (TokKind::Semicolon, Punct::Semicolon) => true,
        (TokKind::Colon, Punct::Colon) => true,
        (TokKind::Equals, Punct::Equals) => true,
        (TokKind::Arrow, Punct::Arrow) => true,
        (TokKind::Def, Punct::Def) => true,
        _ => false,
    }
}

/// The name of token `i` when it is an identifier.
fn tok_ident(toks: &Vec<Tok>, i: usize) -> (r: Option<IString>)
    ensures
        r matches Some(n) ==> i < toks@.len() && is_ident(toks@[i as int], n@),
        r is None ==> !(i < toks@.len() && toks@[i as int].kind is Ident),
{
    if i >= toks.len() {
        return None;
    }
    match &toks[i].kind {
        TokKind::Ident(n) => Some(n.clone()),
        _ => None,
    }
}

fn failure(tok: usize, expected: &'static str) -> (f: ParseFailure)
    ensures
        f.tok == tok,
{
    ParseFailure { tok, expected }
}

/// The bytes of the binary literal `e`.
pub open spec fn bin_bytes(e: WithSpan<Expr>) -> Seq<u8> {
    e.value->BinaryLiteral_0@
}

/// Parses a binary literal `[b, ...]` whose `[` is token `i`.
fn parse_bin(toks: &Vec<Tok>, offs: &Vec<usize>, i: usize) -> (r: Result<
    (WithSpan<Expr>, usize),
    ParseFailure,
>)
    requires
        toks_in(toks@, offs@),
        toks@.len() < usize::MAX - 16,
        i < toks@.len(),
        toks@[i as int].kind == TokKind::LBracket,
    ensures
        r matches Ok((e, j)) ==> j == i + expr_ntoks(e.value) && j <= toks@.len() && expr_at(
            toks@,
            offs@,
            i as int,
            e,
        ),
        r matches Err(f) ==> f.tok <= toks@.len(),
        forall|e: WithSpan<Expr>| #[trigger] expr_at(toks@, offs@, i as int, e) ==> (r matches Ok((_, j)) && j
            == i + expr_ntoks(e.value)),
{
    let mut bytes: Vec<u8> = Vec::new();
    let mut k: usize = i + 1;
    if tok_is(toks, k, Punct::RBracket) {
        let e = WithSpan {
            span: Span { start: offs[toks[i].start], end: offs[toks[k].end] },
            value: Expr::BinaryLiteral(bytes),
        };
        assert forall|e2: WithSpan<Expr>| #[trigger] expr_at(toks@, offs@, i as int, e2) implies expr_ntoks(e2.value) == 2 by {
            if bin_bytes(e2).len() > 0 {
                assert(toks@[i + 1 + 2 * 0].kind == TokKind::Uint(bin_bytes(e2)[0] as u64));
            }
        }
        return Ok((e, k + 1));
    }
    assert forall|e2: WithSpan<Expr>| #[trigger] expr_at(toks@, offs@, i as int, e2) implies e2.value is BinaryLiteral
        && bin_bytes(e2).len() > 0 by {
    }
    loop
        invariant
            toks_in(toks@, offs@),
            toks@.len() < usize::MAX - 16,
            i < toks@.len(),
            toks@[i as int].kind == TokKind::LBracket,
            k == i + 1 + 2 * bytes@.len(),
            forall|t: int|
                0 <= t < bytes@.len() ==> toks@[i + 1 + 2 * t].kind == TokKind::Uint(
                    #[trigger] bytes@[t] as u64,
                ),
            forall|t: int|
                0 <= t < bytes@.len() ==> #[trigger] toks@[i + 2 + 2 * t].kind == TokKind::Comma,
            forall|e2: WithSpan<Expr>| #[trigger] expr_at(toks@, offs@, i as int, e2) ==> e2.value is BinaryLiteral
                && bytes@.len() < bin_bytes(e2).len() && bytes@ =~= bin_bytes(e2).take(bytes@.len() as int),
        decreases toks@.len() + 2 - k,
    {
        let ghost n = bytes@.len() as int;
        assert forall|e2: WithSpan<Expr>| #[trigger] expr_at(toks@, offs@, i as int, e2) implies k < toks@.len()
            && toks@[k as int].kind == TokKind::Uint(bin_bytes(e2)[n] as u64) by {
            assert(toks@[i + 1 + 2 * n].kind == TokKind::Uint(bin_bytes(e2)[n] as u64));
        }
        if k >= toks.len() {
            return Err(failure(toks.len(), "a byte"));
        }
        let v: u64 = match &toks[k].kind {
            TokKind::Uint(v) => *v,
            _ => {
                return Err(failure(k, "a byte"));
            },
        };
        if v > 255 {
            return Err(failure(k, "a byte no larger than 255"));
        }
        let ghost old_bytes = bytes@;
        bytes.push(v as u8);
        assert forall|e2: WithSpan<Expr>| #[trigger] expr_at(toks@, offs@, i as int, e2) implies bytes@ =~= bin_bytes(
            e2,
        ).take(n + 1) by {
            assert(toks@[k as int].kind == TokKind::Uint(bin_bytes(e2)[n] as u64));
            assert(bin_bytes(e2)[n] == v as u8);
            assert(bin_bytes(e2).take(n + 1) =~= bin_bytes(e2).take(n).push(bin_bytes(e2)[n]));
        }
        assert forall|e2: WithSpan<Expr>| #[trigger] expr_at(toks@, offs@, i as int, e2) implies (n + 1 < bin_bytes(
            e2,
        ).len() ==> toks@[k + 1].kind == TokKind::Comma) && (n + 1 == bin_bytes(e2).len() ==> toks@[k + 1].kind
            == TokKind::RBracket) by {
            if n + 1 < bin_bytes(e2).len() {
                assert(toks@[i + 2 + 2 * n].kind == TokKind::Comma);
            }
        }
        if tok_is(toks, k + 1, Punct::Comma) {
            k = k + 2;
        } else if tok_is(toks, k + 1, Punct::RBracket) {
            let e = WithSpan {
                span: Span { start: offs[toks[i].start], end: offs[toks[k + 1].end] },
                value: Expr::BinaryLiteral(bytes),
            };
            proof {
                let n = bytes@.len();
                assert forall|t: int| 0 <= t < n - 1 implies #[trigger] toks@[i + 2 + 2 * t].kind
                    == TokKind::Comma by {}
            }
            return Ok((e, k + 2));
        } else {
            return Err(failure(k + 1, "`,` or `]`"));
        }
    }
}


/// The one-token expression at token `i`, whose value is `value`.
fn single(toks: &Vec<Tok>, offs: &Vec<usize>, i: usize, value: Expr) -> (e: WithSpan<Expr>)
    requires
        toks_in(toks@, offs@),
        i < toks@.len(),
    ensures
        e.value == value,
        e.span.start == offs@[toks@[i as int].start as int],
        e.span.end == offs@[toks@[i as int].end as int],
{
    WithSpan { span: Span { start: offs[toks[i].start], end: offs[toks[i].end] }, value }
}

proof fn lemma_args_push(toks: Seq<Tok>, offs: Seq<usize>, i: int, args: Seq<WithSpan<Expr>>, a: WithSpan<Expr>)
    requires
        args_at(toks, offs, i, args),
        args.len() > 0 ==> toks[i + args_ntoks(args)].kind == TokKind::Comma,
        expr_at(toks, offs, i + args_ntoks(args) + (if args.len() > 0 { 1int } else { 0int }), a),
    ensures
        args_at(toks, offs, i, args.push(a)),
        args_ntoks(args.push(a)) == args_ntoks(args) + (if args.len() > 0 { 1nat } else { 0nat }) + expr_ntoks(a.value),
{
    assert(args.push(a).drop_last() =~= args);
    assert(args.push(a).last() == a);
}

/// The arguments of the function call `e`.
pub open spec fn call_args(e: WithSpan<Expr>) -> Seq<WithSpan<Expr>> {
    e.value->Function_0.args@
}

/// The index of the `)` that closes the argument list of the call `e` read from token `i`.
pub open spec fn call_close(e: WithSpan<Expr>, i: int) -> int {
    i + 2 + args_ntoks(call_args(e))
}

/// Parses the expression that starts at token `i`; on success also returns the index of the
/// token after it. It fails only where no expression starts at `i`.
fn parse_expr(toks: &Vec<Tok>, offs: &Vec<usize>, i: usize) -> (r: Result<
    (WithSpan<Expr>, usize),
    ParseFailure,
>)
    requires
        toks_in(toks@, offs@),
        toks@.len() < usize::MAX - 16,
        i <= toks@.len(),
    ensures
        r matches Ok((e, j)) ==> j == i + expr_ntoks(e.value) && j <= toks@.len() && expr_at(
            toks@,
            offs@,
            i as int,
            e,
        ),
        r matches Err(f) ==> f.tok <= toks@.len(),
        forall|e: WithSpan<Expr>| #[trigger] expr_at(toks@, offs@, i as int, e) ==> (r matches Ok((_, j)) && j
            == i + expr_ntoks(e.value)),
    decreases toks@.len() - i,
{
    if i >= toks.len() {
        return Err(failure(toks.len(), "an expression"));
    }
    let name = match &toks[i].kind {
        TokKind::Uint(v) => {
            return Ok((single(toks, offs, i, Expr::IntLiteral(*v)), i + 1));
        },
        TokKind::Sint(v) => {
            return Ok((single(toks, offs, i, Expr::SignedIntLiteral(*v)), i + 1));
        },
        TokKind::Decimal(d) => {
            return Ok((single(toks, offs, i, Expr::DecimalLiteral(d.clone())), i + 1));
        },
        TokKind::Str(s) => {
            return Ok((single(toks, offs, i, Expr::StringLiteral(s.clone())), i + 1));
        },
        TokKind::Chr(c) => {
            return Ok((single(toks, offs, i, Expr::CharLiteral(*c)), i + 1));
        },
        TokKind::True => {
            return Ok((single(toks, offs, i, Expr::BooleanLiteral(true)), i + 1));
        },
        TokKind::False => {
            return Ok((single(toks, offs, i, Expr::BooleanLiteral(false)), i + 1));
        },
        TokKind::LBracket => {
            return parse_bin(toks, offs, i);
        },
        TokKind::Ident(n) => n.clone(),
        _ => {
            return Err(failure(i, "an expression"));
        },
    };
    if !tok_is(toks, i + 1, Punct::LParen) {
        return Ok((single(toks, offs, i, Expr::ArgumentUsage(name)), i + 1));
    }
    let mut args: Vec<WithSpan<Expr>> = Vec::new();
    let mut k: usize = i + 2;
    let close: usize;
    if tok_is(toks, k, Punct::RParen) {
        close = k;
        assert forall|e: WithSpan<Expr>| #[trigger] expr_at(toks@, offs@, i as int, e) implies call_args(e).len() == 0 by {
            if call_args(e).len() > 0 {
                lemma_args_elem(toks@, offs@, i + 2, call_args(e), 0);
                assert(call_args(e).take(0) =~= Seq::<WithSpan<Expr>>::empty());
            }
        }
    } else {
        assert forall|e: WithSpan<Expr>| #[trigger] expr_at(toks@, offs@, i as int, e) implies e.value is Function
            && args@.len() < call_args(e).len() && args_ntoks(args@) == args_ntoks(call_args(e).take(0)) by {
            assert(call_args(e).take(0) =~= Seq::<WithSpan<Expr>>::empty());
            assert(args@ =~= Seq::<WithSpan<Expr>>::empty());
        }
        loop
            invariant_except_break
                k == i + 2 + args_ntoks(args@) + (if args@.len() > 0 { 1int } else { 0int }),
                k <= toks@.len(),
                args@.len() > 0 ==> toks@[k - 1].kind == TokKind::Comma,
                forall|e: WithSpan<Expr>| #[trigger] expr_at(toks@, offs@, i as int, e) ==> e.value is Function
                    && args@.len() < call_args(e).len() && args_ntoks(args@) == args_ntoks(
                    call_args(e).take(args@.len() as int),
                ),
            invariant
                toks_in(toks@, offs@),
                toks@.len() < usize::MAX - 16,
                i < toks@.len(),
                args_at(toks@, offs@, i + 2, args@),
            ensures
                close == i + 2 + args_ntoks(args@),
                close < toks@.len(),
                toks@[close as int].kind == TokKind::RParen,
                forall|e: WithSpan<Expr>| #[trigger] expr_at(toks@, offs@, i as int, e) ==> close == call_close(
                    e,
                    i as int,
                ),
            decreases toks@.len() - k,
        {
            let ghost n = args@.len() as int;
            assert forall|e: WithSpan<Expr>| #[trigger] expr_at(toks@, offs@, i as int, e) implies expr_at(
                toks@,
                offs@,
                k as int,
                call_args(e)[n],
            ) by {
                lemma_args_elem(toks@, offs@, i + 2, call_args(e), n);
            }
            let (arg, j) = match parse_expr(toks, offs, k) {
                Ok(x) => x,
                Err(f) => {
                    assert forall|e: WithSpan<Expr>| #[trigger] expr_at(toks@, offs@, i as int, e) implies false by {
                        assert(expr_at(toks@, offs@, k as int, call_args(e)[n]));
                    }
                    return Err(f);
                },
            };
            proof {
                lemma_args_push(toks@, offs@, i + 2, args@, arg);
            }
            let ghost old_args = args@;
            args.push(arg);
            assert forall|e: WithSpan<Expr>| #[trigger] expr_at(toks@, offs@, i as int, e) implies args_ntoks(args@)
                == args_ntoks(call_args(e).take(n + 1)) && j < toks@.len() && (n + 1 < call_args(e).len() ==> toks@[j as int].kind
                == TokKind::Comma) && (n + 1 == call_args(e).len() ==> toks@[j as int].kind == TokKind::RParen
                && j == call_close(e, i as int)) by {
                let a = call_args(e);
                lemma_args_elem(toks@, offs@, i + 2, a, n);
                assert(expr_at(toks@, offs@, k as int, a[n]));
                if n + 1 < a.len() {
                    lemma_args_elem(toks@, offs@, i + 2, a, n + 1);
                } else {
                    assert(a.take(n + 1) =~= a);
                }
            }
            if tok_is(toks, j, Punct::Comma) {
                k = j + 1;
            } else if tok_is(toks, j, Punct::RParen) {
                close = j;
                break ;
            } else {
                assert forall|e: WithSpan<Expr>| #[trigger] expr_at(toks@, offs@, i as int, e) implies false by {
                    assert(j < toks@.len());
                }
                let at = if j < toks.len() { j } else { toks.len() };
                return Err(failure(at, "`,` or `)`"));
            }
        }
    }
    let call_end: usize;
    let mapper: Option<Box<FunctionMapper>>;
    if tok_is(toks, close + 1, Punct::LBrace) {
        assert forall|e: WithSpan<Expr>| #[trigger] expr_at(toks@, offs@, i as int, e) implies e.value->Function_0.mapper is Some by {
        }
        let arg_name = match tok_ident(toks, close + 2) {
            Some(n) => n,
            None => {
                let at = if close + 2 < toks.len() { close + 2 } else { toks.len() };
                return Err(failure(at, "the name of the mapped value"));
            },
        };
        if !tok_is(toks, close + 3, Punct::Arrow) {
            let at = if close + 3 < toks.len() { close + 3 } else { toks.len() };
            return Err(failure(at, "`->`"));
        }
        let (body, j) = match parse_expr(toks, offs, close + 4) {
            Ok(x) => x,
            Err(f) => {
                assert forall|e: WithSpan<Expr>| #[trigger] expr_at(toks@, offs@, i as int, e) implies false by {
                    assert(expr_at(toks@, offs@, close + 4, e.value->Function_0.mapper->Some_0.mapper_body));
                }
                return Err(f);
            },
        };
        assert forall|e: WithSpan<Expr>| #[trigger] expr_at(toks@, offs@, i as int, e) implies j == close + 4
            + expr_ntoks(e.value->Function_0.mapper->Some_0.mapper_body.value) && toks@[j as int].kind
            == TokKind::RBrace by {
            assert(expr_at(toks@, offs@, close + 4, e.value->Function_0.mapper->Some_0.mapper_body));
        }
        if !tok_is(toks, j, Punct::RBrace) {
            let at = if j < toks.len() { j } else { toks.len() };
            return Err(failure(at, "`}`"));
        }
        call_end = j;
        let ghost body_spec = body;
        mapper = Some(Box::new(FunctionMapper { arg_name, mapper_body: body }));
        assert(mapper matches Some(m) && is_ident(toks@[close + 2], m.arg_name@) && expr_at(
            toks@,
            offs@,
            close + 4,
            m.mapper_body,
        ) && call_end == close + 4 + expr_ntoks(m.mapper_body.value) && toks@[call_end as int].kind
            == TokKind::RBrace && toks@[close + 3].kind == TokKind::Arrow && toks@[close + 1].kind
            == TokKind::LBrace);
    } else {
        assert forall|e: WithSpan<Expr>| #[trigger] expr_at(toks@, offs@, i as int, e) implies e.value->Function_0.mapper is None by {
        }
        call_end = close;
        mapper = None;
    }
    let ghost the_args = args@;
    let e = WithSpan {
        span: Span { start: offs[toks[i].start], end: offs[toks[call_end].end] },
        value: Expr::Function(FunctionCall { function_name: name, args, mapper }),
    };
    proof {
        let call = FunctionCall { function_name: name, args, mapper };
        assert(call.args@ == the_args);
        assert(is_ident(toks@[i as int], name@));
        assert(expr_shape(toks@, offs@, i as int, e.value));
        assert(call_end + 1 == i + expr_ntoks(e.value));
    }
    Ok((e, call_end + 1))
}


/// Number of tokens of a parameter list of `n` parameters (`name: Type`, comma-separated).
pub open spec fn params_ntoks(n: nat) -> nat {
    if n == 0 {
        0
    } else {
        (4 * n - 1) as nat
    }
}

/// The tokens from `i` on are the parameters `ps`.
pub open spec fn params_at(toks: Seq<Tok>, i: int, ps: Seq<MacroArgument>) -> bool {
    &&& forall|k: int|
        0 <= k < ps.len() ==> is_ident(toks[i + 4 * k], (#[trigger] ps[k]).name@) && toks[i + 4 * k
            + 1].kind == TokKind::Colon && is_ident(toks[i + 4 * k + 2], gen_type_name(ps[k].arg_type))
    &&& forall|k: int| 0 <= k < ps.len() - 1 ==> #[trigger] toks[i + 4 * k + 3].kind == TokKind::Comma
}

/// Number of tokens of a function definition.
pub open spec fn def_ntoks(d: MacroDef) -> nat {
    6 + params_ntoks(d.args@.len()) + expr_ntoks(d.body.value)
}

/// The documentation lines that lie in the character range `[lo, hi)`, in order.
pub open spec fn docs_between(docs: Seq<DocLine>, lo: int, hi: int) -> Seq<Seq<char>>
    decreases docs.len(),
{
    if docs.len() == 0 {
        Seq::empty()
    } else {
        let rest = docs_between(docs.drop_last(), lo, hi);
        if lo <= docs.last().pos < hi {
            rest.push(docs.last().text@)
        } else {
            rest
        }
    }
}

/// The description that documentation lines give a definition.
pub open spec fn doc_text(lines: Seq<Seq<char>>) -> Seq<char> {
    if lines.len() == 0 {
        "user defined function"@
    } else {
        join_lines(lines)
    }
}

/// The tokens from `i` on are the definition `d`, whose description is made of the
/// documentation lines between the end of the previous token and the `def`.
pub open spec fn def_at(toks: Seq<Tok>, offs: Seq<usize>, docs: Seq<DocLine>, i: int, d: WithSpan<MacroDef>) -> bool {
    let pn = params_ntoks(d.value.args@.len()) as int;
    let b = i + 5 + pn;
    let n = def_ntoks(d.value) as int;
    &&& 0 <= i
    &&& i + n <= toks.len()
    &&& toks[i].kind == TokKind::Def
    &&& is_ident(toks[i + 1], d.value.name@)
    &&& toks[i + 2].kind == TokKind::LParen
    &&& params_at(toks, i + 3, d.value.args@)
    &&& toks[i + 3 + pn].kind == TokKind::RParen
    &&& toks[i + 4 + pn].kind == TokKind::Equals
    &&& expr_at(toks, offs, b, d.value.body)
    &&& toks[b + expr_ntoks(d.value.body.value)].kind == TokKind::Semicolon
    &&& d.span.start == offs[toks[i].start as int]
    &&& d.span.end == offs[toks[i + n - 1].end as int]
    &&& d.value.doc_comments@ == doc_text(docs_between(docs, prev_end(toks, i), toks[i].start as int))
}

/// Number of tokens of a sequence of definitions.
pub open spec fn defs_ntoks(defs: Seq<WithSpan<MacroDef>>) -> nat
    decreases defs.len(),
{
    if defs.len() == 0 {
        0
    } else {
        defs_ntoks(defs.drop_last()) + def_ntoks(defs.last().value)
    }
}

/// The tokens from the first on are the definitions `defs`, one after another.
pub open spec fn defs_at(toks: Seq<Tok>, offs: Seq<usize>, docs: Seq<DocLine>, defs: Seq<WithSpan<MacroDef>>) -> bool
    decreases defs.len(),
{
    if defs.len() == 0 {
        true
    } else {
        defs_at(toks, offs, docs, defs.drop_last()) && def_at(
            toks,
            offs,
            docs,
            defs_ntoks(defs.drop_last()) as int,
            defs.last(),
        )
    }
}

/// All of `toks` is the program `p`: its definitions, then its expression if it has one.
pub open spec fn program_at(toks: Seq<Tok>, offs: Seq<usize>, docs: Seq<DocLine>, p: Program) -> bool {
    let k = defs_ntoks(p.assignments@) as int;
    &&& defs_at(toks, offs, docs, p.assignments@)
    &&& match p.expr {
        None => k == toks.len(),
        Some(e) => expr_at(toks, offs, k, e) && k + expr_ntoks(e.value) == toks.len(),
    }
}

/// The type written as `n`, if any.
fn type_named(n: &String) -> (r: Option<GenType>)
    ensures
        r matches Some(t) ==> gen_type_name(t) == n@,
        r is None ==> forall|t: GenType| gen_type_name(t) != n@,
{
    if *n == String::from_str("String") {
        Some(GenType::String)
    } else if *n == String::from_str("Uint") {
        Some(GenType::Uint)
    } else if *n == String::from_str("Int") {
        Some(GenType::Int)
    } else if *n == String::from_str("Decimal") {
        Some(GenType::Decimal)
    } else if *n == String::from_str("Boolean") {
        Some(GenType::Boolean)
    } else if *n == String::from_str("Bin") {
        Some(GenType::Bin)
    } else if *n == String::from_str("Char") {
        Some(GenType::Char)
    } else {
        None
    }
}

/// The texts of the documentation lines in the character range `[lo, hi)`.
fn collect_docs(docs: &Vec<DocLine>, lo: usize, hi: usize) -> (lines: Vec<String>)
    ensures
        lines@.map_values(|l: String| l@) == docs_between(docs@, lo as int, hi as int),
{
    let mut lines: Vec<String> = Vec::new();
    let mut k: usize = 0;
    while k < docs.len()
        invariant
            0 <= k <= docs@.len(),
            lines@.map_values(|l: String| l@) == docs_between(docs@.take(k as int), lo as int, hi as int),
        decreases docs@.len() - k,
    {
        proof {
            assert(docs@.take(k as int + 1).drop_last() =~= docs@.take(k as int));
        }
        if lo <= docs[k].pos && docs[k].pos < hi {
            let t = docs[k].text.clone();
            lines.push(t);
            assert(lines@.map_values(|l: String| l@) =~= docs_between(docs@.take(k as int), lo as int, hi as int).push(t@));
        }
        k = k + 1;
    }
    assert(docs@.take(docs@.len() as int) =~= docs@);
    lines
}

/// The parameters `ps` are read from token `i` and closed by a `)`.
pub open spec fn params_closed(toks: Seq<Tok>, i: int, ps: Seq<MacroArgument>) -> bool {
    &&& params_at(toks, i, ps)
    &&& i + params_ntoks(ps.len()) < toks.len()
    &&& toks[i + params_ntoks(ps.len())].kind == TokKind::RParen
}

/// Parses the parameter list that starts at token `i`, up to (not including) its `)`.
fn parse_params(toks: &Vec<Tok>, i: usize) -> (r: Result<(Vec<MacroArgument>, usize), ParseFailure>)
    requires
        toks@.len() < usize::MAX - 16,
        i <= toks@.len(),
    ensures
        r matches Ok((ps, j)) ==> j == i + params_ntoks(ps@.len()) && j < toks@.len() && toks@[j as int].kind
            == TokKind::RParen && params_at(toks@, i as int, ps@),
        r matches Err(f) ==> f.tok <= toks@.len(),
        forall|ps: Seq<MacroArgument>| #[trigger] params_closed(toks@, i as int, ps) ==> (r matches Ok((_, j)) && j
            == i + params_ntoks(ps.len())),
{
    let mut ps: Vec<MacroArgument> = Vec::new();
    if tok_is(toks, i, Punct::RParen) {
        assert forall|q: Seq<MacroArgument>| #[trigger] params_closed(toks@, i as int, q) implies q.len() == 0 by {
            if q.len() > 0 {
                assert(is_ident(toks@[i + 4 * 0], q[0].name@));
            }
        }
        return Ok((ps, i));
    }
    let mut k: usize = i;
    loop
        invariant
            toks@.len() < usize::MAX - 16,
            i <= k <= toks@.len(),
            k == i + 4 * ps@.len(),
            params_at(toks@, i as int, ps@),
            ps@.len() > 0 ==> toks@[k - 1].kind == TokKind::Comma,
            !(i < toks@.len() && toks@[i as int].kind == TokKind::RParen),
            forall|q: Seq<MacroArgument>| #[trigger] params_closed(toks@, i as int, q) ==> ps@.len() < q.len(),
        decreases toks@.len() - k,
    {
        let ghost n = ps@.len() as int;
        assert forall|q: Seq<MacroArgument>| #[trigger] params_closed(toks@, i as int, q) implies k + 3 < toks@.len()
            && is_ident(toks@[k as int], q[n].name@) && toks@[k + 1].kind == TokKind::Colon && is_ident(
            toks@[k + 2],
            gen_type_name(q[n].arg_type),
        ) && (n + 1 < q.len() ==> toks@[k + 3].kind == TokKind::Comma) && (n + 1 == q.len() ==> toks@[k
            + 3].kind == TokKind::RParen) by {
            assert(is_ident(toks@[i + 4 * n], q[n].name@));
            if n + 1 < q.len() {
                assert(toks@[i + 4 * n + 3].kind == TokKind::Comma);
            }
        }
        let name = match tok_ident(toks, k) {
            Some(n) => n,
            None => {
                let at = if k < toks.len() { k } else { toks.len() };
                return Err(failure(at, "a parameter name"));
            },
        };
        if !tok_is(toks, k + 1, Punct::Colon) {
            let at = if k + 1 < toks.len() { k + 1 } else { toks.len() };
            return Err(failure(at, "`:`"));
        }
        let tname = match tok_ident(toks, k + 2) {
            Some(n) => n,
            None => {
                let at = if k + 2 < toks.len() { k + 2 } else { toks.len() };
                return Err(failure(at, "a type"));
            },
        };
        let arg_type = match type_named(&tname) {
            Some(t) => t,
            None => {
                assert forall|q: Seq<MacroArgument>| #[trigger] params_closed(toks@, i as int, q) implies false by {
                    assert(gen_type_name(q[n].arg_type) != tname@);
                }
                return Err(failure(k + 2, "a type"));
            },
        };
        let ghost old_ps = ps@;
        ps.push(MacroArgument { name, arg_type });
        proof {
            assert forall|t: int| 0 <= t < ps@.len() implies is_ident(toks@[i + 4 * t], (#[trigger] ps@[t]).name@)
                && toks@[i + 4 * t + 1].kind == TokKind::Colon && is_ident(
                toks@[i + 4 * t + 2],
                gen_type_name(ps@[t].arg_type),
            ) by {
                if t < old_ps.len() {
                    assert(ps@[t] == old_ps[t]);
                }
            }
            assert forall|t: int| 0 <= t < old_ps.len() - 1 implies #[trigger] toks@[i + 4 * t + 3].kind == TokKind::Comma by {
            }
        }
        if tok_is(toks, k + 3, Punct::Comma) {
            k = k + 4;
        } else if tok_is(toks, k + 3, Punct::RParen) {
            return Ok((ps, k + 3));
        } else {
            let at = if k + 3 < toks.len() { k + 3 } else { toks.len() };
            return Err(failure(at, "`,` or `)`"));
        }
    }
}


/// Parses the definition whose `def` is token `i`.
fn parse_def(toks: &Vec<Tok>, offs: &Vec<usize>, docs: &Vec<DocLine>, i: usize) -> (r: Result<
    (WithSpan<MacroDef>, usize),
    ParseFailure,
>)
    requires
        toks_in(toks@, offs@),
        toks@.len() < usize::MAX - 16,
        i < toks@.len(),
        toks@[i as int].kind == TokKind::Def,
    ensures
        r matches Ok((d, j)) ==> j == i + def_ntoks(d.value) && j <= toks@.len() && def_at(
            toks@,
            offs@,
            docs@,
            i as int,
            d,
        ),
        r matches Err(f) ==> f.tok <= toks@.len(),
        forall|dd: Seq<DocLine>, d: WithSpan<MacroDef>| #[trigger] def_at(toks@, offs@, dd, i as int, d) ==> (r matches Ok(
            (_, j),
        ) && j == i + def_ntoks(d.value)),
{
    assert forall|dd: Seq<DocLine>, d: WithSpan<MacroDef>| #[trigger] def_at(toks@, offs@, dd, i as int, d) implies params_closed(
        toks@,
        i + 3,
        d.value.args@,
    ) by {}
    let name = match tok_ident(toks, i + 1) {
        Some(n) => n,
        None => {
            let at = if i + 1 < toks.len() { i + 1 } else { toks.len() };
            return Err(failure(at, "the name of the function"));
        },
    };
    if !tok_is(toks, i + 2, Punct::LParen) {
        let at = if i + 2 < toks.len() { i + 2 } else { toks.len() };
        return Err(failure(at, "`(`"));
    }
    let (args, close) = match parse_params(toks, i + 3) {
        Ok(x) => x,
        Err(f) => {
            assert forall|dd: Seq<DocLine>, d: WithSpan<MacroDef>| #[trigger] def_at(toks@, offs@, dd, i as int, d) implies false by {
                assert(params_closed(toks@, i + 3, d.value.args@));
            }
            return Err(f);
        },
    };
    assert forall|dd: Seq<DocLine>, d: WithSpan<MacroDef>| #[trigger] def_at(toks@, offs@, dd, i as int, d) implies close
        == i + 3 + params_ntoks(d.value.args@.len()) by {
        assert(params_closed(toks@, i + 3, d.value.args@));
    }
    if !tok_is(toks, close + 1, Punct::Equals) {
        let at = if close + 1 < toks.len() { close + 1 } else { toks.len() };
        return Err(failure(at, "`=`"));
    }
    let (body, j) = match parse_expr(toks, offs, close + 2) {
        Ok(x) => x,
        Err(f) => {
            assert forall|dd: Seq<DocLine>, d: WithSpan<MacroDef>| #[trigger] def_at(toks@, offs@, dd, i as int, d) implies false by {
                assert(expr_at(toks@, offs@, close + 2, d.value.body));
            }
            return Err(f);
        },
    };
    assert forall|dd: Seq<DocLine>, d: WithSpan<MacroDef>| #[trigger] def_at(toks@, offs@, dd, i as int, d) implies j
        == close + 2 + expr_ntoks(d.value.body.value) by {
        assert(expr_at(toks@, offs@, close + 2, d.value.body));
    }
    if !tok_is(toks, j, Punct::Semicolon) {
        let at = if j < toks.len() { j } else { toks.len() };
        return Err(failure(at, "`;`"));
    }
    let lo: usize = if i == 0 { 0 } else { toks[i - 1].end };
    let lines = collect_docs(docs, lo, toks[i].start);
    let doc_comments = process_doc_comments(lines);
    let d = WithSpan {
        span: Span { start: offs[toks[i].start], end: offs[toks[j].end] },
        value: MacroDef { doc_comments, name, args, body },
    };
    Ok((d, j + 1))
}

/// Parses all of `toks` as a program.
fn parse_tokens(toks: &Vec<Tok>, offs: &Vec<usize>, docs: &Vec<DocLine>) -> (r: Result<Program, ParseFailure>)
    requires
        toks_in(toks@, offs@),
        toks@.len() < usize::MAX - 16,
    ensures
        r matches Ok(p) ==> program_at(toks@, offs@, docs@, p),
        r matches Err(f) ==> f.tok <= toks@.len(),
        forall|dd: Seq<DocLine>, p: Program| #[trigger] program_at(toks@, offs@, dd, p) ==> r is Ok,
{
    let mut defs: Vec<WithSpan<MacroDef>> = Vec::new();
    let mut k: usize = 0;
    assert forall|dd: Seq<DocLine>, p: Program| #[trigger] program_at(toks@, offs@, dd, p) implies k == defs_ntoks(
        p.assignments@.take(0),
    ) by {
        assert(p.assignments@.take(0) =~= Seq::<WithSpan<MacroDef>>::empty());
    }
    while tok_is(toks, k, Punct::Def)
        invariant
            toks_in(toks@, offs@),
            toks@.len() < usize::MAX - 16,
            k == defs_ntoks(defs@),
            k <= toks@.len(),
            defs_at(toks@, offs@, docs@, defs@),
            forall|dd: Seq<DocLine>, p: Program| #[trigger] program_at(toks@, offs@, dd, p) ==> defs@.len()
                <= p.assignments@.len() && k == defs_ntoks(p.assignments@.take(defs@.len() as int)),
        decreases toks@.len() - k,
    {
        let ghost n = defs@.len() as int;
        assert forall|dd: Seq<DocLine>, p: Program| #[trigger] program_at(toks@, offs@, dd, p) implies n
            < p.assignments@.len() && def_at(toks@, offs@, dd, k as int, p.assignments@[n]) by {
            let a = p.assignments@;
            if n == a.len() {
                assert(a.take(n) =~= a);
            } else {
                lemma_defs_elem(toks@, offs@, dd, a, n);
            }
        }
        let (d, j) = match parse_def(toks, offs, docs, k) {
            Ok(x) => x,
            Err(f) => {
                assert forall|dd: Seq<DocLine>, p: Program| #[trigger] program_at(toks@, offs@, dd, p) implies false by {
                    assert(def_at(toks@, offs@, dd, k as int, p.assignments@[n]));
                }
                return Err(f);
            },
        };
        proof {
            let nd = defs@.push(d);
            assert(nd.drop_last() =~= defs@);
        }
        defs.push(d);
        assert forall|dd: Seq<DocLine>, p: Program| #[trigger] program_at(toks@, offs@, dd, p) implies j
            == defs_ntoks(p.assignments@.take(n + 1)) by {
            lemma_defs_elem(toks@, offs@, dd, p.assignments@, n);
            assert(def_at(toks@, offs@, dd, k as int, p.assignments@[n]));
        }
        k = j;
    }
    assert forall|dd: Seq<DocLine>, p: Program| #[trigger] program_at(toks@, offs@, dd, p) implies k == defs_ntoks(
        p.assignments@,
    ) by {
        let a = p.assignments@;
        let n = defs@.len() as int;
        if n < a.len() {
            lemma_defs_elem(toks@, offs@, dd, a, n);
        } else {
            assert(a.take(n) =~= a);
        }
    }
    if k == toks.len() {
        return Ok(Program { assignments: defs, expr: None });
    }
    let (e, j) = match parse_expr(toks, offs, k) {
        Ok(x) => x,
        Err(f) => {
            assert forall|dd: Seq<DocLine>, p: Program| #[trigger] program_at(toks@, offs@, dd, p) implies false by {
                assert(expr_at(toks@, offs@, k as int, p.expr->Some_0));
            }
            return Err(f);
        },
    };
    if j < toks.len() {
        assert forall|dd: Seq<DocLine>, p: Program| #[trigger] program_at(toks@, offs@, dd, p) implies false by {
            assert(expr_at(toks@, offs@, k as int, p.expr->Some_0));
        }
        return Err(failure(j, "the end of the program"));
    }
    Ok(Program { assignments: defs, expr: Some(e) })
}


/// The byte offset of every character position of `cs`.
pub open spec fn char_offsets(cs: Seq<char>) -> Seq<usize> {
    Seq::new((cs.len() + 1) as nat, |i: int| byte_len(cs.take(i)) as usize)
}

/// The tokens of `cs` spell the expression `e`, and nothing else.
pub open spec fn is_expr_text(cs: Seq<char>, e: WithSpan<Expr>) -> bool {
    exists|toks: Seq<Tok>|
        lexes(cs, toks) && #[trigger] expr_at(toks, char_offsets(cs), 0, e) && expr_ntoks(e.value)
            == toks.len()
}

/// The tokens and documentation lines of `cs` spell the program `p`.
pub open spec fn is_program_text(cs: Seq<char>, p: Program) -> bool {
    exists|toks: Seq<Tok>, docs: Seq<DocLine>|
        lexes(cs, toks) && docs.map_values(|d: DocLine| doc_view(d)) == text_docs(cs, toks) && #[trigger] program_at(
            toks,
            char_offsets(cs),
            docs,
            p,
        )
}

/// Why a text is not an expression or a program.
#[derive(Debug, PartialEq)]
pub struct SyntaxError {
    /// Byte offset of the offending text; `None` when the text ended too early.
    pub location: Option<usize>,
    pub description: String,
    pub is_unexpected_eof: bool,
}

/// The characters of `input` and their byte offsets.
fn chars_and_offsets(input: &str) -> (r: (Vec<char>, Vec<usize>))
    ensures
        r.0@ == input@,
        r.1@ == char_offsets(input@),
        forall|i: int| 0 <= i <= input@.len() ==> r.1@[i] as nat == byte_len(#[trigger] input@.take(i)),
{
    let cs = chars_of(input);
    let bytes = input.as_bytes();
    let _n = bytes.len();
    let offs = byte_offsets(&cs);
    assert(offs@ =~= char_offsets(input@));
    (cs, offs)
}

proof fn lemma_toks_in(cs: Seq<char>, toks: Seq<Tok>, offs: Seq<usize>)
    requires
        tokenizes(cs, toks),
        offs.len() == cs.len() + 1,
    ensures
        toks_in(toks, offs),
{
    assert forall|k: int| 0 <= k < toks.len() implies (#[trigger] toks[k]).start < toks[k].end < offs.len() by {
        assert(tok_ok(cs, toks, k));
        reveal(tok_spells);
    }
}

fn describe(prefix: &str, what: &str) -> (s: String)
    ensures
        s@ == prefix@ + what@,
{
    let mut s = String::from_str(prefix);
    s.append(what);
    s
}

/// The syntax error for a failure at token `f.tok`.
fn token_error(toks: &Vec<Tok>, offs: &Vec<usize>, f: ParseFailure) -> (e: SyntaxError)
    requires
        toks_in(toks@, offs@),
        f.tok <= toks@.len(),
    ensures
        f.tok < toks@.len() ==> e.location == Some(offs@[toks@[f.tok as int].start as int]) && !e.is_unexpected_eof,
        f.tok == toks@.len() ==> e.location is None && e.is_unexpected_eof,
{
    if f.tok < toks.len() {
        SyntaxError {
            location: Some(offs[toks[f.tok].start]),
            description: describe("Parse Error: expected ", f.expected),
            is_unexpected_eof: false,
        }
    } else {
        SyntaxError {
            location: None,
            description: describe("Parse Error: unexpected end of input, expected ", f.expected),
            is_unexpected_eof: true,
        }
    }
}

/// The syntax error for text that cannot be split into tokens.
fn scan_failure(offs: &Vec<usize>, e: ScanError) -> (r: SyntaxError)
    requires
        e.pos < offs@.len(),
    ensures
        r.location == Some(offs@[e.pos as int]),
        r.is_unexpected_eof == e.at_eof,
{
    SyntaxError {
        location: Some(offs[e.pos]),
        description: describe("Parse Error: ", e.message.as_str()),
        is_unexpected_eof: e.at_eof,
    }
}

/// Parses a single expression.
pub struct ExprParser {}

impl ExprParser {
    pub fn new() -> (p: ExprParser) {
        ExprParser {}
    }

    /// Parses all of `input` as one expression.
    pub fn parse(&self, input: &str) -> (r: Result<WithSpan<Expr>, SyntaxError>)
        ensures
            r matches Ok(e) ==> is_expr_text(input@, e),
            r matches Err(err) ==> (err.location matches Some(l) ==> is_boundary(input@, l as int)),
            r is Err ==> input@.len() >= usize::MAX - 16 || forall|e: WithSpan<Expr>| !(#[trigger] is_expr_text(
                input@,
                e,
            )),
    {
        let (cs, offs) = chars_and_offsets(input);
        let scanned = match scan(&cs) {
            Ok(s) => s,
            Err(e) => {
                let err = scan_failure(&offs, e);
                assert(byte_len(cs@.take(e.pos as int)) == offs@[e.pos as int]);
                return Err(err);
            },
        };
        let toks = scanned.toks;
        proof {
            lemma_toks_in(cs@, toks@, offs@);
            assert forall|e: WithSpan<Expr>| #[trigger] is_expr_text(input@, e) implies expr_at(toks@, offs@, 0, e)
                && expr_ntoks(e.value) == toks@.len() by {
                let t = choose|t: Seq<Tok>|
                    lexes(cs@, t) && #[trigger] expr_at(t, char_offsets(cs@), 0, e) && expr_ntoks(e.value) == t.len();
                lemma_lexes_unique(cs@, t, toks@);
                lemma_expr_at_same(t, toks@, offs@, 0, e);
            }
        }
        match parse_expr(&toks, &offs, 0) {
            Ok((e, j)) => {
                if j < toks.len() {
                    let err = token_error(&toks, &offs, failure(j, "the end of the expression"));
                    proof {
                        assert(tok_ok(cs@, toks@, j as int));
                        reveal(tok_spells);
                        assert(byte_len(cs@.take(toks@[j as int].start as int)) == offs@[toks@[j as int].start as int]);
                    }
                    return Err(err);
                }
                assert(expr_at(toks@, char_offsets(input@), 0, e));
                Ok(e)
            },
            Err(f) => {
                let err = token_error(&toks, &offs, f);
                proof {
                    if f.tok < toks@.len() {
                        assert(tok_ok(cs@, toks@, f.tok as int));
                        reveal(tok_spells);
                        assert(byte_len(cs@.take(toks@[f.tok as int].start as int)) == offs@[toks@[f.tok as int].start as int]);
                    }
                }
                Err(err)
            },
        }
    }
}


/// A program that could not be parsed: the name of its source, its text and what was wrong.
#[derive(Debug)]
pub struct DgenParseError {
    source_name: IString,
    input: String,
    inner: SyntaxError,
}

impl DgenParseError {
    #[verifier::type_invariant]
    spec fn inv(self) -> bool {
        self.inner.location matches Some(l) ==> is_boundary(self.input@, l as int) && l + 12
            <= usize::MAX && self.input@.len() < usize::MAX
    }

    pub closed spec fn source_name(&self) -> Seq<char> {
        self.source_name@
    }

    pub closed spec fn input(&self) -> Seq<char> {
        self.input@
    }

    /// Where in the text the error is, and whether the text ended too early.
    pub closed spec fn syntax(&self) -> SyntaxError {
        self.inner
    }

    /// Whether the text ended where more was expected.
    pub fn is_unexpected_eof(&self) -> (b: bool)
        ensures
            b == self.syntax().is_unexpected_eof,
    {
        self.inner.is_unexpected_eof
    }

    /// `Error parsing '<name>': <description>`, a newline, then the offending line with a
    /// caret under the error when the error has a location.
    pub fn message(&self) -> (m: String)
        ensures
            m@ == "Error parsing '"@ + self.source_name() + "': "@ + self.syntax().description@ + "\n"@
                + match self.syntax().location {
                Some(l) => region_text(self.input(), l as int),
                None => Seq::<char>::empty(),
            },
    {
        proof {
            use_type_invariant(self);
        }
        let mut m = String::from_str("Error parsing '");
        m.append(self.source_name.as_str());
        m.append("': ");
        m.append(self.inner.description.as_str());
        m.append("\n");
        match self.inner.location {
            Some(l) => {
                let region = SourceErrRegion::new(self.input.as_str(), l);
                let shown = region.render();
                m.append(shown.as_str());
            },
            None => {
                assert(m@ =~= m@ + Seq::<char>::empty());
            },
        }
        m
    }
}

/// Parses the program text `input`, read from the source named `source_name`.
pub fn parse_program(source_name: IString, input: &str) -> (r: Result<Program, DgenParseError>)
    ensures
        r matches Ok(p) ==> is_program_text(input@, p),
        r matches Err(e) ==> e.source_name() == source_name@ && e.input() == input@,
        r is Err ==> input@.len() >= usize::MAX - 16 || byte_len(input@) >= usize::MAX - 16 || forall|p: Program|
            !(#[trigger] is_program_text(input@, p)),
{
    let (cs, offs) = chars_and_offsets(input);
    let nbytes = input.as_bytes().len();
    if nbytes >= usize::MAX - 16 || cs.len() >= usize::MAX - 16 {
        let inner = SyntaxError {
            location: None,
            description: String::from_str("Parse Error: program text is too long"),
            is_unexpected_eof: false,
        };
        return Err(DgenParseError { source_name, input: input.to_owned(), inner });
    }
    proof {
        assert(cs@.take(cs@.len() as int) =~= cs@);
        assert(offs@[cs@.len() as int] == nbytes);
    }
    let scanned = match scan(&cs) {
        Ok(s) => s,
        Err(e) => {
            let inner = scan_failure(&offs, e);
            proof {
                assert(byte_len(cs@.take(e.pos as int)) == offs@[e.pos as int]);
                lemma_byte_len_take_mono(cs@, e.pos as int, cs@.len() as int);
            }
            return Err(DgenParseError { source_name, input: input.to_owned(), inner });
        },
    };
    let toks = scanned.toks;
    let docs = scanned.docs;
    proof {
        lemma_toks_in(cs@, toks@, offs@);
        assert forall|p: Program| #[trigger] is_program_text(input@, p) implies exists|dd: Seq<DocLine>| #[trigger] program_at(
            toks@,
            offs@,
            dd,
            p,
        ) by {
            let (t, dd) = choose|t: Seq<Tok>, dd: Seq<DocLine>|
                lexes(cs@, t) && dd.map_values(|d: DocLine| doc_view(d)) == text_docs(cs@, t) && #[trigger] program_at(
                    t,
                    char_offsets(cs@),
                    dd,
                    p,
                );
            lemma_lexes_unique(cs@, t, toks@);
            lemma_program_at_same(t, toks@, offs@, dd, p);
        }
    }
    match parse_tokens(&toks, &offs, &docs) {
        Ok(p) => {
            assert(program_at(toks@, char_offsets(input@), docs@, p));
            Ok(p)
        },
        Err(f) => {
            let inner = token_error(&toks, &offs, f);
            proof {
                if f.tok < toks@.len() {
                    assert(tok_ok(cs@, toks@, f.tok as int));
                    reveal(tok_spells);
                    assert(byte_len(cs@.take(toks@[f.tok as int].start as int)) == offs@[toks@[f.tok as int].start as int]);
                    lemma_byte_len_take_mono(cs@, toks@[f.tok as int].start as int, cs@.len() as int);
                }
            }
            Err(DgenParseError { source_name, input: input.to_owned(), inner })
        },
    }
}

} // verus!
