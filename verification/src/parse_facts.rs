//! Facts about the grammar relations of [`crate::parser`]: they read tokens only through their
//! kinds and positions, and sequences of arguments and definitions can be read from the front.

use vstd::prelude::*;
use crate::ast::{Expr, MacroDef, Program, WithSpan};
use crate::lexeme::{same_kind, same_toks};
use crate::parser::{
    args_at, args_ntoks, def_at, def_ntoks, defs_at, defs_ntoks, expr_at, expr_ntoks, expr_shape, params_at,
    program_at,
};
use crate::scan::{prev_end, DocLine, Tok, TokKind};

verus! {

/// An expression read from one token sequence is read from any sequence with the same tokens.
pub proof fn lemma_expr_at_same(t1: Seq<Tok>, t2: Seq<Tok>, offs: Seq<usize>, i: int, e: WithSpan<Expr>)
    requires
        same_toks(t1, t2),
        expr_at(t1, offs, i, e),
    ensures
        expr_at(t2, offs, i, e),
    decreases e,
{
    let n = expr_ntoks(e.value);
    assert(t1[i].start == t2[i].start);
    assert(t1[i + n - 1].end == t2[i + n - 1].end);
    assert(same_kind(t1[i].kind, t2[i].kind));
    if i + 1 < t1.len() {
        assert(same_kind(t1[i + 1].kind, t2[i + 1].kind));
    }
    match e.value {
        Expr::Function(call) => {
            let close = i + 2 + args_ntoks(call.args@);
            assert(same_kind(t1[close].kind, t2[close].kind));
            lemma_args_at_same(t1, t2, offs, i + 2, call.args@);
            if close + 1 < t1.len() {
                assert(same_kind(t1[close + 1].kind, t2[close + 1].kind));
            }
            match call.mapper {
                Some(m) => {
                    assert(same_kind(t1[close + 2].kind, t2[close + 2].kind));
                    assert(same_kind(t1[close + 3].kind, t2[close + 3].kind));
                    let b = close + 4 + expr_ntoks(m.mapper_body.value);
                    assert(same_kind(t1[b].kind, t2[b].kind));
                    lemma_expr_at_same(t1, t2, offs, close + 4, m.mapper_body);
                },
                None => {},
            }
        },
        Expr::BinaryLiteral(bytes) => {
            assert(same_kind(t1[i + n - 1].kind, t2[i + n - 1].kind));
            assert forall|k: int| 0 <= k < bytes@.len() implies t2[i + 1 + 2 * k].kind == TokKind::Uint(
                #[trigger] bytes@[k] as u64,
            ) by {
                assert(same_kind(t1[i + 1 + 2 * k].kind, t2[i + 1 + 2 * k].kind));
            }
            assert forall|k: int| 0 <= k < bytes@.len() - 1 implies #[trigger] t2[i + 2 + 2 * k].kind
                == TokKind::Comma by {
                assert(same_kind(t1[i + 2 + 2 * k].kind, t2[i + 2 + 2 * k].kind));
            }
        },
        _ => {},
    }
}

/// Arguments read from one token sequence are read from any sequence with the same tokens.
pub proof fn lemma_args_at_same(t1: Seq<Tok>, t2: Seq<Tok>, offs: Seq<usize>, i: int, args: Seq<WithSpan<Expr>>)
    requires
        same_toks(t1, t2),
        0 <= i,
        args_at(t1, offs, i, args),
    ensures
        args_at(t2, offs, i, args),
    decreases args,
{
    if args.len() > 0 {
        let init = args.drop_last();
        let k = i + args_ntoks(init);
        lemma_args_at_same(t1, t2, offs, i, init);
        assert(expr_at(t1, offs, k + (if args.len() > 1 { 1int } else { 0int }), args.last()));
        if args.len() > 1 {
            assert(same_kind(t1[k].kind, t2[k].kind));
        }
        lemma_expr_at_same(t1, t2, offs, k + (if args.len() > 1 { 1int } else { 0int }), args.last());
    }
}

/// A definition read from one token sequence is read from any sequence with the same tokens.
pub proof fn lemma_def_at_same(
    t1: Seq<Tok>,
    t2: Seq<Tok>,
    offs: Seq<usize>,
    docs: Seq<DocLine>,
    i: int,
    d: WithSpan<MacroDef>,
)
    requires
        same_toks(t1, t2),
        def_at(t1, offs, docs, i, d),
    ensures
        def_at(t2, offs, docs, i, d),
{
    let ps = d.value.args@;
    let pn = if ps.len() == 0 { 0int } else { 4 * ps.len() - 1 };
    let b = i + 5 + pn;
    let n = def_ntoks(d.value) as int;
    assert(t1[i].start == t2[i].start);
    assert(t1[i + n - 1].end == t2[i + n - 1].end);
    if i > 0 {
        assert(t1[i - 1].end == t2[i - 1].end);
    }
    assert(prev_end(t1, i) == prev_end(t2, i));
    assert(same_kind(t1[i].kind, t2[i].kind));
    assert(same_kind(t1[i + 1].kind, t2[i + 1].kind));
    assert(same_kind(t1[i + 2].kind, t2[i + 2].kind));
    assert(same_kind(t1[i + 3 + pn].kind, t2[i + 3 + pn].kind));
    assert(same_kind(t1[i + 4 + pn].kind, t2[i + 4 + pn].kind));
    assert(same_kind(t1[b + expr_ntoks(d.value.body.value)].kind, t2[b + expr_ntoks(d.value.body.value)].kind));
    lemma_expr_at_same(t1, t2, offs, b, d.value.body);
    let j = i + 3;
    assert forall|k: int| 0 <= k < ps.len() implies crate::parser::is_ident(
        t2[j + 4 * k],
        (#[trigger] ps[k]).name@,
    ) && t2[j + 4 * k + 1].kind == TokKind::Colon && crate::parser::is_ident(
        t2[j + 4 * k + 2],
        crate::ast::gen_type_name(ps[k].arg_type),
    ) by {
        assert(same_kind(t1[j + 4 * k].kind, t2[j + 4 * k].kind));
        assert(same_kind(t1[j + 4 * k + 1].kind, t2[j + 4 * k + 1].kind));
        assert(same_kind(t1[j + 4 * k + 2].kind, t2[j + 4 * k + 2].kind));
    }
    assert forall|k: int| 0 <= k < ps.len() - 1 implies #[trigger] t2[j + 4 * k + 3].kind == TokKind::Comma by {
        assert(same_kind(t1[j + 4 * k + 3].kind, t2[j + 4 * k + 3].kind));
    }
    assert(params_at(t2, j, ps));
}

/// Definitions read from one token sequence are read from any sequence with the same tokens.
pub proof fn lemma_defs_at_same(
    t1: Seq<Tok>,
    t2: Seq<Tok>,
    offs: Seq<usize>,
    docs: Seq<DocLine>,
    defs: Seq<WithSpan<MacroDef>>,
)
    requires
        same_toks(t1, t2),
        defs_at(t1, offs, docs, defs),
    ensures
        defs_at(t2, offs, docs, defs),
    decreases defs.len(),
{
    if defs.len() > 0 {
        lemma_defs_at_same(t1, t2, offs, docs, defs.drop_last());
        lemma_def_at_same(t1, t2, offs, docs, defs_ntoks(defs.drop_last()) as int, defs.last());
    }
}

/// A program read from one token sequence is read from any sequence with the same tokens.
pub proof fn lemma_program_at_same(t1: Seq<Tok>, t2: Seq<Tok>, offs: Seq<usize>, docs: Seq<DocLine>, p: Program)
    requires
        same_toks(t1, t2),
        program_at(t1, offs, docs, p),
    ensures
        program_at(t2, offs, docs, p),
{
    lemma_defs_at_same(t1, t2, offs, docs, p.assignments@);
    match p.expr {
        Some(e) => {
            lemma_expr_at_same(t1, t2, offs, defs_ntoks(p.assignments@) as int, e);
        },
        None => {},
    }
}

/// A prefix of arguments is read where the whole list starts.
pub proof fn lemma_args_prefix(toks: Seq<Tok>, offs: Seq<usize>, i: int, args: Seq<WithSpan<Expr>>, m: int)
    requires
        args_at(toks, offs, i, args),
        0 <= m <= args.len(),
    ensures
        args_at(toks, offs, i, args.take(m)),
    decreases args.len() - m,
{
    if m == args.len() {
        assert(args.take(m) =~= args);
    } else {
        lemma_args_prefix(toks, offs, i, args, m + 1);
        assert(args.take(m + 1).drop_last() =~= args.take(m));
    }
}

/// Argument `m` is read after the arguments before it and, past the first, a comma.
pub proof fn lemma_args_elem(toks: Seq<Tok>, offs: Seq<usize>, i: int, args: Seq<WithSpan<Expr>>, m: int)
    requires
        args_at(toks, offs, i, args),
        0 <= m < args.len(),
    ensures
        expr_at(toks, offs, i + args_ntoks(args.take(m)) + (if m > 0 { 1int } else { 0int }), args[m]),
        m > 0 ==> toks[i + args_ntoks(args.take(m))].kind == TokKind::Comma,
        args_ntoks(args.take(m + 1)) == args_ntoks(args.take(m)) + (if m > 0 { 1nat } else { 0nat })
            + expr_ntoks(args[m].value),
{
    lemma_args_prefix(toks, offs, i, args, m + 1);
    let t = args.take(m + 1);
    assert(t.drop_last() =~= args.take(m));
    assert(t.last() == args[m]);
}

/// A prefix of definitions is read from the first token.
pub proof fn lemma_defs_prefix(toks: Seq<Tok>, offs: Seq<usize>, docs: Seq<DocLine>, defs: Seq<WithSpan<MacroDef>>, m: int)
    requires
        defs_at(toks, offs, docs, defs),
        0 <= m <= defs.len(),
    ensures
        defs_at(toks, offs, docs, defs.take(m)),
    decreases defs.len() - m,
{
    if m == defs.len() {
        assert(defs.take(m) =~= defs);
    } else {
        lemma_defs_prefix(toks, offs, docs, defs, m + 1);
        assert(defs.take(m + 1).drop_last() =~= defs.take(m));
    }
}

/// Definition `m` is read right after the definitions before it.
pub proof fn lemma_defs_elem(toks: Seq<Tok>, offs: Seq<usize>, docs: Seq<DocLine>, defs: Seq<WithSpan<MacroDef>>, m: int)
    requires
        defs_at(toks, offs, docs, defs),
        0 <= m < defs.len(),
    ensures
        def_at(toks, offs, docs, defs_ntoks(defs.take(m)) as int, defs[m]),
        defs_ntoks(defs.take(m + 1)) == defs_ntoks(defs.take(m)) + def_ntoks(defs[m].value),
{
    lemma_defs_prefix(toks, offs, docs, defs, m + 1);
    let t = defs.take(m + 1);
    assert(t.drop_last() =~= defs.take(m));
    assert(t.last() == defs[m]);
}

} // verus!
