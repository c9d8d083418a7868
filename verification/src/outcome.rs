//! What a program can generate: for each node, the values it can give, the text it can write
//! and the bytes it can write, whatever the random numbers, the environment and the files
//! turn out to be. A node is given with the nodes before it: `p.last()` is the node, and a
//! child `c` is the last node of `upto(p, c)`.

use vstd::prelude::*;
use crate::runtime::{be_bytes, le_bytes, whatwg_encoded, NodeView};
use crate::text::byte_len;
use crate::value::{view_text, ValueView};

verus! {

/// The nodes up to and including node `c`.
pub open spec fn upto(p: Seq<NodeView>, c: usize) -> Seq<NodeView> {
    p.take(c as int + 1)
}

/// `c` is a node before the last one of `p`.
pub open spec fn child(p: Seq<NodeView>, c: usize) -> bool {
    (c as int) < p.len() - 1
}

/// The nodes up to a child of node `i` are the nodes up to that child.
pub broadcast proof fn lemma_upto_upto(views: Seq<NodeView>, i: usize, c: usize)
    requires
        c <= i,
        (i as int) < views.len(),
    ensures
        #[trigger] upto(upto(views, i), c) == upto(views, c),
{
    assert(upto(upto(views, i), c) =~= upto(views, c));
}

/// The nodes up to node `i` end with node `i`.
pub broadcast proof fn lemma_upto_last(views: Seq<NodeView>, i: usize)
    requires
        (i as int) < views.len(),
    ensures
        #[trigger] upto(views, i).len() == i + 1,
        upto(views, i).last() == views[i as int],
{
}

/// Adding nodes after node `c` leaves the nodes up to it as they were.
pub broadcast proof fn lemma_upto_push(views: Seq<NodeView>, n: NodeView, c: usize)
    requires
        (c as int) < views.len(),
    ensures
        #[trigger] upto(views.push(n), c) == upto(views, c),
{
    assert(upto(views.push(n), c) =~= upto(views, c));
}

/// Marks the values that an existential statement below is about.
pub open spec fn drawn<A>(a: A) -> bool {
    true
}

/// `x` lies between `a` and `b`, whichever is the smaller.
pub open spec fn between(x: int, a: int, b: int) -> bool {
    (a <= b ==> a <= x <= b) && (b < a ==> b <= x <= a)
}

/// The character whose code point is the low 32 bits of `x`.
pub open spec fn char_of_draw(c: char, x: u64) -> bool {
    c as u32 == x as u32
}

/// `count` items, each preceded by its delimiter but the first.
pub open spec fn joined<A>(items: Seq<Seq<A>>, delims: Seq<Seq<A>>) -> Seq<A>
    decreases items.len(),
{
    if items.len() == 0 {
        Seq::empty()
    } else {
        joined(items.drop_last(), delims.drop_last()) + if items.len() > 1 {
            delims[items.len() - 1]
        } else {
            Seq::empty()
        } + items.last()
    }
}

/// How deep a node's relations go into themselves: a repetition's value is what it writes.
pub open spec fn gen_rank(p: Seq<NodeView>) -> int {
    if p.len() > 0 && p.last() is RepeatDelimited {
        2
    } else {
        0
    }
}

/// Character `c` can be drawn between a value that `lo_nodes` generates and one that
/// `hi_nodes` generates.
pub open spec fn char_drawn(lo_nodes: Seq<NodeView>, hi_nodes: Seq<NodeView>, c: char) -> bool
    decreases if lo_nodes.len() >= hi_nodes.len() { lo_nodes.len() } else { hi_nodes.len() }, 3int,
{
    exists|lo: u64, hi: u64, x: u64|
        #![trigger drawn((lo, hi, x))]
        drawn((lo, hi, x)) && gen_ok(lo_nodes, ValueView::Uint(lo)) && gen_ok(hi_nodes, ValueView::Uint(hi))
            && between(x as int, lo as int, hi as int) && char_of_draw(c, x)
}

/// The last node of `p` can generate the value `v`.
pub open spec fn gen_ok(p: Seq<NodeView>, v: ValueView) -> bool
    decreases p.len(), gen_rank(p),
{
    if p.len() == 0 {
        false
    } else {
        match p.last() {
            NodeView::Const(c) => v == c,
            NodeView::Concat(ps) => match v {
                ValueView::Bin(b) => exists|parts: Seq<Seq<u8>>|
                    #![trigger drawn(parts)]
                    drawn(parts) && parts.len() == ps.len() && b == parts.flatten() && forall|k: int|
                        #![trigger ps[k]]
                        0 <= k < ps.len() ==> child(p, ps[k]) && gen_ok(upto(p, ps[k]), ValueView::Bin(parts[k])),
                ValueView::String(s) => exists|parts: Seq<Seq<char>>|
                    #![trigger drawn(parts)]
                    drawn(parts) && parts.len() == ps.len() && s == parts.flatten() && forall|k: int|
                        #![trigger ps[k]]
                        0 <= k < ps.len() ==> child(p, ps[k]) && text_ok(upto(p, ps[k]), parts[k]),
                _ => false,
            },
            NodeView::RepeatDelimited { .. } => match v {
                ValueView::Bin(b) => bytes_ok(p, b),
                ValueView::String(s) => text_ok(p, s),
                _ => false,
            },
            NodeView::BinLength(b) => child(p, b) && exists|bs: Seq<u8>|
                #![trigger drawn(bs)]
                drawn(bs) && gen_ok(upto(p, b), ValueView::Bin(bs)) && v == ValueView::Uint(bs.len() as u64),
            NodeView::StringLength(x) => child(p, x) && exists|s: Seq<char>|
                #![trigger drawn(s)]
                drawn(s) && gen_ok(upto(p, x), ValueView::String(s)) && v == ValueView::Uint(byte_len(s) as u64),
            NodeView::ToBinary { number, big_endian } => child(p, number) && (
                (exists|n: u64|
                    #![trigger drawn(n)]
                    drawn(n) && gen_ok(upto(p, number), ValueView::Uint(n)) && v == ValueView::Bin(
                        if big_endian { be_bytes(n as nat) } else { le_bytes(n as nat) },
                    ))
                || (exists|n: i64|
                    #![trigger drawn(n)]
                    drawn(n) && gen_ok(upto(p, number), ValueView::Int(n)) && v == ValueView::Bin(
                        if big_endian { be_bytes((n as u64) as nat) } else { le_bytes((n as u64) as nat) },
                    ))),
            NodeView::CharGen { min, max } => match v {
                ValueView::Char(c) => child(p, min) && child(p, max) && char_drawn(upto(p, min), upto(p, max), c),
                _ => false,
            },
            NodeView::StringGen { length, min, max } => match v {
                ValueView::String(s) => child(p, length) && child(p, min) && child(p, max) && exists|n: u64|
                    #![trigger drawn(n)]
                    drawn(n) && gen_ok(upto(p, length), ValueView::Uint(n)) && s.len() == n && forall|k: int|
                        #![trigger s[k]] 0 <= k < s.len() ==> char_drawn(upto(p, min), upto(p, max), s[k]),
                _ => false,
            },
            NodeView::Select(os) => exists|k: int| #![trigger os[k]] 0 <= k < os.len() && child(p, os[k]) && gen_ok(upto(p, os[k]), v),
            NodeView::StableSelect(os) => exists|k: int| #![trigger os[k]] 0 <= k < os.len() && child(p, os[k]) && gen_ok(upto(p, os[k]), v),
            NodeView::Sequence { values, .. } => exists|k: int|
                #![trigger values[k]]
                0 <= k < values.len() && child(p, values[k]) && gen_ok(upto(p, values[k]), v),
            NodeView::UintRange { min, max } => match v {
                ValueView::Uint(x) => child(p, min) && child(p, max) && exists|lo: u64, hi: u64|
                    #![trigger drawn((lo, hi))]
                    drawn((lo, hi)) && gen_ok(upto(p, min), ValueView::Uint(lo)) && gen_ok(upto(p, max), ValueView::Uint(hi))
                        && between(x as int, lo as int, hi as int),
                _ => false,
            },
            NodeView::IntRange { min, max } => match v {
                ValueView::Int(x) => child(p, min) && child(p, max) && exists|lo: i64, hi: i64|
                    #![trigger drawn((lo, hi))]
                    drawn((lo, hi)) && gen_ok(upto(p, min), ValueView::Int(lo)) && gen_ok(upto(p, max), ValueView::Int(hi))
                        && between(x as int, lo as int, hi as int),
                _ => false,
            },
            NodeView::ToString(a) => match v {
                ValueView::String(s) => child(p, a) && text_ok(upto(p, a), s),
                _ => false,
            },
            NodeView::StringBytes { encoding, string } => match v {
                ValueView::Bin(b) => child(p, encoding) && child(p, string) && exists|label: Seq<char>, text: Seq<char>|
                    #![trigger drawn((label, text))]
                    drawn((label, text)) && gen_ok(upto(p, encoding), ValueView::String(label)) && gen_ok(upto(p, string), ValueView::String(text))
                        && whatwg_encoded(label, text) == Some(Ok::<Seq<u8>, Seq<char>>(b)),
                _ => false,
            },
            NodeView::Env(k) => v is String,
            NodeView::Memo(s) => child(p, s) && gen_ok(upto(p, s), v),
            NodeView::Mapped { body, .. } => child(p, body) && gen_ok(upto(p, body), v),
            NodeView::Traced { inner, .. } => child(p, inner) && gen_ok(upto(p, inner), v),
            NodeView::SelectFromFile { .. } => v is String,
            NodeView::Words => v is String,
        }
    }
}

/// The last node of `p` can write the text `t`.
pub open spec fn text_ok(p: Seq<NodeView>, t: Seq<char>) -> bool
    decreases p.len(), 1int,
{
    if p.len() == 0 {
        false
    } else {
        match p.last() {
            NodeView::Const(c) => t == view_text(c),
            NodeView::Concat(ps) => exists|parts: Seq<Seq<char>>|
                #![trigger drawn(parts)]
                drawn(parts) && parts.len() == ps.len() && t == parts.flatten() && forall|k: int|
                    #![trigger ps[k]]
                    0 <= k < ps.len() ==> child(p, ps[k]) && text_ok(upto(p, ps[k]), parts[k]),
            NodeView::RepeatDelimited { count, prefix, repeated, delimiter, suffix } => {
                &&& child(p, count) && child(p, prefix) && child(p, repeated) && child(p, delimiter) && child(p, suffix)
                &&& exists|n: u64, pre: Seq<char>, items: Seq<Seq<char>>, delims: Seq<Seq<char>>, suf: Seq<char>|
                    #![trigger drawn((n, pre, items, delims, suf))]
                    drawn((n, pre, items, delims, suf)) && gen_ok(upto(p, count), ValueView::Uint(n)) && text_ok(upto(p, prefix), pre) && items.len() == n
                        && delims.len() == n && (forall|k: int| #![trigger items[k]] 0 <= k < n ==> text_ok(upto(p, repeated), items[k]))
                        && (forall|k: int| #![trigger delims[k]] 1 <= k < n ==> text_ok(upto(p, delimiter), delims[k]))
                        && text_ok(upto(p, suffix), suf) && t == pre + joined(items, delims) + suf
            },
            NodeView::StringGen { length, min, max } => child(p, length) && child(p, min) && child(p, max) && exists|n: u64|
                #![trigger drawn(n)]
                drawn(n) && gen_ok(upto(p, length), ValueView::Uint(n)) && t.len() == n && forall|k: int|
                    #![trigger t[k]] 0 <= k < t.len() ==> char_drawn(upto(p, min), upto(p, max), t[k]),
            NodeView::Select(os) => exists|k: int| #![trigger os[k]] 0 <= k < os.len() && child(p, os[k]) && text_ok(upto(p, os[k]), t),
            NodeView::StableSelect(os) => exists|k: int| #![trigger os[k]] 0 <= k < os.len() && child(p, os[k]) && text_ok(upto(p, os[k]), t),
            NodeView::Sequence { values, .. } => exists|k: int|
                #![trigger values[k]]
                0 <= k < values.len() && child(p, values[k]) && text_ok(upto(p, values[k]), t),
            NodeView::ToString(a) => child(p, a) && text_ok(upto(p, a), t),
            NodeView::Memo(s) => child(p, s) && text_ok(upto(p, s), t),
            NodeView::Mapped { body, .. } => child(p, body) && text_ok(upto(p, body), t),
            NodeView::Traced { inner, .. } => child(p, inner) && text_ok(upto(p, inner), t),
            _ => exists|v: ValueView| #![trigger drawn(v)] drawn(v) && gen_ok(p, v) && t == view_text(v),
        }
    }
}

/// The last node of `p` can write the bytes `b`.
pub open spec fn bytes_ok(p: Seq<NodeView>, b: Seq<u8>) -> bool
    decreases p.len(), 1int,
{
    if p.len() == 0 {
        false
    } else {
        match p.last() {
            NodeView::Concat(ps) => exists|parts: Seq<Seq<u8>>|
                #![trigger drawn(parts)]
                drawn(parts) && parts.len() == ps.len() && b == parts.flatten() && forall|k: int|
                    #![trigger ps[k]]
                    0 <= k < ps.len() ==> child(p, ps[k]) && bytes_ok(upto(p, ps[k]), parts[k]),
            NodeView::RepeatDelimited { count, prefix, repeated, delimiter, suffix } => {
                &&& child(p, count) && child(p, prefix) && child(p, repeated) && child(p, delimiter) && child(p, suffix)
                &&& exists|n: u64, pre: Seq<u8>, items: Seq<Seq<u8>>, delims: Seq<Seq<u8>>, suf: Seq<u8>|
                    #![trigger drawn((n, pre, items, delims, suf))]
                    drawn((n, pre, items, delims, suf)) && gen_ok(upto(p, count), ValueView::Uint(n)) && bytes_ok(upto(p, prefix), pre) && items.len() == n
                        && delims.len() == n && (forall|k: int| #![trigger items[k]] 0 <= k < n ==> bytes_ok(upto(p, repeated), items[k]))
                        && (forall|k: int| #![trigger delims[k]] 1 <= k < n ==> bytes_ok(upto(p, delimiter), delims[k]))
                        && bytes_ok(upto(p, suffix), suf) && b == pre + joined(items, delims) + suf
            },
            NodeView::Select(os) => exists|k: int| #![trigger os[k]] 0 <= k < os.len() && child(p, os[k]) && bytes_ok(upto(p, os[k]), b),
            NodeView::StableSelect(os) => exists|k: int| #![trigger os[k]] 0 <= k < os.len() && child(p, os[k]) && bytes_ok(upto(p, os[k]), b),
            NodeView::Sequence { values, .. } => exists|k: int|
                #![trigger values[k]]
                0 <= k < values.len() && child(p, values[k]) && bytes_ok(upto(p, values[k]), b),
            NodeView::Memo(s) => child(p, s) && bytes_ok(upto(p, s), b),
            NodeView::Mapped { body, .. } => child(p, body) && bytes_ok(upto(p, body), b),
            NodeView::Traced { inner, .. } => child(p, inner) && bytes_ok(upto(p, inner), b),
            _ => gen_ok(p, ValueView::Bin(b)),
        }
    }
}

/// Concatenated binaries that the parts can generate can be generated.
pub proof fn lemma_concat_bin_ok(p: Seq<NodeView>, ps: Seq<usize>, parts: Seq<Seq<u8>>)
    requires
        p.len() > 0,
        p.last() == NodeView::Concat(ps),
        parts.len() == ps.len(),
        forall|k: int| #![trigger ps[k]] 0 <= k < ps.len() ==> child(p, ps[k]) && gen_ok(upto(p, ps[k]), ValueView::Bin(parts[k])),
    ensures
        gen_ok(p, ValueView::Bin(parts.flatten())),
{
    assert(drawn(parts));
}

/// Concatenated texts that the parts can write can be written, and are a value.
pub proof fn lemma_concat_text_ok(p: Seq<NodeView>, ps: Seq<usize>, parts: Seq<Seq<char>>)
    requires
        p.len() > 0,
        p.last() == NodeView::Concat(ps),
        parts.len() == ps.len(),
        forall|k: int| #![trigger ps[k]] 0 <= k < ps.len() ==> child(p, ps[k]) && text_ok(upto(p, ps[k]), parts[k]),
    ensures
        text_ok(p, parts.flatten()),
        gen_ok(p, ValueView::String(parts.flatten())),
{
    assert(drawn(parts));
}

/// Concatenated bytes that the parts can write can be written.
pub proof fn lemma_concat_bytes_ok(p: Seq<NodeView>, ps: Seq<usize>, parts: Seq<Seq<u8>>)
    requires
        p.len() > 0,
        p.last() == NodeView::Concat(ps),
        parts.len() == ps.len(),
        forall|k: int| #![trigger ps[k]] 0 <= k < ps.len() ==> child(p, ps[k]) && bytes_ok(upto(p, ps[k]), parts[k]),
    ensures
        bytes_ok(p, parts.flatten()),
{
    assert(drawn(parts));
}

/// A string of characters drawn between the bounds, as long as the drawn length, can be
/// generated.
pub proof fn lemma_string_gen_ok(p: Seq<NodeView>, length: usize, min: usize, max: usize, n: u64, s: Seq<char>)
    requires
        p.len() > 0,
        p.last() == (NodeView::StringGen { length, min, max }),
        child(p, length) && child(p, min) && child(p, max),
        gen_ok(upto(p, length), ValueView::Uint(n)),
        s.len() == n,
        forall|k: int| #![trigger s[k]] 0 <= k < s.len() ==> char_drawn(upto(p, min), upto(p, max), s[k]),
    ensures
        gen_ok(p, ValueView::String(s)),
{
    assert(drawn(n));
}

/// As many characters drawn between the bounds as the drawn length can be written.
pub proof fn lemma_string_fill_ok(p: Seq<NodeView>, length: usize, min: usize, max: usize, n: u64, s: Seq<char>)
    requires
        p.len() > 0,
        p.last() == (NodeView::StringGen { length, min, max }),
        child(p, length) && child(p, min) && child(p, max),
        gen_ok(upto(p, length), ValueView::Uint(n)),
        s.len() == n,
        forall|k: int| #![trigger s[k]] 0 <= k < s.len() ==> char_drawn(upto(p, min), upto(p, max), s[k]),
    ensures
        text_ok(p, s),
{
    assert(drawn(n));
}

/// The text that a concatenation of strings writes is a string value it can generate.
pub proof fn lemma_text_is_string_value(p: Seq<NodeView>, t: Seq<char>)
    requires
        p.len() > 0,
        p.last() is Concat,
        text_ok(p, t),
    ensures
        gen_ok(p, ValueView::String(t)),
{
    if let NodeView::Concat(ps) = p.last() {
        let parts = choose|parts: Seq<Seq<char>>|
            #![trigger drawn(parts)]
            drawn(parts) && parts.len() == ps.len() && t == parts.flatten() && forall|k: int|
                #![trigger ps[k]]
                0 <= k < ps.len() ==> child(p, ps[k]) && text_ok(upto(p, ps[k]), parts[k]);
        assert(drawn(parts));
    }
}

/// A prefix, the repeated items with their delimiters, and a suffix, each of which the parts
/// can write, can be written by a repetition.
pub proof fn lemma_repeat_text_ok(
    p: Seq<NodeView>,
    count: usize,
    prefix: usize,
    repeated: usize,
    delimiter: usize,
    suffix: usize,
    n: u64,
    pre: Seq<char>,
    items: Seq<Seq<char>>,
    delims: Seq<Seq<char>>,
    suf: Seq<char>,
)
    requires
        p.len() > 0,
        p.last() == (NodeView::RepeatDelimited { count, prefix, repeated, delimiter, suffix }),
        child(p, count) && child(p, prefix) && child(p, repeated) && child(p, delimiter) && child(p, suffix),
        gen_ok(upto(p, count), ValueView::Uint(n)),
        text_ok(upto(p, prefix), pre),
        items.len() == n,
        delims.len() == n,
        forall|k: int| #![trigger items[k]] 0 <= k < n ==> text_ok(upto(p, repeated), items[k]),
        forall|k: int| #![trigger delims[k]] 1 <= k < n ==> text_ok(upto(p, delimiter), delims[k]),
        text_ok(upto(p, suffix), suf),
    ensures
        text_ok(p, pre + joined(items, delims) + suf),
        gen_ok(p, ValueView::String(pre + joined(items, delims) + suf)),
{
    let t = pre + joined(items, delims) + suf;
    assert(drawn((n, pre, items, delims, suf)));
    assert(text_ok(p, t));
    assert(gen_ok(p, ValueView::String(t)));
}

/// The binary counterpart of [`lemma_repeat_text_ok`].
pub proof fn lemma_repeat_bytes_ok(
    p: Seq<NodeView>,
    count: usize,
    prefix: usize,
    repeated: usize,
    delimiter: usize,
    suffix: usize,
    n: u64,
    pre: Seq<u8>,
    items: Seq<Seq<u8>>,
    delims: Seq<Seq<u8>>,
    suf: Seq<u8>,
)
    requires
        p.len() > 0,
        p.last() == (NodeView::RepeatDelimited { count, prefix, repeated, delimiter, suffix }),
        child(p, count) && child(p, prefix) && child(p, repeated) && child(p, delimiter) && child(p, suffix),
        gen_ok(upto(p, count), ValueView::Uint(n)),
        bytes_ok(upto(p, prefix), pre),
        items.len() == n,
        delims.len() == n,
        forall|k: int| #![trigger items[k]] 0 <= k < n ==> bytes_ok(upto(p, repeated), items[k]),
        forall|k: int| #![trigger delims[k]] 1 <= k < n ==> bytes_ok(upto(p, delimiter), delims[k]),
        bytes_ok(upto(p, suffix), suf),
    ensures
        bytes_ok(p, pre + joined(items, delims) + suf),
        gen_ok(p, ValueView::Bin(pre + joined(items, delims) + suf)),
{
    let b = pre + joined(items, delims) + suf;
    assert(drawn((n, pre, items, delims, suf)));
    assert(bytes_ok(p, b));
    assert(gen_ok(p, ValueView::Bin(b)));
}

/// Appending an item, with its delimiter, to a joined list.
pub proof fn lemma_joined_push<A>(items: Seq<Seq<A>>, delims: Seq<Seq<A>>, d: Seq<A>, x: Seq<A>)
    requires
        items.len() == delims.len(),
    ensures
        joined(items.push(x), delims.push(d)) == joined(items, delims) + (if items.len() > 0 { d } else { Seq::empty() }) + x,
{
    assert(items.push(x).drop_last() =~= items);
    assert(delims.push(d).drop_last() =~= delims);
    assert(delims.push(d)[items.len() as int] == d);
}

/// A value that a node generates is a text that it writes, when the node writes its values.
pub proof fn lemma_value_text_ok(p: Seq<NodeView>, v: ValueView)
    requires
        p.len() > 0,
        !(p.last() is Const || p.last() is Concat || p.last() is RepeatDelimited || p.last() is StringGen
            || p.last() is Select || p.last() is StableSelect || p.last() is Sequence || p.last() is ToString
            || p.last() is Memo || p.last() is Mapped || p.last() is Traced),
        gen_ok(p, v),
    ensures
        text_ok(p, view_text(v)),
{
    assert(drawn(v));
}

/// What a repetition writes is a value it generates.
pub proof fn lemma_repeat_value_ok(p: Seq<NodeView>, v: ValueView)
    requires
        p.len() > 0,
        p.last() is RepeatDelimited,
        match v {
            ValueView::Bin(b) => bytes_ok(p, b),
            ValueView::String(s) => text_ok(p, s),
            _ => false,
        },
    ensures
        gen_ok(p, v),
{
}

/// A character drawn between the bounds of a character node is a value it generates.
pub proof fn lemma_char_gen_ok(p: Seq<NodeView>, min: usize, max: usize, c: char)
    requires
        p.len() > 0,
        p.last() == (NodeView::CharGen { min, max }),
        child(p, min) && child(p, max),
        char_drawn(upto(p, min), upto(p, max), c),
    ensures
        gen_ok(p, ValueView::Char(c)),
{
}

} // verus!
