//! Compiled programs: a graph of generator nodes, and their evaluation.
//!
//! Every node refers only to nodes created before it, so evaluation recurses on smaller indices.
//! A node either generates a value, or writes its output: text for every type but `Bin`, bytes
//! for `Bin`. For most nodes the output is the text of the generated value; the nodes that build
//! strings and binaries from parts write their parts one after another.

use vstd::prelude::*;
use byteorder::ByteOrder;
use encoding::Encoding;
use crate::ast::{GenType, IString};
use crate::context::ProgramContext;
use crate::errors::SourceRef;
use crate::text::{
    chars_of, char_from_u32, encode_char, format_u64, push_all, string_from_chars, utf8_width,
};
use crate::value::{is_textual, view_text, view_type, Value, ValueView};
use crate::outcome::{
    bytes_ok, char_drawn, char_of_draw, child, drawn, gen_ok, joined, lemma_concat_bin_ok,
    lemma_char_gen_ok, lemma_concat_bytes_ok, lemma_concat_text_ok, lemma_joined_push, lemma_repeat_bytes_ok, lemma_repeat_text_ok, lemma_repeat_value_ok,
    lemma_string_fill_ok, lemma_string_gen_ok, lemma_text_is_string_value, lemma_value_text_ok, text_ok, upto,
};
use crate::text::byte_len;
use crate::files::{region_bounds_spec, region_offsets};
use vstd::utf8::{encode_utf8, valid_utf8};
use vstd::string::StringSliceAdditionalSpecFns;
use vstd::utf8::decode_utf8;

verus! {

broadcast use {crate::outcome::lemma_upto_upto, crate::outcome::lemma_upto_last, crate::outcome::lemma_upto_push};

/// A generator node. Child nodes are given by their index in the program.
#[derive(Debug)]
pub enum Node {
    /// Always the same value.
    Const(Value),
    /// The outputs of the parts, one after another (`String` or `Bin`).
    Concat(Vec<usize>),
    /// `prefix`, then `count` times `repeated` separated by `delimiter`, then `suffix`.
    RepeatDelimited { count: usize, prefix: usize, repeated: usize, delimiter: usize, suffix: usize },
    /// The number of bytes of a binary.
    BinLength(usize),
    /// The number of bytes of the UTF-8 encoding of a string.
    StringLength(usize),
    /// The 8-byte encoding of a `Uint` or `Int`.
    ToBinary { number: usize, big_endian: bool },
    /// A character with a random code point between two bounds.
    CharGen { min: usize, max: usize },
    /// A string of random characters.
    StringGen { length: usize, min: usize, max: usize },
    /// A randomly selected option, anew each time.
    Select(Vec<usize>),
    /// A randomly selected option, the same one every time.
    StableSelect(Vec<usize>),
    /// The options in turn; past the end, the last one forever or (wrapping) from the start.
    Sequence { values: Vec<usize>, wrapping: bool },
    /// A random `Uint` between two bounds, inclusive.
    UintRange { min: usize, max: usize },
    /// A random `Int` between two bounds, inclusive.
    IntRange { min: usize, max: usize },
    /// The output of a value that is not a string, as a string.
    ToString(usize),
    /// A string encoded by the encoding with the given WHATWG label.
    StringBytes { encoding: usize, string: usize },
    /// The value of the environment variable with the given name.
    Env(usize),
    /// The value of the mapped function, generated once until its mapping restarts.
    Memo(usize),
    /// The body of a mapper, evaluated with the memoized value of `memo` made fresh.
    Mapped { memo: usize, body: usize },
    /// A call of a named function: failures record it as a stack frame.
    Traced(RuntimeWrapper),
    /// A random region of the file at the given path, delimited by the given delimiter.
    SelectFromFile { path: usize, delimiter: usize },
    /// A random line of the system's words file.
    Words,
}

/// The content of a [`Node`].
pub enum NodeView {
    Const(ValueView),
    Concat(Seq<usize>),
    RepeatDelimited { count: usize, prefix: usize, repeated: usize, delimiter: usize, suffix: usize },
    BinLength(usize),
    StringLength(usize),
    ToBinary { number: usize, big_endian: bool },
    CharGen { min: usize, max: usize },
    StringGen { length: usize, min: usize, max: usize },
    Select(Seq<usize>),
    StableSelect(Seq<usize>),
    Sequence { values: Seq<usize>, wrapping: bool },
    UintRange { min: usize, max: usize },
    IntRange { min: usize, max: usize },
    ToString(usize),
    StringBytes { encoding: usize, string: usize },
    Env(usize),
    Memo(usize),
    Mapped { memo: usize, body: usize },
    Traced { inner: usize, name: Seq<char>, source_ref: SourceRef },
    SelectFromFile { path: usize, delimiter: usize },
    Words,
}

impl View for Node {
    type V = NodeView;

    open spec fn view(&self) -> NodeView {
        match self {
            Node::Const(v) => NodeView::Const(v@),
            Node::Concat(ps) => NodeView::Concat(ps@),
            Node::RepeatDelimited { count, prefix, repeated, delimiter, suffix } => NodeView::RepeatDelimited {
                count: *count,
                prefix: *prefix,
                repeated: *repeated,
                delimiter: *delimiter,
                suffix: *suffix,
            },
            Node::BinLength(b) => NodeView::BinLength(*b),
            Node::StringLength(s) => NodeView::StringLength(*s),
            Node::ToBinary { number, big_endian } => NodeView::ToBinary { number: *number, big_endian: *big_endian },
            Node::CharGen { min, max } => NodeView::CharGen { min: *min, max: *max },
            Node::StringGen { length, min, max } => NodeView::StringGen { length: *length, min: *min, max: *max },
            Node::Select(os) => NodeView::Select(os@),
            Node::StableSelect(os) => NodeView::StableSelect(os@),
            Node::Sequence { values, wrapping } => NodeView::Sequence { values: values@, wrapping: *wrapping },
            Node::UintRange { min, max } => NodeView::UintRange { min: *min, max: *max },
            Node::IntRange { min, max } => NodeView::IntRange { min: *min, max: *max },
            Node::ToString(a) => NodeView::ToString(*a),
            Node::StringBytes { encoding, string } => NodeView::StringBytes { encoding: *encoding, string: *string },
            Node::Env(k) => NodeView::Env(*k),
            Node::Memo(s) => NodeView::Memo(*s),
            Node::Mapped { memo, body } => NodeView::Mapped { memo: *memo, body: *body },
            Node::Traced(w) => NodeView::Traced { inner: w.wrapped, name: w.function_name@, source_ref: w.source_ref },
            Node::SelectFromFile { path, delimiter } => NodeView::SelectFromFile { path: *path, delimiter: *delimiter },
            Node::Words => NodeView::Words,
        }
    }
}

/// All of `xs` are earlier nodes of type `t`.
pub open spec fn all_of_type(xs: Seq<usize>, types: Seq<GenType>, i: int, t: GenType) -> bool {
    forall|k: int| 0 <= k < xs.len() ==> (#[trigger] xs[k]) < i && types[xs[k] as int] == t
}

/// Node `i`, of type `t`, refers only to earlier nodes, of the types it needs.
/// `c` is an earlier node than `i`, of type `ct`.
pub open spec fn earlier(types: Seq<GenType>, i: int, c: usize, ct: GenType) -> bool {
    c < i && types[c as int] == ct
}

pub open spec fn node_ok(nodes: Seq<NodeView>, types: Seq<GenType>, i: int) -> bool {
    let t = types[i];
    match nodes[i] {
        NodeView::Const(v) => view_type(v) == t,
        NodeView::Concat(ps) => (t == GenType::String || t == GenType::Bin) && ps.len() > 0 && all_of_type(ps, types, i, t),
        NodeView::RepeatDelimited { count, prefix, repeated, delimiter, suffix } => {
            &&& t == GenType::String || t == GenType::Bin
            &&& earlier(types, i, count, GenType::Uint)
            &&& earlier(types, i, prefix, t) && earlier(types, i, repeated, t) && earlier(types, i, delimiter, t) && earlier(types, i, suffix, t)
        },
        NodeView::BinLength(b) => t == GenType::Uint && earlier(types, i, b, GenType::Bin),
        NodeView::StringLength(s) => t == GenType::Uint && earlier(types, i, s, GenType::String),
        NodeView::ToBinary { number, big_endian } => t == GenType::Bin && (earlier(types, i, number, GenType::Uint)
            || earlier(types, i, number, GenType::Int)),
        NodeView::CharGen { min, max } => t == GenType::Char && earlier(types, i, min, GenType::Uint) && earlier(types, i, max, GenType::Uint),
        NodeView::StringGen { length, min, max } => t == GenType::String && earlier(types, i, length, GenType::Uint)
            && earlier(types, i, min, GenType::Uint) && earlier(types, i, max, GenType::Uint),
        NodeView::Select(os) => os.len() > 0 && all_of_type(os, types, i, t),
        NodeView::StableSelect(os) => os.len() > 0 && all_of_type(os, types, i, t),
        NodeView::Sequence { values, wrapping } => values.len() > 0 && all_of_type(values, types, i, t),
        NodeView::UintRange { min, max } => t == GenType::Uint && earlier(types, i, min, GenType::Uint) && earlier(types, i, max, GenType::Uint),
        NodeView::IntRange { min, max } => t == GenType::Int && earlier(types, i, min, GenType::Int) && earlier(types, i, max, GenType::Int),
        NodeView::ToString(a) => t == GenType::String && a < i && (types[a as int] == GenType::Boolean
            || types[a as int] == GenType::Char || types[a as int] == GenType::Int || types[a as int] == GenType::Uint),
        NodeView::StringBytes { encoding, string } => t == GenType::Bin && earlier(types, i, encoding, GenType::String)
            && earlier(types, i, string, GenType::String),
        NodeView::Env(k) => t == GenType::String && earlier(types, i, k, GenType::String),
        NodeView::Memo(s) => t != GenType::Decimal && earlier(types, i, s, t),
        NodeView::Mapped { memo, body } => memo < i && nodes[memo as int] is Memo && earlier(types, i, body, t),
        NodeView::Traced { inner, name, source_ref } => earlier(types, i, inner, t),
        NodeView::SelectFromFile { path, delimiter } => t == GenType::String && earlier(types, i, path, GenType::String)
            && earlier(types, i, delimiter, GenType::String),
        NodeView::Words => t == GenType::String,
    }
}

/// The call of a named function at a region of source, around the node that generates the
/// call's values. When generating fails, the call is recorded as a stack frame.
#[derive(Debug)]
pub struct RuntimeWrapper {
    pub wrapped: usize,
    pub function_name: IString,
    pub source_ref: SourceRef,
}

/// Whether a memoized value and a memoized output have to be generated anew.
#[derive(Debug, Clone, Copy, PartialEq, Eq, Structural)]
pub struct Resetter {
    pub value_reset: bool,
    pub bytes_reset: bool,
}

/// Why generating a value failed.
#[derive(Debug, PartialEq)]
pub struct RuntimeFailure {
    pub message: String,
}


/// A compiled program: its nodes and their types, and the state that evaluation keeps.
pub struct Runtime {
    nodes: Vec<Node>,
    types: Vec<GenType>,
    counters: Vec<usize>,
    chosen: Vec<Option<usize>>,
    memo_values: Vec<Option<Value>>,
    memo_text: Vec<Vec<char>>,
    memo_bytes: Vec<Vec<u8>>,
    resetters: Vec<Resetter>,
    regions: Vec<Option<RegionCache>>,
}

/// The delimiter positions found in a file, kept for the next value drawn from it.
pub struct RegionCache {
    pub path: String,
    pub delimiter: String,
    pub offsets: Vec<u64>,
}

impl Runtime {
    /// The nodes of the program.
    pub closed spec fn node_views(&self) -> Seq<NodeView> {
        self.nodes@.map_values(|n: Node| n@)
    }

    /// The types of the values the nodes generate.
    pub closed spec fn node_types(&self) -> Seq<GenType> {
        self.types@
    }

    /// The option that a stable selection has settled on.
    pub closed spec fn chosen_option(&self, i: int) -> Option<usize> {
        self.chosen@[i]
    }

    /// The path, delimiter and delimiter positions that node `i` keeps from the last file it
    /// read regions from, if any.
    pub closed spec fn region_cache(&self, i: int) -> Option<(Seq<char>, Seq<char>, Seq<u64>)> {
        match self.regions@[i] {
            Some(c) => Some((c.path@, c.delimiter@, c.offsets@)),
            None => None,
        }
    }

    /// The delimiter positions that node `i` uses for the file `path` with the content `content`:
    /// those it keeps for that path and delimiter, or else those found in the content.
    pub open spec fn seen_offsets(&self, i: int, path: Seq<char>, delimiter: Seq<char>, content: Seq<u8>) -> Seq<u64> {
        match self.region_cache(i) {
            Some((p, d, o)) => if p == path && d == delimiter {
                o
            } else {
                region_offsets(content, encode_utf8(delimiter), 0)
            },
            None => region_offsets(content, encode_utf8(delimiter), 0),
        }
    }

    /// The value a memoizing node keeps, if any.
    pub closed spec fn memo_value(&self, i: int) -> Option<ValueView> {
        match self.memo_values@[i] {
            Some(v) => Some(v@),
            None => None,
        }
    }

    /// Whether a memoizing node has to generate its value anew.
    pub closed spec fn value_reset(&self, i: int) -> bool {
        self.resetters@[i].value_reset
    }

    /// Whether a memoizing node has to write its output anew.
    pub closed spec fn output_reset(&self, i: int) -> bool {
        self.resetters@[i].bytes_reset
    }

    /// The text a memoizing node keeps.
    pub closed spec fn memo_text_view(&self, i: int) -> Seq<char> {
        self.memo_text@[i]@
    }

    /// The binary a memoizing node keeps.
    pub closed spec fn memo_bytes_view(&self, i: int) -> Seq<u8> {
        self.memo_bytes@[i]@
    }

    /// How many times a sequence has been asked for a value.
    pub closed spec fn counter(&self, i: int) -> usize {
        self.counters@[i]
    }

    /// Every node is well formed, no node has type `Decimal`, and the state of each node
    /// fits it: memoized values have the node's type and stable choices name an option.
    pub closed spec fn wf(&self) -> bool {
        let n = self.nodes@.len();
        &&& self.types@.len() == n
        &&& self.counters@.len() == n
        &&& self.chosen@.len() == n
        &&& self.memo_values@.len() == n
        &&& self.memo_text@.len() == n
        &&& self.memo_bytes@.len() == n
        &&& self.resetters@.len() == n
        &&& self.regions@.len() == n
        &&& forall|i: int| 0 <= i < n ==> #[trigger] node_ok(self.node_views(), self.types@, i)
        &&& forall|i: int| 0 <= i < n ==> #[trigger] self.types@[i] != GenType::Decimal
        &&& forall|i: int| 0 <= i < n ==> (#[trigger] self.memo_values@[i] matches Some(v) ==> view_type(v@) == self.types@[i])
        &&& forall|i: int| 0 <= i < n ==> (#[trigger] self.chosen@[i] matches Some(c) ==> self.node_views()[i] matches NodeView::StableSelect(os) && c < os.len())
        &&& forall|i: int| 0 <= i < n ==> (!(#[trigger] self.resetters@[i]).value_reset ==> self.memo_values@[i] is Some)
        &&& forall|i: int| 0 <= i < n ==> #[trigger] self.memo_ok(i)
    }

    /// What a memoizing node keeps is what its source can generate and write.
    pub closed spec fn memo_ok(&self, i: int) -> bool {
        match self.node_views()[i] {
            NodeView::Memo(s) => {
                &&& (self.memo_values@[i] matches Some(v) ==> gen_ok(upto(self.node_views(), s), v@))
                &&& (!self.resetters@[i].bytes_reset ==> if self.types@[i] == GenType::Bin {
                    bytes_ok(upto(self.node_views(), s), self.memo_bytes@[i]@)
                } else {
                    text_ok(upto(self.node_views(), s), self.memo_text@[i]@)
                })
            },
            _ => true,
        }
    }

    /// What memoizing nodes keep is unchanged by changes to the rest of the state.
    proof fn lemma_memo_frame(a: &Runtime, b: &Runtime)
        requires
            forall|i: int| 0 <= i < b.nodes@.len() ==> #[trigger] b.memo_ok(i),
            a.node_views() == b.node_views(),
            a.types@ == b.types@,
            a.memo_values@ == b.memo_values@,
            a.memo_text@ == b.memo_text@,
            a.memo_bytes@ == b.memo_bytes@,
            a.resetters@ == b.resetters@,
        ensures
            forall|i: int| 0 <= i < a.nodes@.len() ==> #[trigger] a.memo_ok(i),
    {
        assert(a.nodes@.len() == a.node_views().len());
        assert forall|i: int| 0 <= i < a.nodes@.len() implies #[trigger] a.memo_ok(i) by {
            assert(b.memo_ok(i));
        }
    }

    /// Changing what one node keeps, to something it may keep, keeps what every node keeps valid.
    proof fn lemma_memo_update(a: &Runtime, b: &Runtime, i: int)
        requires
            forall|k: int| 0 <= k < b.nodes@.len() ==> #[trigger] b.memo_ok(k),
            a.node_views() == b.node_views(),
            a.types@ == b.types@,
            a.memo_values@.len() == b.memo_values@.len(),
            a.memo_text@.len() == b.memo_text@.len(),
            a.memo_bytes@.len() == b.memo_bytes@.len(),
            a.resetters@.len() == b.resetters@.len(),
            forall|k: int| 0 <= k < b.nodes@.len() && k != i ==> a.memo_values@[k] == b.memo_values@[k]
                && a.memo_text@[k] == b.memo_text@[k] && a.memo_bytes@[k] == b.memo_bytes@[k]
                && a.resetters@[k] == b.resetters@[k],
            0 <= i < a.nodes@.len() ==> a.memo_ok(i),
        ensures
            forall|k: int| 0 <= k < a.nodes@.len() ==> #[trigger] a.memo_ok(k),
    {
        assert(a.nodes@.len() == a.node_views().len());
        assert forall|k: int| 0 <= k < a.nodes@.len() implies #[trigger] a.memo_ok(k) by {
            if k != i {
                assert(b.memo_ok(k));
            }
        }
    }

    /// A well-formed program has a type for every node, and none of them is `Decimal`.
    pub proof fn lemma_wf(&self)
        requires
            self.wf(),
        ensures
            self.node_types().len() == self.node_views().len(),
            forall|i: int| 0 <= i < self.node_types().len() ==> #[trigger] self.node_types()[i] != GenType::Decimal,
            self.extends(self),
    {
        assert(self.node_views().subrange(0, self.node_views().len() as int) =~= self.node_views());
        assert(self.node_types().subrange(0, self.node_types().len() as int) =~= self.node_types());
    }

    /// An extension keeps each node of the program it extends, and its type.
    pub proof fn lemma_extends_keeps(a: &Runtime, b: &Runtime, x: int)
        requires
            a.extends(b),
            b.wf(),
            0 <= x < b.node_views().len(),
        ensures
            x < a.node_views().len(),
            a.node_types()[x] == b.node_types()[x],
            a.node_views()[x] == b.node_views()[x],
    {
        assert(a.node_types().subrange(0, b.node_types().len() as int)[x] == a.node_types()[x]);
        assert(a.node_views().subrange(0, b.node_views().len() as int)[x] == a.node_views()[x]);
    }

    /// Extending is transitive.
    pub proof fn lemma_extends_trans(a: &Runtime, b: &Runtime, c: &Runtime)
        requires
            a.extends(b),
            b.extends(c),
        ensures
            a.extends(c),
    {
        let n = c.node_views().len() as int;
        assert(a.node_views().subrange(0, n) =~= a.node_views().subrange(0, b.node_views().len() as int).subrange(0, n));
        assert(a.node_types().subrange(0, c.node_types().len() as int) =~= a.node_types().subrange(0, b.node_types().len() as int).subrange(0, c.node_types().len() as int));
        assert forall|m: int| n <= m < a.node_views().len() implies a.unrun(m) by {
            if m < b.node_views().len() {
                assert(b.unrun(m));
                assert(a.counter(m) == b.counter(m));
                assert(a.chosen_option(m) == b.chosen_option(m));
            }
        }
    }

    /// This program has every node of `other`, at the same index and of the same type, with the
    /// same sequence counters and choices; the nodes added have not run yet.
    pub open spec fn extends(&self, other: &Runtime) -> bool {
        &&& self.node_views().len() >= other.node_views().len()
        &&& self.node_types().len() >= other.node_types().len()
        &&& self.node_views().subrange(0, other.node_views().len() as int) == other.node_views()
        &&& self.node_types().subrange(0, other.node_types().len() as int) == other.node_types()
        &&& forall|m: int| 0 <= m < other.node_views().len() ==> #[trigger] self.counter(m) == other.counter(m)
        &&& forall|m: int| 0 <= m < other.node_views().len() ==> #[trigger] self.chosen_option(m) == other.chosen_option(m)
        &&& forall|m: int| other.node_views().len() <= m < self.node_views().len() ==> self.unrun(m)
    }

    /// Node `m` has not run yet: a sequence there has not been asked, and a stable selection
    /// there has not chosen.
    pub open spec fn unrun(&self, m: int) -> bool {
        self.counter(m) == 0 && self.chosen_option(m) is None
    }

    /// Every stable selection that had settled on an option in `other` is settled on the same
    /// option here.
    pub open spec fn keeps_choices(&self, other: &Runtime) -> bool {
        forall|j: int| 0 <= j < other.node_views().len() && other.chosen_option(j) is Some ==> #[trigger] self.chosen_option(j) == other.chosen_option(j)
    }

    /// The sequences after node `i` have been asked as often here as in `other`, and the nodes
    /// after it keep the same delimiter positions.
    pub open spec fn counters_kept_above(&self, other: &Runtime, i: int) -> bool {
        &&& forall|m: int| i < m < other.node_views().len() ==> #[trigger] self.counter(m) == other.counter(m)
        &&& forall|m: int| i < m < other.node_views().len() ==> #[trigger] self.region_cache(m) == other.region_cache(m)
    }

    /// Keeping the counters after a node is transitive.
    pub proof fn lemma_counters_trans(a: &Runtime, b: &Runtime, c: &Runtime, i: int)
        requires
            a.counters_kept_above(b, i),
            b.counters_kept_above(c, i),
            b.node_views().len() == c.node_views().len(),
        ensures
            a.counters_kept_above(c, i),
    {
        assert forall|m: int| i < m < c.node_views().len() implies #[trigger] a.counter(m) == c.counter(m) by {
            assert(a.counter(m) == b.counter(m));
        }
        assert forall|m: int| i < m < c.node_views().len() implies #[trigger] a.region_cache(m) == c.region_cache(m) by {
            assert(a.region_cache(m) == b.region_cache(m));
        }
    }

    /// A program whose choices are those of one that keeps the choices of `c` keeps them too.
    proof fn lemma_keeps_same_chosen(a: &Runtime, b: &Runtime, c: &Runtime)
        requires
            b.keeps_choices(c),
            a.chosen@ == b.chosen@,
        ensures
            a.keeps_choices(c),
    {
        assert forall|j: int| 0 <= j < c.node_views().len() && c.chosen_option(j) is Some implies #[trigger] a.chosen_option(j)
            == c.chosen_option(j) by {
            assert(b.chosen_option(j) == c.chosen_option(j));
        }
    }

    /// Keeping choices is transitive.
    pub proof fn lemma_keeps_trans(a: &Runtime, b: &Runtime, c: &Runtime)
        requires
            a.keeps_choices(b),
            b.keeps_choices(c),
            b.node_views().len() == c.node_views().len(),
        ensures
            a.keeps_choices(c),
    {
        assert forall|j: int| 0 <= j < c.node_views().len() && c.chosen_option(j) is Some implies #[trigger] a.chosen_option(j)
            == c.chosen_option(j) by {
            assert(b.chosen_option(j) == c.chosen_option(j));
            assert(a.chosen_option(j) == b.chosen_option(j));
        }
    }

    /// The two programs have the same nodes and types; only evaluation state may differ.
    pub open spec fn same_program(&self, other: &Runtime) -> bool {
        self.node_views() == other.node_views() && self.node_types() == other.node_types()
    }

    /// An empty program.
    pub fn new() -> (r: Runtime)
        ensures
            r.wf(),
            r.node_views().len() == 0,
    {
        let r = Runtime {
            nodes: Vec::new(),
            types: Vec::new(),
            counters: Vec::new(),
            chosen: Vec::new(),
            memo_values: Vec::new(),
            memo_text: Vec::new(),
            memo_bytes: Vec::new(),
            resetters: Vec::new(),
            regions: Vec::new(),
        };
        assert(r.node_views() =~= Seq::<NodeView>::empty());
        r
    }

    /// The number of nodes.
    pub fn len(&self) -> (n: usize)
        ensures
            n == self.node_views().len(),
    {
        self.nodes.len()
    }

    /// The type of node `i`.
    pub fn type_of(&self, i: usize) -> (t: GenType)
        requires
            self.wf(),
            i < self.node_views().len(),
        ensures
            t == self.node_types()[i as int],
    {
        self.types[i]
    }

    /// Adds a node of type `t`; it gets the next index.
    pub fn add(&mut self, node: Node, t: GenType) -> (i: usize)
        requires
            old(self).wf(),
            t != GenType::Decimal,
            node_ok(old(self).node_views().push(node@), old(self).node_types().push(t), old(self).node_views().len() as int),
            old(self).node_views().len() < usize::MAX,
        ensures
            final(self).wf(),
            i == old(self).node_views().len(),
            final(self).node_views() == old(self).node_views().push(node@),
            final(self).node_types() == old(self).node_types().push(t),
            final(self).extends(old(self)),
    {
        let ghost old_views = self.node_views();
        let i = self.nodes.len();
        self.nodes.push(node);
        self.types.push(t);
        self.counters.push(0);
        self.chosen.push(None);
        self.memo_values.push(None);
        self.memo_text.push(Vec::new());
        self.memo_bytes.push(Vec::new());
        self.resetters.push(Resetter { value_reset: true, bytes_reset: true });
        self.regions.push(None);
        proof {
            assert(self.node_views() =~= old_views.push(node@));
            assert(self.node_views().subrange(0, old_views.len() as int) =~= old_views);
            assert(self.types@.subrange(0, old(self).types@.len() as int) =~= old(self).types@);
            assert forall|k: int| 0 <= k < self.nodes@.len() implies #[trigger] node_ok(self.node_views(), self.types@, k) by {
                if k < i {
                    assert(node_ok(old_views, old(self).types@, k));
                    lemma_node_ok_extend(old_views, old(self).types@, node@, t, k);
                }
            }
            assert forall|k: int| 0 <= k < self.nodes@.len() implies #[trigger] self.memo_ok(k) by {
                if k < i {
                    assert(old(self).memo_ok(k));
                    assert(self.node_views()[k] == old_views[k]);
                    assert(node_ok(old_views, old(self).types@, k));
                    match old_views[k] {
                        NodeView::Memo(src) => {
                            assert(upto(self.node_views(), src) == upto(old_views, src));
                        },
                        _ => {},
                    }
                }
            }
        }
        i
    }
}

/// Adding a node keeps the earlier nodes well formed.
proof fn lemma_node_ok_extend(nodes: Seq<NodeView>, types: Seq<GenType>, n: NodeView, t: GenType, k: int)
    requires
        0 <= k < nodes.len(),
        types.len() == nodes.len(),
        node_ok(nodes, types, k),
    ensures
        node_ok(nodes.push(n), types.push(t), k),
{
    let ns = nodes.push(n);
    let ts = types.push(t);
    assert(ns[k] == nodes[k]);
    assert(ts[k] == types[k]);
    match nodes[k] {
        NodeView::Concat(ps) => {
            assert forall|j: int| 0 <= j < ps.len() implies (#[trigger] ps[j]) < k && ts[ps[j] as int] == ts[k] by {
                assert(ps[j] < k && types[ps[j] as int] == types[k]);
            }
        },
        NodeView::Select(ps) => {
            assert forall|j: int| 0 <= j < ps.len() implies (#[trigger] ps[j]) < k && ts[ps[j] as int] == ts[k] by {
                assert(ps[j] < k && types[ps[j] as int] == types[k]);
            }
        },
        NodeView::StableSelect(ps) => {
            assert forall|j: int| 0 <= j < ps.len() implies (#[trigger] ps[j]) < k && ts[ps[j] as int] == ts[k] by {
                assert(ps[j] < k && types[ps[j] as int] == types[k]);
            }
        },
        NodeView::Sequence { values: ps, wrapping } => {
            assert forall|j: int| 0 <= j < ps.len() implies (#[trigger] ps[j]) < k && ts[ps[j] as int] == ts[k] by {
                assert(ps[j] < k && types[ps[j] as int] == types[k]);
            }
        },
        NodeView::Mapped { memo, body } => {
            assert(ns[memo as int] == nodes[memo as int]);
        },
        _ => {},
    }
}


/// A copy of a list of node indices.
fn copy_indices(xs: &Vec<usize>) -> (r: Vec<usize>)
    ensures
        r@ == xs@,
{
    let mut r: Vec<usize> = Vec::new();
    let mut k: usize = 0;
    while k < xs.len()
        invariant
            0 <= k <= xs@.len(),
            r@ == xs@.take(k as int),
        decreases xs@.len() - k,
    {
        r.push(xs[k]);
        k = k + 1;
        assert(r@ =~= xs@.take(k as int));
    }
    assert(xs@.take(xs@.len() as int) =~= xs@);
    r
}

impl Node {
    /// A copy of the node.
    pub fn copy(&self) -> (r: Node)
        ensures
            r@ == self@,
    {
        match self {
            Node::Const(v) => Node::Const(v.copy()),
            Node::Concat(ps) => Node::Concat(copy_indices(ps)),
            Node::RepeatDelimited { count, prefix, repeated, delimiter, suffix } => Node::RepeatDelimited {
                count: *count,
                prefix: *prefix,
                repeated: *repeated,
                delimiter: *delimiter,
                suffix: *suffix,
            },
            Node::BinLength(b) => Node::BinLength(*b),
            Node::StringLength(x) => Node::StringLength(*x),
            Node::ToBinary { number, big_endian } => Node::ToBinary { number: *number, big_endian: *big_endian },
            Node::CharGen { min, max } => Node::CharGen { min: *min, max: *max },
            Node::StringGen { length, min, max } => Node::StringGen { length: *length, min: *min, max: *max },
            Node::Select(os) => Node::Select(copy_indices(os)),
            Node::StableSelect(os) => Node::StableSelect(copy_indices(os)),
            Node::Sequence { values, wrapping } => Node::Sequence { values: copy_indices(values), wrapping: *wrapping },
            Node::UintRange { min, max } => Node::UintRange { min: *min, max: *max },
            Node::IntRange { min, max } => Node::IntRange { min: *min, max: *max },
            Node::ToString(a) => Node::ToString(*a),
            Node::StringBytes { encoding, string } => Node::StringBytes { encoding: *encoding, string: *string },
            Node::Env(k) => Node::Env(*k),
            Node::Memo(x) => Node::Memo(*x),
            Node::Mapped { memo, body } => Node::Mapped { memo: *memo, body: *body },
            Node::Traced(w) => Node::Traced(RuntimeWrapper {
                wrapped: w.wrapped,
                function_name: w.function_name.clone(),
                source_ref: w.source_ref.clone(),
            }),
            Node::SelectFromFile { path, delimiter } => Node::SelectFromFile { path: *path, delimiter: *delimiter },
            Node::Words => Node::Words,
        }
    }
}

/// The node that node `i` of `p` stands for once the calls wrapped around it are seen through.
pub open spec fn root(p: Seq<NodeView>, i: int) -> int
    decreases i,
{
    if 0 <= i < p.len() {
        match p[i] {
            NodeView::Traced { inner, .. } => if inner < i {
                root(p, inner as int)
            } else {
                i
            },
            _ => i,
        }
    } else {
        i
    }
}

/// The node a node stands for is itself or an earlier one.
pub proof fn lemma_root_range(p: Seq<NodeView>, i: int)
    requires
        0 <= i < p.len(),
    ensures
        0 <= root(p, i) <= i,
    decreases i,
{
    match p[i] {
        NodeView::Traced { inner, .. } => if inner < i {
            lemma_root_range(p, inner as int);
        },
        _ => {},
    }
}

/// Which option a sequence gives after it has been asked `counter` times: wrapping around, or
/// staying on the last option once it has been reached.
pub open spec fn sequence_position(counter: int, len: int, wrapping: bool) -> int {
    if wrapping {
        counter % len
    } else if counter < len - 1 {
        counter
    } else {
        len - 1
    }
}

/// The option a sequence of `len` options gives after `counter` requests.
pub fn sequence_index(counter: usize, len: usize, wrapping: bool) -> (r: usize)
    requires
        len > 0,
    ensures
        r == sequence_position(counter as int, len as int, wrapping),
        r < len,
{
    if wrapping {
        counter % len
    } else if counter < len - 1 {
        counter
    } else {
        len - 1
    }
}

/// A sequence gives its options in order, one per request, until it reaches the last one;
/// without wrapping it then gives the last option forever, and with wrapping it starts over,
/// so that it repeats with a period of its length.
pub proof fn lemma_sequence_order(counter: int, len: int)
    requires
        len > 0,
        counter >= 0,
    ensures
        counter < len ==> sequence_position(counter, len, true) == counter,
        counter < len ==> sequence_position(counter, len, false) == counter,
        counter >= len - 1 ==> sequence_position(counter, len, false) == len - 1,
        sequence_position(counter + len, len, true) == sequence_position(counter, len, true),
        0 <= sequence_position(counter, len, true) < len,
{
    vstd::arithmetic::div_mod::lemma_mod_add_multiples_vanish(counter, len);
    if counter < len {
        vstd::arithmetic::div_mod::lemma_small_mod(counter as nat, len as nat);
    }
    vstd::arithmetic::div_mod::lemma_mod_bound(counter, len);
}

/// 256 to the power `k`.
pub open spec fn pow256(k: nat) -> nat
    decreases k,
{
    if k == 0 {
        1
    } else {
        256 * pow256((k - 1) as nat)
    }
}

/// Byte `k` of `n`, counting from the least significant.
pub open spec fn byte_of(n: nat, k: nat) -> u8 {
    ((n / pow256(k)) % 256) as u8
}

/// The 8 bytes of `n`, least significant first.
pub open spec fn le_bytes(n: nat) -> Seq<u8> {
    Seq::new(8, |k: int| byte_of(n, k as nat))
}

/// The 8 bytes of `n`, most significant first.
pub open spec fn be_bytes(n: nat) -> Seq<u8> {
    Seq::new(8, |k: int| byte_of(n, (7 - k) as nat))
}

/// The big-endian bytes of a number are its little-endian bytes in reverse order.
pub proof fn lemma_be_is_reversed_le(n: nat)
    ensures
        be_bytes(n) == le_bytes(n).reverse(),
        be_bytes(n).len() == 8,
{
    assert(be_bytes(n) =~= le_bytes(n).reverse());
}

/// byteorder's `BigEndian::write_u64` into an 8-byte buffer: the bytes of `n`, most significant first.
#[verifier::external_body]
fn write_u64_be(n: u64) -> (b: Vec<u8>)
    ensures
        b@ == be_bytes(n as nat),
{
    let mut buf = vec![0u8; 8];
    byteorder::BigEndian::write_u64(&mut buf, n);
    buf
}

/// byteorder's `LittleEndian::write_u64` into an 8-byte buffer: the bytes of `n`, least significant first.
#[verifier::external_body]
fn write_u64_le(n: u64) -> (b: Vec<u8>)
    ensures
        b@ == le_bytes(n as nat),
{
    let mut buf = vec![0u8; 8];
    byteorder::LittleEndian::write_u64(&mut buf, n);
    buf
}

/// byteorder's `BigEndian::write_i64` into an 8-byte buffer: the two's complement bytes of
/// `n`, most significant first.
#[verifier::external_body]
fn write_i64_be(n: i64) -> (b: Vec<u8>)
    ensures
        b@ == be_bytes((n as u64) as nat),
{
    let mut buf = vec![0u8; 8];
    byteorder::BigEndian::write_i64(&mut buf, n);
    buf
}

/// byteorder's `LittleEndian::write_i64` into an 8-byte buffer: the two's complement bytes of
/// `n`, least significant first.
#[verifier::external_body]
fn write_i64_le(n: i64) -> (b: Vec<u8>)
    ensures
        b@ == le_bytes((n as u64) as nat),
{
    let mut buf = vec![0u8; 8];
    byteorder::LittleEndian::write_i64(&mut buf, n);
    buf
}

/// The 8-byte binary of a `Uint` or `Int` value, in the given byte order.
pub fn number_bytes(v: &Value, big_endian: bool) -> (b: Vec<u8>)
    requires
        v is Uint || v is Int,
    ensures
        match v@ {
            ValueView::Uint(n) => b@ == if big_endian { be_bytes(n as nat) } else { le_bytes(n as nat) },
            ValueView::Int(n) => b@ == if big_endian { be_bytes((n as u64) as nat) } else { le_bytes((n as u64) as nat) },
            _ => false,
        },
{
    match v {
        Value::Uint(n) => if big_endian { write_u64_be(*n) } else { write_u64_le(*n) },
        Value::Int(n) => if big_endian { write_i64_be(*n) } else { write_i64_le(*n) },
        _ => Vec::new(),
    }
}


/// Whether encoding's `encoding_from_whatwg_label` knows `label`.
pub uninterp spec fn whatwg_label_known(label: Seq<char>) -> bool;

/// What encoding `text` with the encoding labelled `label` gives: nothing for an unknown
/// label, else the bytes or the encoder's complaint.
pub uninterp spec fn whatwg_encoded(label: Seq<char>, text: Seq<char>) -> Option<Result<Seq<u8>, Seq<char>>>;

/// The WHATWG labels of UTF-8.
pub open spec fn is_utf8_label(label: Seq<char>) -> bool {
    label == "utf-8"@ || label == "utf8"@ || label == "unicode-1-1-utf-8"@
}

/// encoding's `encoding_from_whatwg_label(label).is_some()`. The UTF-8 labels are known.
#[verifier::external_body]
fn label_known(label: &str) -> (b: bool)
    ensures
        b == whatwg_label_known(label@),
        is_utf8_label(label@) ==> b,
{
    encoding::label::encoding_from_whatwg_label(label).is_some()
}

/// What encoding a text gives: nothing for an unknown encoding, else the bytes or a complaint.
pub type Encoded = Option<Result<Vec<u8>, String>>;

/// The content of an encoding result.
pub open spec fn encoded_view(r: Encoded) -> Option<Result<Seq<u8>, Seq<char>>> {
    match r {
        None => None,
        Some(Ok(b)) => Some(Ok(b@)),
        Some(Err(m)) => Some(Err(m@)),
    }
}

/// encoding's `encoding_from_whatwg_label(label)`, then `encode(text, EncoderTrap::Strict)`
/// with the encoding found. A label is found exactly when it is known; UTF-8 encodes a text
/// as its UTF-8 bytes.
#[verifier::external_body]
fn encode_labelled(label: &str, text: &str) -> (r: Encoded)
    ensures
        encoded_view(r) == whatwg_encoded(label@, text@),
        r is Some <==> whatwg_label_known(label@),
        is_utf8_label(label@) ==> encoded_view(r) == Some(Ok::<Seq<u8>, Seq<char>>(vstd::utf8::encode_utf8(text@))),
{
    match encoding::label::encoding_from_whatwg_label(label) {
        Some(enc) => Some(enc.encode(text, encoding::EncoderTrap::Strict).map_err(|e| e.into_owned())),
        None => None,
    }
}

fn failure(message: String) -> (f: RuntimeFailure)
    ensures
        f.message@ == message@,
{
    RuntimeFailure { message }
}

/// The texts of `parts`, one after another.
pub open spec fn joined_parts(parts: Seq<&str>) -> Seq<char>
    decreases parts.len(),
{
    if parts.len() == 0 {
        Seq::empty()
    } else {
        joined_parts(parts.drop_last()) + parts.last()@
    }
}

fn text_of(parts: &[&str]) -> (s: String)
    ensures
        s@ == joined_parts(parts@),
{
    let mut out = String::new();
    let mut k: usize = 0;
    while k < parts.len()
        invariant
            0 <= k <= parts@.len(),
            out@ == joined_parts(parts@.take(k as int)),
        decreases parts@.len() - k,
    {
        assert(parts@.take(k as int + 1).drop_last() =~= parts@.take(k as int));
        out.append(parts[k]);
        k = k + 1;
    }
    assert(parts@.take(parts@.len() as int) =~= parts@);
    out
}

/// Appends the bytes `b` to `out`.
fn push_bytes(out: &mut Vec<u8>, b: &[u8])
    ensures
        final(out)@ == old(out)@ + b@,
{
    let ghost start = out@;
    let mut j: usize = 0;
    while j < b.len()
        invariant
            0 <= j <= b@.len(),
            out@ == start + b@.take(j as int),
        decreases b@.len() - j,
    {
        out.push(b[j]);
        j = j + 1;
        assert(out@ =~= start + b@.take(j as int));
    }
    assert(b@.take(b@.len() as int) =~= b@);
}

/// A copy of a binary.
pub fn copy_bytes(b: &Vec<u8>) -> (r: Vec<u8>)
    ensures
        r@ == b@,
{
    let mut out: Vec<u8> = Vec::new();
    push_bytes(&mut out, b.as_slice());
    assert(out@ =~= b@);
    out
}

/// The UTF-8 bytes of a string.
pub fn string_utf8(s: &str) -> (b: Vec<u8>)
    ensures
        b@ == vstd::utf8::encode_utf8(s@),
{
    let bytes = s.as_bytes();
    let mut out: Vec<u8> = Vec::new();
    push_bytes(&mut out, bytes);
    out
}


impl Runtime {
    /// Generates a value of node `i`; what it gives is a value the node can generate.
    #[verifier::rlimit(100)]
    pub fn gen(&mut self, i: usize, ctx: &mut ProgramContext) -> (r: Result<Value, RuntimeFailure>)
        requires
            old(self).wf(),
            i < old(self).node_views().len(),
        ensures
            final(self).wf(),
            final(self).same_program(old(self)),
            final(self).keeps_choices(old(self)),
            final(self).counters_kept_above(old(self), i as int),
            r matches Ok(v) ==> view_type(v@) == old(self).node_types()[i as int],
            r matches Ok(v) ==> gen_ok(upto(old(self).node_views(), i), v@),
            old(self).node_views()[i as int] matches NodeView::Sequence { values, wrapping } ==> {
                &&& final(self).counter(i as int) == old(self).counter(i as int).wrapping_add(1)
                &&& r matches Ok(v) ==> gen_ok(
                    upto(old(self).node_views(), values[sequence_position(old(self).counter(i as int) as int, values.len() as int, wrapping)]),
                    v@,
                )
            },
            old(self).node_views()[i as int] matches NodeView::StableSelect(os) ==> {
                &&& final(self).chosen_option(i as int) matches Some(c) && c < os.len()
                &&& r matches Ok(v) ==> gen_ok(upto(old(self).node_views(), os[final(self).chosen_option(i as int).unwrap() as int]), v@)
            },
            old(self).node_views()[i as int] is Memo && !old(self).value_reset(i as int) ==> (r matches Ok(v) ==> Some(v@) == old(self).memo_value(i as int)),
            old(self).node_views()[i as int] is Memo ==> (r matches Ok(v) ==> final(self).memo_value(i as int) == Some(v@) && !final(self).value_reset(i as int)),
            old(self).node_views()[i as int] is Env ==> (r matches Ok(v) ==> exists|k: int|
                0 <= k < final(ctx).env().len() && v@ == ValueView::String(#[trigger] final(ctx).env()[k].1@)),
            old(self).node_views()[i as int] matches NodeView::SelectFromFile { path, delimiter } ==> (r matches Ok(v) ==> exists|pth: Seq<char>, dl: Seq<char>|
                #![trigger drawn((pth, dl))]
                drawn((pth, dl)) && gen_ok(upto(old(self).node_views(), path), ValueView::String(pth))
                    && gen_ok(upto(old(self).node_views(), delimiter), ValueView::String(dl))
                    && v@ == ValueView::String(v@->String_0)
                    && region_read(*old(self), i as int, final(ctx).file_table(), pth, dl, v@->String_0)),
            old(self).node_views()[i as int] is Words ==> (r matches Ok(v) ==> v@ == ValueView::String(v@->String_0) && region_read(
                *old(self),
                i as int,
                final(ctx).file_table(),
                words_path(final(ctx).file_table()),
                seq!['\n'],
                v@->String_0,
            )),
            old(self).node_views()[i as int] matches NodeView::StringBytes { encoding, string } ==> (r is Err ==> !infallible(
                old(self).node_views(),
                encoding as int,
            ) || !infallible(old(self).node_views(), string as int) || encoding_refused(old(self).node_views(), encoding, string)),
            old(self).node_views()[i as int] matches NodeView::Traced { name, source_ref, .. } ==> (r is Err ==> recorded_call(
                *final(ctx),
                name,
                source_ref,
            )),
            infallible(old(self).node_views(), i as int) ==> r is Ok,
        decreases i, 3nat,
    {
        let ghost views = self.node_views();
        let ghost types = self.node_types();
        let ghost p = upto(views, i);
        proof {
            assert(node_ok(views, types, i as int));
            assert(views[i as int] == self.nodes@[i as int]@);
            self.lemma_wf();
        }
        let t = self.types[i];
        let node = self.nodes[i].copy();
        match node {
            Node::Const(v) => Ok(v),
            Node::Concat(ps) => {
                if t == GenType::Bin {
                    let b = self.concat_values(i, &ps, ctx)?;
                    Ok(Value::Bin(b))
                } else {
                    let mut out: Vec<char> = Vec::new();
                    self.concat_text(i, &ps, ctx, &mut out)?;
                    assert(out@.skip(0) =~= out@);
                    proof {
                        lemma_text_is_string_value(p, out@);
                    }
                    Ok(Value::String(string_from_chars(out.as_slice())))
                }
            },
            Node::RepeatDelimited { count, prefix, repeated, delimiter, suffix } => {
                if t == GenType::Bin {
                    let mut buf: Vec<u8> = Vec::new();
                    self.repeat_bytes(i, count, prefix, repeated, delimiter, suffix, ctx, &mut buf)?;
                    assert(buf@.skip(0) =~= buf@);
                    proof {
                        lemma_repeat_value_ok(p, ValueView::Bin(buf@));
                    }
                    Ok(Value::Bin(buf))
                } else {
                    let mut out: Vec<char> = Vec::new();
                    self.repeat_text(i, count, prefix, repeated, delimiter, suffix, ctx, &mut out)?;
                    assert(out@.skip(0) =~= out@);
                    proof {
                        lemma_repeat_value_ok(p, ValueView::String(out@));
                    }
                    Ok(Value::String(string_from_chars(out.as_slice())))
                }
            },
            Node::Select(os) => {
                let k = ctx.gen_index(os.len());
                let r = self.gen(os[k], ctx);
                proof {
                    assert(r matches Ok(v) ==> gen_ok(upto(p, os@[k as int]), v@));
                }
                r
            },
            Node::StableSelect(os) => {
                let k = self.stable_choice(i, os.len(), ctx);
                let ghost mid = *self;
                let r = self.gen(os[k], ctx);
                proof {
                    Runtime::lemma_keeps_trans(self, &mid, old(self));
                    Runtime::lemma_counters_trans(self, &mid, old(self), i as int);
                    assert(r matches Ok(v) ==> gen_ok(upto(p, os@[k as int]), v@));
                }
                r
            },
            Node::Sequence { values, wrapping } => {
                let k = self.next_in_sequence(i, values.len(), wrapping);
                let ghost mid = *self;
                let r = self.gen(values[k], ctx);
                proof {
                    Runtime::lemma_keeps_trans(self, &mid, old(self));
                    Runtime::lemma_counters_trans(self, &mid, old(self), i as int);
                    assert(r matches Ok(v) ==> gen_ok(upto(p, values@[k as int]), v@));
                }
                r
            },
            Node::Memo(src) => {
                if self.resetters[i].value_reset {
                    let v = self.gen(src, ctx)?;
                    let ghost mid = *self;
                    let keep = v.copy();
                    self.memo_values.set(i, Some(keep));
                    let bytes_reset = self.resetters[i].bytes_reset;
                    self.resetters.set(i, Resetter { value_reset: false, bytes_reset });
                    assert(self.node_views() == views);
                    proof {
                        Runtime::lemma_keeps_same_chosen(self, &mid, old(self));
                        assert(mid.memo_ok(i as int));
                        assert(self.memo_values@[i as int] == Some(keep));
                        assert(self.resetters@[i as int].bytes_reset == mid.resetters@[i as int].bytes_reset);
                        assert(self.memo_ok(i as int));
                        Runtime::lemma_memo_update(self, &mid, i as int);
                        assert(self.counters@ == mid.counters@);
                        Runtime::lemma_counters_trans(self, &mid, old(self), i as int);
                    }
                    Ok(v)
                } else {
                    proof {
                        assert(self.memo_ok(i as int));
                    }
                    match &self.memo_values[i] {
                        Some(v) => Ok(v.copy()),
                        None => self.gen(src, ctx),
                    }
                }
            },
            Node::Mapped { memo, body } => {
                let ghost before = *self;
                self.resetters.set(memo, Resetter { value_reset: true, bytes_reset: true });
                assert(self.node_views() == views);
                proof {
                    assert(before.memo_ok(memo as int));
                    assert(self.memo_values@[memo as int] == before.memo_values@[memo as int]);
                    assert(self.memo_ok(memo as int));
                    Runtime::lemma_memo_update(self, &before, memo as int);
                }
                let ghost mid = *self;
                assert(mid.keeps_choices(old(self)));
                let r = self.gen(body, ctx);
                proof {
                    Runtime::lemma_keeps_trans(self, &mid, old(self));
                    Runtime::lemma_counters_trans(self, &mid, old(self), i as int);
                }
                r
            },
            Node::Traced(RuntimeWrapper { wrapped: inner, function_name: name, source_ref }) => {
                let r = self.gen(inner, ctx);
                match r {
                    Ok(v) => Ok(v),
                    Err(e) => {
                        ctx.error(&name, &source_ref, e.message.as_str());
                        Err(e)
                    },
                }
            },
            _ => self.gen_leaf(i, ctx),
        }
    }

    /// Generates a value of node `i`, which neither selects among nor wraps other nodes.
    #[verifier::rlimit(100)]
    fn gen_leaf(&mut self, i: usize, ctx: &mut ProgramContext) -> (r: Result<Value, RuntimeFailure>)
        requires
            old(self).wf(),
            i < old(self).node_views().len(),
            is_leaf(old(self).node_views()[i as int]),
        ensures
            final(self).wf(),
            final(self).same_program(old(self)),
            final(self).keeps_choices(old(self)),
            final(self).counters_kept_above(old(self), i as int),
            r matches Ok(v) ==> view_type(v@) == old(self).node_types()[i as int],
            r matches Ok(v) ==> gen_ok(upto(old(self).node_views(), i), v@),
            old(self).node_views()[i as int] is Env ==> (r matches Ok(v) ==> exists|k: int|
                0 <= k < final(ctx).env().len() && v@ == ValueView::String(#[trigger] final(ctx).env()[k].1@)),
            old(self).node_views()[i as int] matches NodeView::SelectFromFile { path, delimiter } ==> (r matches Ok(v) ==> exists|pth: Seq<char>, dl: Seq<char>|
                #![trigger drawn((pth, dl))]
                drawn((pth, dl)) && gen_ok(upto(old(self).node_views(), path), ValueView::String(pth))
                    && gen_ok(upto(old(self).node_views(), delimiter), ValueView::String(dl))
                    && v@ == ValueView::String(v@->String_0)
                    && region_read(*old(self), i as int, final(ctx).file_table(), pth, dl, v@->String_0)),
            old(self).node_views()[i as int] is Words ==> (r matches Ok(v) ==> v@ == ValueView::String(v@->String_0) && region_read(
                *old(self),
                i as int,
                final(ctx).file_table(),
                words_path(final(ctx).file_table()),
                seq!['\n'],
                v@->String_0,
            )),
            old(self).node_views()[i as int] matches NodeView::StringBytes { encoding, string } ==> (r is Err ==> !infallible(
                old(self).node_views(),
                encoding as int,
            ) || !infallible(old(self).node_views(), string as int) || encoding_refused(old(self).node_views(), encoding, string)),
            infallible(old(self).node_views(), i as int) ==> r is Ok,
        decreases i, 2nat,
    {
        let ghost views = self.node_views();
        let ghost types = self.node_types();
        let ghost p = upto(views, i);
        proof {
            assert(node_ok(views, types, i as int));
            assert(views[i as int] == self.nodes@[i as int]@);
            self.lemma_wf();
        }
        let node = self.nodes[i].copy();
        match node {
            Node::BinLength(b) => {
                let v = self.gen(b, ctx)?;
                match v {
                    Value::Bin(bytes) => {
                        assert(drawn(bytes@) && gen_ok(upto(views, b), ValueView::Bin(bytes@)));
                        Ok(Value::Uint(bytes.len() as u64))
                    },
                    _ => Ok(Value::Uint(0)),
                }
            },
            Node::StringLength(x) => {
                let v = self.gen(x, ctx)?;
                match v {
                    Value::String(st) => {
                        assert(drawn(st@) && gen_ok(upto(views, x), ValueView::String(st@)));
                        Ok(Value::Uint(string_utf8(st.as_str()).len() as u64))
                    },
                    _ => Ok(Value::Uint(0)),
                }
            },
            Node::ToBinary { number, big_endian } => {
                let v = self.gen(number, ctx)?;
                match v {
                    Value::Uint(n) => {
                        assert(drawn(n) && gen_ok(upto(views, number), ValueView::Uint(n)));
                        Ok(Value::Bin(number_bytes(&v, big_endian)))
                    },
                    Value::Int(n) => {
                        assert(drawn(n) && gen_ok(upto(views, number), ValueView::Int(n)));
                        Ok(Value::Bin(number_bytes(&v, big_endian)))
                    },
                    _ => Ok(Value::Bin(Vec::new())),
                }
            },
            Node::CharGen { min, max } => {
                let c = self.gen_char(i, min, max, ctx)?;
                proof {
                    assert(upto(p, min) == upto(views, min));
                    assert(upto(p, max) == upto(views, max));
                    lemma_char_gen_ok(p, min, max, c);
                }
                Ok(Value::Char(c))
            },
            Node::StringGen { length, min, max } => {
                let cs = self.gen_chars(i, length, min, max, ctx)?;
                Ok(Value::String(string_from_chars(cs.as_slice())))
            },
            Node::UintRange { min, max } => {
                let lo = self.gen_uint(min, ctx)?;
                let ghost mid = *self;
                let hi = self.gen_uint(max, ctx);
                proof {
                    Runtime::lemma_keeps_trans(self, &mid, old(self));
                    Runtime::lemma_counters_trans(self, &mid, old(self), i as int);
                }
                let hi = hi?;
                let x = ctx.gen_range_inclusive_u64(lo, hi);
                assert(drawn((lo, hi)) && gen_ok(upto(p, min), ValueView::Uint(lo)) && gen_ok(upto(p, max), ValueView::Uint(hi)));
                Ok(Value::Uint(x))
            },
            Node::IntRange { min, max } => {
                let lo = self.gen_int(min, ctx)?;
                let ghost mid = *self;
                let hi = self.gen_int(max, ctx);
                proof {
                    Runtime::lemma_keeps_trans(self, &mid, old(self));
                    Runtime::lemma_counters_trans(self, &mid, old(self), i as int);
                }
                let hi = hi?;
                let x = ctx.gen_range_inclusive_i64(lo, hi);
                assert(drawn((lo, hi)) && gen_ok(upto(p, min), ValueView::Int(lo)) && gen_ok(upto(p, max), ValueView::Int(hi)));
                Ok(Value::Int(x))
            },
            Node::ToString(a) => {
                let mut out: Vec<char> = Vec::new();
                self.emit_text(a, ctx, &mut out)?;
                assert(out@.skip(0) =~= out@);
                Ok(Value::String(string_from_chars(out.as_slice())))
            },
            Node::StringBytes { encoding, string } => {
                let label = self.gen_string(encoding, ctx)?;
                let ghost mid = *self;
                if !label_known(label.as_str()) {
                    assert(drawn((label@, label@)));
                    return Err(failure(text_of(&[
                        "Invalid encoding label: '",
                        label.as_str(),
                        "', encodings must be specified as a WHATWG label. See: https://encoding.spec.whatwg.org/#concept-encoding-get for more info",
                    ])));
                }
                let value = self.gen_string(string, ctx);
                proof {
                    Runtime::lemma_keeps_trans(self, &mid, old(self));
                    Runtime::lemma_counters_trans(self, &mid, old(self), i as int);
                }
                let value = value?;
                match encode_labelled(label.as_str(), value.as_str()) {
                    Some(Ok(b)) => {
                        assert(drawn((label@, value@)) && gen_ok(upto(p, encoding), ValueView::String(label@))
                            && gen_ok(upto(p, string), ValueView::String(value@)));
                        Ok(Value::Bin(b))
                    },
                    Some(Err(e)) => {
                        assert(drawn((label@, value@)));
                        Err(failure(text_of(&[
                        "Failed to encode the input using encoding: ",
                        label.as_str(),
                        " -- error: ",
                        e.as_str(),
                    ])))
                    },
                    None => Err(failure(text_of(&["Invalid encoding label: '", label.as_str(), "'"]))),
                }
            },
            Node::Env(key) => {
                let name = self.gen_string(key, ctx)?;
                match ctx.env_var(&name) {
                    Some(v) => Ok(Value::String(v)),
                    None => Err(failure(text_of(&["No such env variable: '", name.as_str(), "'"]))),
                }
            },
            Node::SelectFromFile { path, delimiter } => {
                let p = self.gen_string(path, ctx)?;
                let ghost mid = *self;
                let d = self.gen_string(delimiter, ctx);
                proof {
                    Runtime::lemma_keeps_trans(self, &mid, old(self));
                    Runtime::lemma_counters_trans(self, &mid, old(self), i as int);
                }
                let d = d?;
                let ghost mid2 = *self;
                let ghost pth = p@;
                let ghost dl = d@;
                assert(mid2.region_cache(i as int) == old(self).region_cache(i as int));
                let text = self.select_region(i, p, d, ctx);
                proof {
                    Runtime::lemma_keeps_trans(self, &mid2, old(self));
                    Runtime::lemma_counters_trans(self, &mid2, old(self), i as int);
                }
                let text = text?;
                proof {
                    lemma_region_read_same(mid2, *old(self), i as int, ctx.file_table(), pth, dl, text@);
                    assert(drawn((pth, dl)));
                }
                Ok(Value::String(text))
            },
            Node::Words => {
                let first = String::from_str("/usr/share/dict/words");
                let second = String::from_str("/usr/dict/words");
                let p = if ctx.find_file(&first).is_some() {
                    first
                } else if ctx.find_file(&second).is_some() {
                    second
                } else {
                    return Err(failure(String::from_str(
                        "Could not find a words file in the usual places: [\"/usr/share/dict/words\", \"/usr/dict/words\"] Try using `select_from_file(String, String)` instead",
                    )));
                };
                let nl = String::from_str("\n");
                proof {
                    reveal_strlit("\n");
                    assert(nl@ == seq!['\n']);
                }
                let ghost files = ctx.file_table();
                proof {
                    if has_file(files, "/usr/share/dict/words"@) {
                        let k = choose|k: int| 0 <= k < files.len() && (#[trigger] files[k]).0@ == "/usr/share/dict/words"@;
                        assert(files[k].0@ == first@);
                        assert(p@ == first@);
                    }
                    assert(p@ == words_path(files));
                }
                let text = self.select_region(i, p, nl, ctx)?;
                Ok(Value::String(text))
            },
            _ => {
                proof {
                    assert(false);
                }
                Err(failure(String::from_str("not a leaf node")))
            },
        }
    }

    /// The concatenated binaries that the parts `ps` of node `i` generate.
    fn concat_values(&mut self, i: usize, ps: &Vec<usize>, ctx: &mut ProgramContext) -> (r: Result<Vec<u8>, RuntimeFailure>)
        requires
            old(self).wf(),
            i < old(self).node_views().len(),
            old(self).node_views()[i as int] == NodeView::Concat(ps@),
            old(self).node_types()[i as int] == GenType::Bin,
        ensures
            final(self).wf(),
            final(self).same_program(old(self)),
            final(self).keeps_choices(old(self)),
            final(self).counters_kept_above(old(self), i as int),
            r matches Ok(b) ==> gen_ok(upto(old(self).node_views(), i), ValueView::Bin(b@)),
            infallible(old(self).node_views(), i as int) ==> r is Ok,
        decreases i, 1nat,
    {
        let ghost views = self.node_views();
        let ghost types = self.node_types();
        let ghost p = upto(views, i);
        proof {
            assert(node_ok(views, types, i as int));
        }
        let mut buf: Vec<u8> = Vec::new();
        let ghost mut parts: Seq<Seq<u8>> = Seq::empty();
        assert(infallible(views, i as int) ==> forall|m: int| 0 <= m < ps@.len() ==> #[trigger] infallible(views, ps@[m] as int));
        let mut k: usize = 0;
        while k < ps.len()
            invariant
                self.wf(),
                self.node_views() == views,
                self.node_types() == types,
                views == old(self).node_views(),
                types == old(self).node_types(),
                self.keeps_choices(old(self)),
                self.counters_kept_above(old(self), i as int),
                i < views.len(),
                p == upto(views, i),
                all_of_type(ps@, types, i as int, GenType::Bin),
                0 <= k <= ps@.len(),
                parts.len() == k,
                buf@ == parts.flatten(),
                forall|j: int| #![trigger parts[j]] 0 <= j < k ==> gen_ok(upto(views, ps@[j]), ValueView::Bin(parts[j])),
                infallible(views, i as int) ==> forall|m: int| 0 <= m < ps@.len() ==> #[trigger] infallible(views, ps@[m] as int),
            decreases ps@.len() - k,
        {
            let v = self.gen(ps[k], ctx)?;
            match v {
                Value::Bin(b) => {
                    push_bytes(&mut buf, b.as_slice());
                    proof {
                        parts.lemma_flatten_push(b@);
                        parts = parts.push(b@);
                    }
                },
                _ => {},
            }
            k = k + 1;
        }
        proof {
            assert forall|j: int| #![trigger ps@[j]] 0 <= j < ps@.len() implies child(p, ps@[j]) && gen_ok(upto(p, ps@[j]), ValueView::Bin(parts[j])) by {
                assert(upto(p, ps@[j]) == upto(views, ps@[j]));
                assert(gen_ok(upto(views, ps@[j]), ValueView::Bin(parts[j])));
            }
            lemma_concat_bin_ok(p, ps@, parts);
        }
        Ok(buf)
    }

    /// Writes the texts of the parts `ps` of node `i`, one after another.
    fn concat_text(&mut self, i: usize, ps: &Vec<usize>, ctx: &mut ProgramContext, out: &mut Vec<char>) -> (r: Result<(), RuntimeFailure>)
        requires
            old(self).wf(),
            i < old(self).node_views().len(),
            old(self).node_views()[i as int] == NodeView::Concat(ps@),
            is_text_type(old(self).node_types()[i as int]),
        ensures
            final(self).wf(),
            final(self).same_program(old(self)),
            final(self).keeps_choices(old(self)),
            final(self).counters_kept_above(old(self), i as int),
            r is Ok ==> final(out)@ == old(out)@ + final(out)@.skip(old(out)@.len() as int),
            r is Ok ==> text_ok(upto(old(self).node_views(), i), final(out)@.skip(old(out)@.len() as int)),
            infallible(old(self).node_views(), i as int) ==> r is Ok,
        decreases i, 1nat,
    {
        let ghost views = self.node_views();
        let ghost types = self.node_types();
        let ghost p = upto(views, i);
        let ghost start = out@;
        proof {
            assert(node_ok(views, types, i as int));
        }
        let ghost mut parts: Seq<Seq<char>> = Seq::empty();
        assert(infallible(views, i as int) ==> forall|m: int| 0 <= m < ps@.len() ==> #[trigger] infallible(views, ps@[m] as int));
        let mut k: usize = 0;
        while k < ps.len()
            invariant
                self.wf(),
                self.node_views() == views,
                self.node_types() == types,
                views == old(self).node_views(),
                types == old(self).node_types(),
                self.keeps_choices(old(self)),
                self.counters_kept_above(old(self), i as int),
                i < views.len(),
                p == upto(views, i),
                is_text_type(types[i as int]),
                all_of_type(ps@, types, i as int, types[i as int]),
                0 <= k <= ps@.len(),
                parts.len() == k,
                out@ == start + parts.flatten(),
                forall|j: int| #![trigger parts[j]] 0 <= j < k ==> text_ok(upto(views, ps@[j]), parts[j]),
                infallible(views, i as int) ==> forall|m: int| 0 <= m < ps@.len() ==> #[trigger] infallible(views, ps@[m] as int),
            decreases ps@.len() - k,
        {
            let ghost before = out@;
            self.emit_text(ps[k], ctx, out)?;
            proof {
                let d = out@.skip(before.len() as int);
                parts.lemma_flatten_push(d);
                parts = parts.push(d);
                assert(out@ =~= start + parts.flatten());
            }
            k = k + 1;
        }
        proof {
            assert(out@.skip(start.len() as int) =~= parts.flatten());
            assert forall|j: int| #![trigger ps@[j]] 0 <= j < ps@.len() implies child(p, ps@[j]) && text_ok(upto(p, ps@[j]), parts[j]) by {
                assert(upto(p, ps@[j]) == upto(views, ps@[j]));
                assert(text_ok(upto(views, ps@[j]), parts[j]));
            }
            lemma_concat_text_ok(p, ps@, parts);
        }
        Ok(())
    }

    /// The characters of a random string: as many as the value of `length`, each drawn
    /// between the values of `min` and `max`.
    fn gen_chars(&mut self, i: usize, length: usize, min: usize, max: usize, ctx: &mut ProgramContext) -> (r: Result<Vec<char>, RuntimeFailure>)
        requires
            old(self).wf(),
            i < old(self).node_views().len(),
            old(self).node_views()[i as int] == (NodeView::StringGen { length, min, max }),
        ensures
            final(self).wf(),
            final(self).same_program(old(self)),
            final(self).keeps_choices(old(self)),
            final(self).counters_kept_above(old(self), i as int),
            r matches Ok(cs) ==> gen_ok(upto(old(self).node_views(), i), ValueView::String(cs@)),
            r is Err ==> !infallible(old(self).node_views(), length as int) || !infallible(old(self).node_views(), min as int)
                || !infallible(old(self).node_views(), max as int) || bad_draw(old(self).node_views(), min, max),
        decreases i, 1nat,
    {
        let ghost views = self.node_views();
        let ghost types = self.node_types();
        let ghost p = upto(views, i);
        proof {
            assert(node_ok(views, types, i as int));
        }
        let n = self.gen_uint(length, ctx)?;
        let mut out: Vec<char> = Vec::new();
        let mut k: u64 = 0;
        while k < n
            invariant
                self.wf(),
                self.node_views() == views,
                self.node_types() == types,
                views == old(self).node_views(),
                types == old(self).node_types(),
                self.keeps_choices(old(self)),
                self.counters_kept_above(old(self), i as int),
                i < views.len(),
                min < i && types[min as int] == GenType::Uint,
                max < i && types[max as int] == GenType::Uint,
                0 <= k <= n,
                out@.len() == k,
                p == upto(views, i),
                views[i as int] == (NodeView::StringGen { length, min, max }),
                gen_ok(upto(views, length), ValueView::Uint(n)),
                forall|j: int| #![trigger out@[j]] 0 <= j < out@.len() ==> char_drawn(upto(views, min), upto(views, max), out@[j]),
            decreases n - k,
        {
            let c = self.gen_char(i, min, max, ctx)?;
            out.push(c);
            k = k + 1;
        }
        proof {
            assert(upto(p, min) == upto(views, min));
            assert(upto(p, max) == upto(views, max));
            assert(gen_ok(upto(p, length), ValueView::Uint(n)));
            assert(p.last() == views[i as int]);
            lemma_string_gen_ok(p, length, min, max, n, out@);
        }
        Ok(out)
    }
}


impl Runtime {
    /// Generates a `Uint` from node `j`.
    fn gen_uint(&mut self, j: usize, ctx: &mut ProgramContext) -> (r: Result<u64, RuntimeFailure>)
        requires
            old(self).wf(),
            j < old(self).node_views().len(),
            old(self).node_types()[j as int] == GenType::Uint,
        ensures
            final(self).wf(),
            final(self).same_program(old(self)),
            final(self).keeps_choices(old(self)),
            final(self).counters_kept_above(old(self), j as int),
            r matches Ok(n) ==> gen_ok(upto(old(self).node_views(), j), ValueView::Uint(n)),
            infallible(old(self).node_views(), j as int) ==> r is Ok,
        decreases j, 4nat,
    {
        match self.gen(j, ctx)? {
            Value::Uint(n) => Ok(n),
            _ => Ok(0),
        }
    }

    /// Generates an `Int` from node `j`.
    fn gen_int(&mut self, j: usize, ctx: &mut ProgramContext) -> (r: Result<i64, RuntimeFailure>)
        requires
            old(self).wf(),
            j < old(self).node_views().len(),
            old(self).node_types()[j as int] == GenType::Int,
        ensures
            final(self).wf(),
            final(self).same_program(old(self)),
            final(self).keeps_choices(old(self)),
            final(self).counters_kept_above(old(self), j as int),
            r matches Ok(n) ==> gen_ok(upto(old(self).node_views(), j), ValueView::Int(n)),
            infallible(old(self).node_views(), j as int) ==> r is Ok,
        decreases j, 4nat,
    {
        match self.gen(j, ctx)? {
            Value::Int(n) => Ok(n),
            _ => Ok(0),
        }
    }

    /// Generates a `String` from node `j`.
    fn gen_string(&mut self, j: usize, ctx: &mut ProgramContext) -> (r: Result<String, RuntimeFailure>)
        requires
            old(self).wf(),
            j < old(self).node_views().len(),
            old(self).node_types()[j as int] == GenType::String,
        ensures
            final(self).wf(),
            final(self).same_program(old(self)),
            final(self).keeps_choices(old(self)),
            final(self).counters_kept_above(old(self), j as int),
            r matches Ok(n) ==> gen_ok(upto(old(self).node_views(), j), ValueView::String(n@)),
            infallible(old(self).node_views(), j as int) ==> r is Ok,
        decreases j, 4nat,
    {
        match self.gen(j, ctx)? {
            Value::String(st) => Ok(st),
            _ => Ok(String::new()),
        }
    }

    /// A character whose code point is random between the values of `min` and `max`.
    fn gen_char(&mut self, i: usize, min: usize, max: usize, ctx: &mut ProgramContext) -> (r: Result<char, RuntimeFailure>)
        requires
            old(self).wf(),
            i < old(self).node_views().len(),
            min < i && old(self).node_types()[min as int] == GenType::Uint,
            max < i && old(self).node_types()[max as int] == GenType::Uint,
        ensures
            final(self).wf(),
            final(self).same_program(old(self)),
            final(self).keeps_choices(old(self)),
            final(self).counters_kept_above(old(self), i as int),
            r matches Ok(c) ==> char_drawn(upto(old(self).node_views(), min), upto(old(self).node_views(), max), c),
            r is Err ==> !infallible(old(self).node_views(), min as int) || !infallible(old(self).node_views(), max as int)
                || bad_draw(old(self).node_views(), min, max),
        decreases i, 0nat,
    {
        let lo = self.gen_uint(min, ctx)?;
        let hi = self.gen_uint(max, ctx)?;
        let v = ctx.gen_range_inclusive_u64(lo, hi);
        match char_from_u32(v as u32) {
            Some(c) => {
                assert(char_of_draw(c, v) && drawn((lo, hi, v)));
                Ok(c)
            },
            None => {
                assert(drawn((lo, hi, v)));
                assert(crate::outcome::between(v as int, lo as int, hi as int));
                let a = format_u64(v);
                let b = format_u64(lo);
                let c = format_u64(hi);
                Err(failure(text_of(&[
                    "Invalid unicode codepoint: ",
                    string_from_chars(a.as_slice()).as_str(),
                    ", generated from range: min_inclusive: ",
                    string_from_chars(b.as_slice()).as_str(),
                    ", max_inclusive: ",
                    string_from_chars(c.as_slice()).as_str(),
                ])))
            },
        }
    }

    /// The option a stable selection of `n` options has settled on, settling now if it has not.
    fn stable_choice(&mut self, i: usize, n: usize, ctx: &mut ProgramContext) -> (k: usize)
        requires
            old(self).wf(),
            i < old(self).node_views().len(),
            old(self).node_views()[i as int] matches NodeView::StableSelect(os) && os.len() == n,
        ensures
            final(self).wf(),
            final(self).same_program(old(self)),
            final(self).keeps_choices(old(self)),
            final(self).counters_kept_above(old(self), i as int),
            k < n,
            old(self).chosen_option(i as int) matches Some(c) ==> k == c,
            final(self).chosen_option(i as int) == Some(k),
    {
        proof {
            assert(node_ok(self.node_views(), self.node_types(), i as int));
        }
        match self.chosen[i] {
            Some(c) => c,
            None => {
                let ghost views = self.node_views();
                let ghost before = *self;
                let c = ctx.gen_index(n);
                self.chosen.set(i, Some(c));
                assert(self.node_views() == views);
                proof {
                    Runtime::lemma_memo_frame(self, &before);
                }
                c
            },
        }
    }

    /// The position of the option a sequence of `n` options gives now; counts the request.
    fn next_in_sequence(&mut self, i: usize, n: usize, wrapping: bool) -> (k: usize)
        requires
            old(self).wf(),
            i < old(self).node_views().len(),
            n > 0,
        ensures
            final(self).wf(),
            final(self).same_program(old(self)),
            final(self).keeps_choices(old(self)),
            final(self).counters_kept_above(old(self), i as int),
            k == sequence_position(old(self).counter(i as int) as int, n as int, wrapping),
            k < n,
            final(self).counter(i as int) == old(self).counter(i as int).wrapping_add(1),
    {
        let ghost views = self.node_views();
        let ghost before = *self;
        let c = self.counters[i];
        let k = sequence_index(c, n, wrapping);
        self.counters.set(i, c.wrapping_add(1));
        assert(self.node_views() == views);
        proof {
            Runtime::lemma_memo_frame(self, &before);
        }
        k
    }
}


/// The words file that a words node reads: the first of the usual places that holds one.
pub open spec fn words_path(files: Seq<(String, Vec<u8>)>) -> Seq<char> {
    if has_file(files, "/usr/share/dict/words"@) {
        "/usr/share/dict/words"@
    } else {
        "/usr/dict/words"@
    }
}

/// Generating from node `i` of the nodes `p` cannot fail: neither it nor any node it draws on
/// reads the environment or a file, encodes text, or draws characters (whose code points may
/// not be characters).
pub open spec fn infallible(p: Seq<NodeView>, i: int) -> bool
    decreases i,
{
    0 <= i < p.len() && match p[i] {
        NodeView::Const(_) => true,
        NodeView::Concat(ps) => forall|k: int| 0 <= k < ps.len() ==> 0 <= #[trigger] ps[k] < i && infallible(p, ps[k] as int),
        NodeView::Select(ps) => forall|k: int| 0 <= k < ps.len() ==> 0 <= #[trigger] ps[k] < i && infallible(p, ps[k] as int),
        NodeView::StableSelect(ps) => forall|k: int| 0 <= k < ps.len() ==> 0 <= #[trigger] ps[k] < i && infallible(p, ps[k] as int),
        NodeView::Sequence { values, .. } => forall|k: int| 0 <= k < values.len() ==> 0 <= #[trigger] values[k] < i && infallible(p, values[k] as int),
        NodeView::RepeatDelimited { count, prefix, repeated, delimiter, suffix } => {
            &&& count < i && infallible(p, count as int)
            &&& prefix < i && infallible(p, prefix as int)
            &&& repeated < i && infallible(p, repeated as int)
            &&& delimiter < i && infallible(p, delimiter as int)
            &&& suffix < i && infallible(p, suffix as int)
        },
        NodeView::BinLength(c) => c < i && infallible(p, c as int),
        NodeView::StringLength(c) => c < i && infallible(p, c as int),
        NodeView::ToString(c) => c < i && infallible(p, c as int),
        NodeView::Memo(c) => c < i && infallible(p, c as int),
        NodeView::ToBinary { number, .. } => number < i && infallible(p, number as int),
        NodeView::UintRange { min, max } => min < i && infallible(p, min as int) && max < i && infallible(p, max as int),
        NodeView::IntRange { min, max } => min < i && infallible(p, min as int) && max < i && infallible(p, max as int),
        NodeView::Mapped { memo, body } => memo < i && infallible(p, memo as int) && body < i && infallible(p, body as int),
        NodeView::Traced { inner, .. } => inner < i && infallible(p, inner as int),
        _ => false,
    }
}

/// A code point drawn between values that nodes `min` and `max` can generate is not a character.
pub open spec fn bad_draw(p: Seq<NodeView>, min: usize, max: usize) -> bool {
    exists|lo: u64, hi: u64, v: u64|
        #![trigger drawn((lo, hi, v))]
        drawn((lo, hi, v)) && gen_ok(upto(p, min), ValueView::Uint(lo)) && gen_ok(upto(p, max), ValueView::Uint(hi))
            && crate::outcome::between(v as int, lo as int, hi as int) && !vstd::utf8::is_scalar(v as u32)
}

/// Encoding may fail for node `i` with the encoding node `encoding` and the string node
/// `string`: a label the first can generate is not a WHATWG label, or a text the second can
/// generate cannot be encoded with a label the first can generate.
pub open spec fn encoding_refused(p: Seq<NodeView>, encoding: usize, string: usize) -> bool {
    exists|label: Seq<char>, text: Seq<char>|
        #![trigger drawn((label, text))]
        drawn((label, text)) && gen_ok(upto(p, encoding), ValueView::String(label)) && (!whatwg_label_known(label) || (gen_ok(
            upto(p, string),
            ValueView::String(text),
        ) && whatwg_encoded(label, text) matches Some(Err(_))))
}

/// The context is unwinding from an error, and (at the default verbosity and above) its
/// innermost recorded call so far is `name` at `source_ref`.
pub open spec fn recorded_call(ctx: ProgramContext, name: Seq<char>, source_ref: SourceRef) -> bool {
    &&& ctx.unwinding()
    &&& ctx.pending_error() is Some
    &&& ctx.verbosity().level >= 2 ==> {
        let frames = ctx.pending_error().unwrap().stacktrace@;
        frames.len() > 0 && frames.last().function_name@ == name && frames.last().source_ref == source_ref
    }
}

/// File `k` is the first of `files` with the path `path`.
pub open spec fn first_file(files: Seq<(String, Vec<u8>)>, path: Seq<char>, k: int) -> bool {
    0 <= k < files.len() && files[k].0@ == path && forall|j: int| 0 <= j < k ==> (#[trigger] files[j]).0@ != path
}

/// Region `idx` of `content`, whose delimiters are at `offs` and `dlen` bytes long, cannot be
/// read as text: its bounds cannot be computed, lie outside the content, or hold no UTF-8 text.
pub open spec fn region_unreadable(content: Seq<u8>, offs: Seq<u64>, dlen: int, idx: int) -> bool {
    ||| (idx > 0 && offs[idx - 1] + dlen > u64::MAX)
    ||| match region_bounds_spec(offs, content.len() as int, dlen, idx) {
        None => true,
        Some((st, n)) => st + n > content.len() || !valid_utf8(content.subrange(st, st + n)),
    }
}

/// `t` is the text of region `idx` of `content`, whose delimiters are at `offs` and `dlen`
/// bytes long.
pub open spec fn region_text(content: Seq<u8>, offs: Seq<u64>, dlen: int, idx: int, t: Seq<char>) -> bool {
    match region_bounds_spec(offs, content.len() as int, dlen, idx) {
        None => false,
        Some((st, n)) => st + n <= content.len() && valid_utf8(content.subrange(st, st + n)) && t == decode_utf8(
            content.subrange(st, st + n),
        ),
    }
}

/// `t` is the text of one of the regions of the first file with the path `path`, split at
/// `delimiter` where node `i` of `rt` finds the delimiter.
pub open spec fn region_read(rt: Runtime, i: int, files: Seq<(String, Vec<u8>)>, path: Seq<char>, delimiter: Seq<char>, t: Seq<char>) -> bool {
    exists|k: int|
        #[trigger] first_file(files, path, k) && {
            let content = files[k].1@;
            let offs = rt.seen_offsets(i, path, delimiter, content);
            exists|idx: int| 0 <= idx <= offs.len() && #[trigger] region_text(
                content,
                offs,
                encode_utf8(delimiter).len() as int,
                idx,
                t,
            )
        }
}

/// What a node reads of a file depends on the runtime only through the delimiter positions
/// that the node keeps.
proof fn lemma_region_read_same(a: Runtime, b: Runtime, i: int, files: Seq<(String, Vec<u8>)>, path: Seq<char>, delimiter: Seq<char>, t: Seq<char>)
    requires
        a.region_cache(i) == b.region_cache(i),
        region_read(a, i, files, path, delimiter, t),
    ensures
        region_read(b, i, files, path, delimiter, t),
{
    let k = choose|k: int|
        #[trigger] first_file(files, path, k) && {
            let content = files[k].1@;
            let offs = a.seen_offsets(i, path, delimiter, content);
            exists|idx: int| 0 <= idx <= offs.len() && #[trigger] region_text(content, offs, encode_utf8(delimiter).len() as int, idx, t)
        };
    let content = files[k].1@;
    assert(a.seen_offsets(i, path, delimiter, content) == b.seen_offsets(i, path, delimiter, content));
}

/// Some file of `files` has the path `path`.
pub open spec fn has_file(files: Seq<(String, Vec<u8>)>, path: Seq<char>) -> bool {
    exists|k: int| 0 <= k < files.len() && (#[trigger] files[k]).0@ == path
}

/// Node `i` of `rt` may refuse to read a region of the file `path` split at `delimiter`: no
/// file has that path, the delimiter is empty, the first file with the path is too large, the
/// delimiter positions it uses are too many, or one of its regions (the one drawn) cannot be
/// read as text.
pub open spec fn region_refused(rt: Runtime, i: int, files: Seq<(String, Vec<u8>)>, path: Seq<char>, delimiter: Seq<char>) -> bool {
    ||| !has_file(files, path)
    ||| encode_utf8(delimiter).len() == 0
    ||| exists|k: int|
        #[trigger] first_file(files, path, k) && {
            let content = files[k].1@;
            let offs = rt.seen_offsets(i, path, delimiter, content);
            ||| content.len() >= u64::MAX
            ||| offs.len() >= usize::MAX - 1
            ||| exists|idx: int| 0 <= idx <= offs.len() && #[trigger] region_unreadable(
                content,
                offs,
                encode_utf8(delimiter).len() as int,
                idx,
            )
        }
}

/// A node that neither selects among nor wraps other nodes.
pub open spec fn is_leaf(n: NodeView) -> bool {
    !(n is Const || n is Concat || n is RepeatDelimited || n is Select || n is StableSelect || n is Sequence
        || n is Memo || n is Mapped || n is Traced)
}

/// The type `Bin`.
pub open spec fn is_bin(t: GenType) -> bool {
    t == GenType::Bin
}

/// A type whose values are written as text, and that the runtime can produce.
pub open spec fn is_text_type(t: GenType) -> bool {
    t != GenType::Bin && t != GenType::Decimal
}

impl Runtime {
    /// Writes `prefix`, then `count` times `repeated` separated by `delimiter`, then `suffix`.
    fn repeat_text(
        &mut self,
        i: usize,
        count: usize,
        prefix: usize,
        repeated: usize,
        delimiter: usize,
        suffix: usize,
        ctx: &mut ProgramContext,
        out: &mut Vec<char>,
    ) -> (r: Result<(), RuntimeFailure>)
        requires
            old(self).wf(),
            i < old(self).node_views().len(),
            old(self).node_views()[i as int] == (NodeView::RepeatDelimited { count, prefix, repeated, delimiter, suffix }),
            is_text_type(old(self).node_types()[i as int]),
        ensures
            final(self).wf(),
            final(self).same_program(old(self)),
            final(self).keeps_choices(old(self)),
            final(self).counters_kept_above(old(self), i as int),
            r is Ok ==> final(out)@ == old(out)@ + final(out)@.skip(old(out)@.len() as int),
            r is Ok ==> text_ok(upto(old(self).node_views(), i), final(out)@.skip(old(out)@.len() as int)),
            infallible(old(self).node_views(), i as int) ==> r is Ok,
        decreases i, 1nat,
    {
        let ghost views = self.node_views();
        let ghost types = self.node_types();
        let ghost p = upto(views, i);
        let ghost start = out@;
        proof {
            assert(node_ok(views, types, i as int));
        }
        let n = self.gen_uint(count, ctx)?;
        let ghost before_pre = out@;
        self.emit_text(prefix, ctx, out)?;
        let ghost pre = out@.skip(before_pre.len() as int);
        assert(out@ =~= start + pre);
        let ghost mut items: Seq<Seq<char>> = Seq::empty();
        let ghost mut delims: Seq<Seq<char>> = Seq::empty();
        let mut k: u64 = 0;
        assert(joined(items, delims) =~= Seq::<char>::empty());
        while k < n
            invariant
                self.wf(),
                self.node_views() == views,
                self.node_types() == types,
                views == old(self).node_views(),
                types == old(self).node_types(),
                self.keeps_choices(old(self)),
                self.counters_kept_above(old(self), i as int),
                i < views.len(),
                p == upto(views, i),
                views[i as int] == (NodeView::RepeatDelimited { count, prefix, repeated, delimiter, suffix }),
                repeated < i && is_text_type(types[repeated as int]),
                delimiter < i && is_text_type(types[delimiter as int]),
                gen_ok(upto(views, count), ValueView::Uint(n)),
                text_ok(upto(views, prefix), pre),
                0 <= k <= n,
                items.len() == k,
                delims.len() == k,
                out@ == start + pre + joined(items, delims),
                forall|j: int| #![trigger items[j]] 0 <= j < k ==> text_ok(upto(views, repeated), items[j]),
                forall|j: int| #![trigger delims[j]] 1 <= j < k ==> text_ok(upto(views, delimiter), delims[j]),
            decreases n - k,
        {
            let ghost before_d = out@;
            if k > 0 {
                self.emit_text(delimiter, ctx, out)?;
            }
            let ghost d = out@.skip(before_d.len() as int);
            let ghost before_x = out@;
            self.emit_text(repeated, ctx, out)?;
            let ghost x = out@.skip(before_x.len() as int);
            proof {
                lemma_joined_push(items, delims, d, x);
                if k == 0 {
                    assert(d =~= Seq::<char>::empty());
                }
                items = items.push(x);
                delims = delims.push(d);
                assert(out@ =~= start + pre + joined(items, delims));
                assert(items[k as int] == x);
                assert(delims[k as int] == d);
            }
            k = k + 1;
        }
        let ghost before_s = out@;
        self.emit_text(suffix, ctx, out)?;
        let ghost suf = out@.skip(before_s.len() as int);
        proof {
            assert(out@.skip(start.len() as int) =~= pre + joined(items, delims) + suf);
            assert(out@ =~= start + out@.skip(start.len() as int));
            lemma_repeat_text_ok(p, count, prefix, repeated, delimiter, suffix, n, pre, items, delims, suf);
        }
        Ok(())
    }

    /// Writes `prefix`, then `count` times `repeated` separated by `delimiter`, then `suffix`.
    fn repeat_bytes(
        &mut self,
        i: usize,
        count: usize,
        prefix: usize,
        repeated: usize,
        delimiter: usize,
        suffix: usize,
        ctx: &mut ProgramContext,
        out: &mut Vec<u8>,
    ) -> (r: Result<(), RuntimeFailure>)
        requires
            old(self).wf(),
            i < old(self).node_views().len(),
            old(self).node_views()[i as int] == (NodeView::RepeatDelimited { count, prefix, repeated, delimiter, suffix }),
            is_bin(old(self).node_types()[i as int]),
        ensures
            final(self).wf(),
            final(self).same_program(old(self)),
            final(self).keeps_choices(old(self)),
            final(self).counters_kept_above(old(self), i as int),
            r is Ok ==> final(out)@ == old(out)@ + final(out)@.skip(old(out)@.len() as int),
            r is Ok ==> bytes_ok(upto(old(self).node_views(), i), final(out)@.skip(old(out)@.len() as int)),
            infallible(old(self).node_views(), i as int) ==> r is Ok,
        decreases i, 1nat,
    {
        let ghost views = self.node_views();
        let ghost types = self.node_types();
        let ghost p = upto(views, i);
        let ghost start = out@;
        proof {
            assert(node_ok(views, types, i as int));
        }
        let n = self.gen_uint(count, ctx)?;
        let ghost before_pre = out@;
        self.emit_bytes(prefix, ctx, out)?;
        let ghost pre = out@.skip(before_pre.len() as int);
        assert(out@ =~= start + pre);
        let ghost mut items: Seq<Seq<u8>> = Seq::empty();
        let ghost mut delims: Seq<Seq<u8>> = Seq::empty();
        let mut k: u64 = 0;
        assert(joined(items, delims) =~= Seq::<u8>::empty());
        while k < n
            invariant
                self.wf(),
                self.node_views() == views,
                self.node_types() == types,
                views == old(self).node_views(),
                types == old(self).node_types(),
                self.keeps_choices(old(self)),
                self.counters_kept_above(old(self), i as int),
                i < views.len(),
                p == upto(views, i),
                views[i as int] == (NodeView::RepeatDelimited { count, prefix, repeated, delimiter, suffix }),
                repeated < i && is_bin(types[repeated as int]),
                delimiter < i && is_bin(types[delimiter as int]),
                gen_ok(upto(views, count), ValueView::Uint(n)),
                bytes_ok(upto(views, prefix), pre),
                0 <= k <= n,
                items.len() == k,
                delims.len() == k,
                out@ == start + pre + joined(items, delims),
                forall|j: int| #![trigger items[j]] 0 <= j < k ==> bytes_ok(upto(views, repeated), items[j]),
                forall|j: int| #![trigger delims[j]] 1 <= j < k ==> bytes_ok(upto(views, delimiter), delims[j]),
            decreases n - k,
        {
            let ghost before_d = out@;
            if k > 0 {
                self.emit_bytes(delimiter, ctx, out)?;
            }
            let ghost d = out@.skip(before_d.len() as int);
            let ghost before_x = out@;
            self.emit_bytes(repeated, ctx, out)?;
            let ghost x = out@.skip(before_x.len() as int);
            proof {
                lemma_joined_push(items, delims, d, x);
                if k == 0 {
                    assert(d =~= Seq::<u8>::empty());
                }
                items = items.push(x);
                delims = delims.push(d);
                assert(out@ =~= start + pre + joined(items, delims));
                assert(items[k as int] == x);
                assert(delims[k as int] == d);
            }
            k = k + 1;
        }
        let ghost before_s = out@;
        self.emit_bytes(suffix, ctx, out)?;
        let ghost suf = out@.skip(before_s.len() as int);
        proof {
            assert(out@.skip(start.len() as int) =~= pre + joined(items, delims) + suf);
            assert(out@ =~= start + out@.skip(start.len() as int));
            lemma_repeat_bytes_ok(p, count, prefix, repeated, delimiter, suffix, n, pre, items, delims, suf);
        }
        Ok(())
    }

    /// Writes the output of node `i`, whose type is not `Bin`, as text; what it writes is a text
    /// the node can write.
    #[verifier::rlimit(100)]
    pub fn emit_text(&mut self, i: usize, ctx: &mut ProgramContext, out: &mut Vec<char>) -> (r: Result<(), RuntimeFailure>)
        requires
            old(self).wf(),
            i < old(self).node_views().len(),
            is_text_type(old(self).node_types()[i as int]),
        ensures
            final(self).wf(),
            final(self).same_program(old(self)),
            final(self).keeps_choices(old(self)),
            final(self).counters_kept_above(old(self), i as int),
            r is Ok ==> final(out)@ == old(out)@ + final(out)@.skip(old(out)@.len() as int),
            r is Ok ==> text_ok(upto(old(self).node_views(), i), final(out)@.skip(old(out)@.len() as int)),
            ({
                let j = root(old(self).node_views(), i as int);
                old(self).node_views()[j] matches NodeView::Sequence { values, wrapping } ==> {
                    &&& final(self).counter(j) == old(self).counter(j).wrapping_add(1)
                    &&& r is Ok ==> text_ok(
                        upto(old(self).node_views(), values[sequence_position(old(self).counter(j) as int, values.len() as int, wrapping)]),
                        final(out)@.skip(old(out)@.len() as int),
                    )
                }
            }),
            ({
                let j = root(old(self).node_views(), i as int);
                old(self).node_views()[j] matches NodeView::StableSelect(os) ==> {
                    &&& final(self).chosen_option(j) matches Some(c) && c < os.len()
                    &&& r is Ok ==> text_ok(
                        upto(old(self).node_views(), os[final(self).chosen_option(j).unwrap() as int]),
                        final(out)@.skip(old(out)@.len() as int),
                    )
                }
            }),
            old(self).node_views()[i as int] is Memo && !old(self).output_reset(i as int) ==> (r is Ok ==> final(out)@.skip(
                old(out)@.len() as int,
            ) == old(self).memo_text_view(i as int)),
            old(self).node_views()[i as int] is Memo ==> (r is Ok ==> final(self).memo_text_view(i as int) == final(out)@.skip(
                old(out)@.len() as int,
            ) && !final(self).output_reset(i as int)),
            old(self).node_views()[i as int] matches NodeView::Traced { name, source_ref, .. } ==> (r is Err ==> recorded_call(
                *final(ctx),
                name,
                source_ref,
            )),
            infallible(old(self).node_views(), i as int) ==> r is Ok,
        decreases i, 4nat,
    {
        let ghost views = self.node_views();
        let ghost types = self.node_types();
        let ghost p = upto(views, i);
        let ghost start = out@;
        proof {
            assert(node_ok(views, types, i as int));
            assert(views[i as int] == self.nodes@[i as int]@);
        }
        let node = self.nodes[i].copy();
        match node {
            Node::Const(v) => {
                v.push_text(out);
                assert(out@.skip(start.len() as int) =~= view_text(v@));
                assert(out@ =~= start + out@.skip(start.len() as int));
                Ok(())
            },
            Node::Concat(ps) => self.concat_text(i, &ps, ctx, out),
            Node::RepeatDelimited { count, prefix, repeated, delimiter, suffix } => {
                self.repeat_text(i, count, prefix, repeated, delimiter, suffix, ctx, out)
            },
            Node::StringGen { length, min, max } => self.fill_chars(i, length, min, max, ctx, out),
            Node::Select(os) => {
                let k = ctx.gen_index(os.len());
                let r = self.emit_text(os[k], ctx, out);
                proof {
                    assert(r is Ok ==> text_ok(upto(p, os@[k as int]), out@.skip(start.len() as int)));
                }
                r
            },
            Node::StableSelect(os) => {
                let k = self.stable_choice(i, os.len(), ctx);
                let ghost mid = *self;
                let r = self.emit_text(os[k], ctx, out);
                proof {
                    Runtime::lemma_keeps_trans(self, &mid, old(self));
                    Runtime::lemma_counters_trans(self, &mid, old(self), i as int);
                    assert(r is Ok ==> text_ok(upto(p, os@[k as int]), out@.skip(start.len() as int)));
                }
                r
            },
            Node::Sequence { values, wrapping } => {
                let k = self.next_in_sequence(i, values.len(), wrapping);
                let ghost mid = *self;
                let r = self.emit_text(values[k], ctx, out);
                proof {
                    Runtime::lemma_keeps_trans(self, &mid, old(self));
                    Runtime::lemma_counters_trans(self, &mid, old(self), i as int);
                    assert(r is Ok ==> text_ok(upto(p, values@[k as int]), out@.skip(start.len() as int)));
                }
                r
            },
            Node::ToString(a) => {
                let r = self.emit_text(a, ctx, out);
                proof {
                    assert(r is Ok ==> text_ok(upto(p, a), out@.skip(start.len() as int)));
                }
                r
            },
            Node::Memo(src) => {
                if self.resetters[i].bytes_reset {
                    let mut buf: Vec<char> = Vec::new();
                    self.emit_text(src, ctx, &mut buf)?;
                    push_all(out, buf.as_slice());
                    assert(buf@.skip(0) =~= buf@);
                    let ghost mid = *self;
                    let ghost before = self.resetters@;
                    let ghost values_before = self.memo_values@;
                    let ghost kept = buf@;
                    self.memo_text.set(i, buf);
                    let value_reset = self.resetters[i].value_reset;
                    self.resetters.set(i, Resetter { value_reset, bytes_reset: false });
                    assert(self.node_views() == views);
                    proof {
                        Runtime::lemma_keeps_same_chosen(self, &mid, old(self));
                        assert forall|j: int| 0 <= j < self.nodes@.len() implies (!(#[trigger] self.resetters@[j]).value_reset
                            ==> self.memo_values@[j] is Some) by {
                            assert(self.memo_values@[j] == values_before[j]);
                            if j != i {
                                assert(self.resetters@[j] == before[j]);
                            } else {
                                assert(self.resetters@[j].value_reset == before[j].value_reset);
                            }
                        }
                        assert(mid.memo_ok(i as int));
                        assert(self.memo_text@[i as int]@ == kept);
                        assert(self.memo_ok(i as int));
                        Runtime::lemma_memo_update(self, &mid, i as int);
                        assert(self.counters@ == mid.counters@);
                        Runtime::lemma_counters_trans(self, &mid, old(self), i as int);
                        assert(out@.skip(start.len() as int) =~= kept);
                    }
                    Ok(())
                } else {
                    proof {
                        assert(self.memo_ok(i as int));
                    }
                    push_all(out, self.memo_text[i].as_slice());
                    assert(out@.skip(start.len() as int) =~= self.memo_text@[i as int]@);
                    Ok(())
                }
            },
            Node::Mapped { memo, body } => {
                let ghost before = *self;
                self.resetters.set(memo, Resetter { value_reset: true, bytes_reset: true });
                assert(self.node_views() == views);
                proof {
                    assert(before.memo_ok(memo as int));
                    assert(self.memo_values@[memo as int] == before.memo_values@[memo as int]);
                    assert(self.memo_ok(memo as int));
                    Runtime::lemma_memo_update(self, &before, memo as int);
                }
                let ghost mid = *self;
                assert(mid.keeps_choices(old(self)));
                let r = self.emit_text(body, ctx, out);
                proof {
                    Runtime::lemma_keeps_trans(self, &mid, old(self));
                    Runtime::lemma_counters_trans(self, &mid, old(self), i as int);
                    assert(r is Ok ==> text_ok(upto(p, body), out@.skip(start.len() as int)));
                }
                r
            },
            Node::Traced(RuntimeWrapper { wrapped: inner, function_name: name, source_ref }) => {
                let r = self.emit_text(inner, ctx, out);
                proof {
                    assert(r is Ok ==> text_ok(upto(p, inner), out@.skip(start.len() as int)));
                }
                match r {
                    Ok(()) => Ok(()),
                    Err(e) => {
                        ctx.error(&name, &source_ref, e.message.as_str());
                        Err(e)
                    },
                }
            },
            _ => {
                let v = self.gen(i, ctx)?;
                if v.get_type() != GenType::Bin {
                    v.push_text(out);
                }
                proof {
                    lemma_value_text_ok(p, v@);
                    assert(out@.skip(start.len() as int) =~= view_text(v@));
                    assert(out@ =~= start + out@.skip(start.len() as int));
                }
                Ok(())
            },
        }
    }

    /// Writes the output of node `i`, of type `Bin`, as bytes; what it writes is a binary the
    /// node can write.
    #[verifier::rlimit(100)]
    pub fn emit_bytes(&mut self, i: usize, ctx: &mut ProgramContext, out: &mut Vec<u8>) -> (r: Result<(), RuntimeFailure>)
        requires
            old(self).wf(),
            i < old(self).node_views().len(),
            is_bin(old(self).node_types()[i as int]),
        ensures
            final(self).wf(),
            final(self).same_program(old(self)),
            final(self).keeps_choices(old(self)),
            final(self).counters_kept_above(old(self), i as int),
            r is Ok ==> final(out)@ == old(out)@ + final(out)@.skip(old(out)@.len() as int),
            r is Ok ==> bytes_ok(upto(old(self).node_views(), i), final(out)@.skip(old(out)@.len() as int)),
            ({
                let j = root(old(self).node_views(), i as int);
                old(self).node_views()[j] matches NodeView::Sequence { values, wrapping } ==> {
                    &&& final(self).counter(j) == old(self).counter(j).wrapping_add(1)
                    &&& r is Ok ==> bytes_ok(
                        upto(old(self).node_views(), values[sequence_position(old(self).counter(j) as int, values.len() as int, wrapping)]),
                        final(out)@.skip(old(out)@.len() as int),
                    )
                }
            }),
            ({
                let j = root(old(self).node_views(), i as int);
                old(self).node_views()[j] matches NodeView::StableSelect(os) ==> {
                    &&& final(self).chosen_option(j) matches Some(c) && c < os.len()
                    &&& r is Ok ==> bytes_ok(
                        upto(old(self).node_views(), os[final(self).chosen_option(j).unwrap() as int]),
                        final(out)@.skip(old(out)@.len() as int),
                    )
                }
            }),
            old(self).node_views()[i as int] is Memo && !old(self).output_reset(i as int) ==> (r is Ok ==> final(out)@.skip(
                old(out)@.len() as int,
            ) == old(self).memo_bytes_view(i as int)),
            old(self).node_views()[i as int] is Memo ==> (r is Ok ==> final(self).memo_bytes_view(i as int) == final(out)@.skip(
                old(out)@.len() as int,
            ) && !final(self).output_reset(i as int)),
            old(self).node_views()[i as int] matches NodeView::Traced { name, source_ref, .. } ==> (r is Err ==> recorded_call(
                *final(ctx),
                name,
                source_ref,
            )),
            infallible(old(self).node_views(), i as int) ==> r is Ok,
        decreases i, 4nat,
    {
        let ghost views = self.node_views();
        let ghost types = self.node_types();
        let ghost p = upto(views, i);
        let ghost start = out@;
        proof {
            assert(node_ok(views, types, i as int));
            assert(views[i as int] == self.nodes@[i as int]@);
        }
        let node = self.nodes[i].copy();
        match node {
            Node::Concat(ps) => self.concat_bytes(i, &ps, ctx, out),
            Node::RepeatDelimited { count, prefix, repeated, delimiter, suffix } => {
                self.repeat_bytes(i, count, prefix, repeated, delimiter, suffix, ctx, out)
            },
            Node::Select(os) => {
                let k = ctx.gen_index(os.len());
                let r = self.emit_bytes(os[k], ctx, out);
                proof {
                    assert(r is Ok ==> bytes_ok(upto(p, os@[k as int]), out@.skip(start.len() as int)));
                }
                r
            },
            Node::StableSelect(os) => {
                let k = self.stable_choice(i, os.len(), ctx);
                let ghost mid = *self;
                let r = self.emit_bytes(os[k], ctx, out);
                proof {
                    Runtime::lemma_keeps_trans(self, &mid, old(self));
                    Runtime::lemma_counters_trans(self, &mid, old(self), i as int);
                    assert(r is Ok ==> bytes_ok(upto(p, os@[k as int]), out@.skip(start.len() as int)));
                }
                r
            },
            Node::Sequence { values, wrapping } => {
                let k = self.next_in_sequence(i, values.len(), wrapping);
                let ghost mid = *self;
                let r = self.emit_bytes(values[k], ctx, out);
                proof {
                    Runtime::lemma_keeps_trans(self, &mid, old(self));
                    Runtime::lemma_counters_trans(self, &mid, old(self), i as int);
                    assert(r is Ok ==> bytes_ok(upto(p, values@[k as int]), out@.skip(start.len() as int)));
                }
                r
            },
            Node::Memo(src) => {
                if self.resetters[i].bytes_reset {
                    let mut buf: Vec<u8> = Vec::new();
                    self.emit_bytes(src, ctx, &mut buf)?;
                    push_bytes(out, buf.as_slice());
                    assert(buf@.skip(0) =~= buf@);
                    let ghost mid = *self;
                    let ghost before = self.resetters@;
                    let ghost values_before = self.memo_values@;
                    let ghost kept = buf@;
                    self.memo_bytes.set(i, buf);
                    let value_reset = self.resetters[i].value_reset;
                    self.resetters.set(i, Resetter { value_reset, bytes_reset: false });
                    assert(self.node_views() == views);
                    proof {
                        Runtime::lemma_keeps_same_chosen(self, &mid, old(self));
                        assert forall|j: int| 0 <= j < self.nodes@.len() implies (!(#[trigger] self.resetters@[j]).value_reset
                            ==> self.memo_values@[j] is Some) by {
                            assert(self.memo_values@[j] == values_before[j]);
                            if j != i {
                                assert(self.resetters@[j] == before[j]);
                            } else {
                                assert(self.resetters@[j].value_reset == before[j].value_reset);
                            }
                        }
                        assert(mid.memo_ok(i as int));
                        assert(self.memo_bytes@[i as int]@ == kept);
                        assert(self.memo_ok(i as int));
                        Runtime::lemma_memo_update(self, &mid, i as int);
                        assert(self.counters@ == mid.counters@);
                        Runtime::lemma_counters_trans(self, &mid, old(self), i as int);
                        assert(out@.skip(start.len() as int) =~= kept);
                    }
                    Ok(())
                } else {
                    proof {
                        assert(self.memo_ok(i as int));
                    }
                    push_bytes(out, self.memo_bytes[i].as_slice());
                    assert(out@.skip(start.len() as int) =~= self.memo_bytes@[i as int]@);
                    Ok(())
                }
            },
            Node::Mapped { memo, body } => {
                let ghost before = *self;
                self.resetters.set(memo, Resetter { value_reset: true, bytes_reset: true });
                assert(self.node_views() == views);
                proof {
                    assert(before.memo_ok(memo as int));
                    assert(self.memo_values@[memo as int] == before.memo_values@[memo as int]);
                    assert(self.memo_ok(memo as int));
                    Runtime::lemma_memo_update(self, &before, memo as int);
                }
                let ghost mid = *self;
                assert(mid.keeps_choices(old(self)));
                let r = self.emit_bytes(body, ctx, out);
                proof {
                    Runtime::lemma_keeps_trans(self, &mid, old(self));
                    Runtime::lemma_counters_trans(self, &mid, old(self), i as int);
                    assert(r is Ok ==> bytes_ok(upto(p, body), out@.skip(start.len() as int)));
                }
                r
            },
            Node::Traced(RuntimeWrapper { wrapped: inner, function_name: name, source_ref }) => {
                let r = self.emit_bytes(inner, ctx, out);
                proof {
                    assert(r is Ok ==> bytes_ok(upto(p, inner), out@.skip(start.len() as int)));
                }
                match r {
                    Ok(()) => Ok(()),
                    Err(e) => {
                        ctx.error(&name, &source_ref, e.message.as_str());
                        Err(e)
                    },
                }
            },
            _ => {
                let v = self.gen(i, ctx)?;
                match v {
                    Value::Bin(b) => {
                        push_bytes(out, b.as_slice());
                        proof {
                            assert(out@.skip(start.len() as int) =~= b@);
                            assert(out@ =~= start + out@.skip(start.len() as int));
                        }
                    },
                    _ => {},
                }
                Ok(())
            },
        }
    }

    /// Writes the bytes of the parts `ps` of node `i`, one after another.
    fn concat_bytes(&mut self, i: usize, ps: &Vec<usize>, ctx: &mut ProgramContext, out: &mut Vec<u8>) -> (r: Result<(), RuntimeFailure>)
        requires
            old(self).wf(),
            i < old(self).node_views().len(),
            old(self).node_views()[i as int] == NodeView::Concat(ps@),
            is_bin(old(self).node_types()[i as int]),
        ensures
            final(self).wf(),
            final(self).same_program(old(self)),
            final(self).keeps_choices(old(self)),
            final(self).counters_kept_above(old(self), i as int),
            r is Ok ==> final(out)@ == old(out)@ + final(out)@.skip(old(out)@.len() as int),
            r is Ok ==> bytes_ok(upto(old(self).node_views(), i), final(out)@.skip(old(out)@.len() as int)),
            infallible(old(self).node_views(), i as int) ==> r is Ok,
        decreases i, 1nat,
    {
        let ghost views = self.node_views();
        let ghost types = self.node_types();
        let ghost p = upto(views, i);
        let ghost start = out@;
        proof {
            assert(node_ok(views, types, i as int));
        }
        let ghost mut parts: Seq<Seq<u8>> = Seq::empty();
        assert(infallible(views, i as int) ==> forall|m: int| 0 <= m < ps@.len() ==> #[trigger] infallible(views, ps@[m] as int));
        let mut k: usize = 0;
        while k < ps.len()
            invariant
                self.wf(),
                self.node_views() == views,
                self.node_types() == types,
                views == old(self).node_views(),
                types == old(self).node_types(),
                self.keeps_choices(old(self)),
                self.counters_kept_above(old(self), i as int),
                i < views.len(),
                p == upto(views, i),
                is_bin(types[i as int]),
                all_of_type(ps@, types, i as int, types[i as int]),
                0 <= k <= ps@.len(),
                parts.len() == k,
                out@ == start + parts.flatten(),
                forall|j: int| #![trigger parts[j]] 0 <= j < k ==> bytes_ok(upto(views, ps@[j]), parts[j]),
                infallible(views, i as int) ==> forall|m: int| 0 <= m < ps@.len() ==> #[trigger] infallible(views, ps@[m] as int),
            decreases ps@.len() - k,
        {
            let ghost before = out@;
            self.emit_bytes(ps[k], ctx, out)?;
            proof {
                let d = out@.skip(before.len() as int);
                parts.lemma_flatten_push(d);
                parts = parts.push(d);
                assert(out@ =~= start + parts.flatten());
            }
            k = k + 1;
        }
        proof {
            assert(out@.skip(start.len() as int) =~= parts.flatten());
            assert forall|j: int| #![trigger ps@[j]] 0 <= j < ps@.len() implies child(p, ps@[j]) && bytes_ok(upto(p, ps@[j]), parts[j]) by {
                assert(upto(p, ps@[j]) == upto(views, ps@[j]));
                assert(bytes_ok(upto(views, ps@[j]), parts[j]));
            }
            lemma_concat_bytes_ok(p, ps@, parts);
        }
        Ok(())
    }

    /// Writes random characters, as many as the value of `length`, each drawn between the values
    /// of `min` and `max`.
    fn fill_chars(&mut self, i: usize, length: usize, min: usize, max: usize, ctx: &mut ProgramContext, out: &mut Vec<char>) -> (r: Result<(), RuntimeFailure>)
        requires
            old(self).wf(),
            i < old(self).node_views().len(),
            old(self).node_views()[i as int] == (NodeView::StringGen { length, min, max }),
        ensures
            final(self).wf(),
            final(self).same_program(old(self)),
            final(self).keeps_choices(old(self)),
            final(self).counters_kept_above(old(self), i as int),
            r is Ok ==> final(out)@ == old(out)@ + final(out)@.skip(old(out)@.len() as int),
            r is Ok ==> text_ok(upto(old(self).node_views(), i), final(out)@.skip(old(out)@.len() as int)),
            r is Err ==> !infallible(old(self).node_views(), length as int) || !infallible(old(self).node_views(), min as int)
                || !infallible(old(self).node_views(), max as int) || bad_draw(old(self).node_views(), min, max),
        decreases i, 1nat,
    {
        let ghost views = self.node_views();
        let ghost types = self.node_types();
        let ghost p = upto(views, i);
        let ghost start = out@;
        proof {
            assert(node_ok(views, types, i as int));
        }
        let n = self.gen_uint(length, ctx)?;
        let mut k: u64 = 0;
        let ghost mut cs: Seq<char> = Seq::empty();
        assert(out@ =~= start + cs);
        while k < n
            invariant
                self.wf(),
                self.node_views() == views,
                self.node_types() == types,
                views == old(self).node_views(),
                types == old(self).node_types(),
                self.keeps_choices(old(self)),
                self.counters_kept_above(old(self), i as int),
                i < views.len(),
                p == upto(views, i),
                views[i as int] == (NodeView::StringGen { length, min, max }),
                length < i && min < i && max < i,
                types[min as int] == GenType::Uint && types[max as int] == GenType::Uint,
                gen_ok(upto(views, length), ValueView::Uint(n)),
                out@ == start + cs,
                k <= n,
                cs.len() == k,
                forall|j: int| #![trigger cs[j]] 0 <= j < cs.len() ==> char_drawn(upto(views, min), upto(views, max), cs[j]),
            decreases n - k,
        {
            let c = self.gen_char(i, min, max, ctx)?;
            out.push(c);
            proof {
                let cs2 = cs.push(c);
                assert(cs2[cs.len() as int] == c);
                cs = cs2;
                assert(out@ =~= start + cs);
            }
            k = k + 1;
        }
        proof {
            assert(out@.skip(start.len() as int) =~= cs);
            assert(upto(p, min) == upto(views, min));
            assert(upto(p, max) == upto(views, max));
            assert(upto(p, length) == upto(views, length));
            lemma_string_fill_ok(p, length, min, max, n, cs);
        }
        Ok(())
    }
}

/// Wraps node `any_function` as a call of `function_name` at `source_ref`: the new node
/// generates what the wrapped one does, and records the call when that fails.
pub fn wrap(rt: &mut Runtime, any_function: usize, function_name: IString, source_ref: SourceRef) -> (i: usize)
    requires
        old(rt).wf(),
        any_function < old(rt).node_views().len(),
        old(rt).node_views().len() < usize::MAX,
    ensures
        final(rt).wf(),
        final(rt).extends(old(rt)),
        i == old(rt).node_views().len(),
        final(rt).node_views().len() == i + 1,
        final(rt).node_types().len() == i + 1,
        final(rt).node_views()[i as int] == (NodeView::Traced { inner: any_function, name: function_name@, source_ref: source_ref }),
        final(rt).node_types()[i as int] == old(rt).node_types()[any_function as int],
{
    proof {
        rt.lemma_wf();
    }
    let t = rt.type_of(any_function);
    let ghost name = function_name@;
    let ghost sr = source_ref;
    rt.add(Node::Traced(RuntimeWrapper { wrapped: any_function, function_name, source_ref }), t)
}


impl Runtime {
    /// The delimiter positions of a file, from the cache of node `i` when it holds them for
    /// the same path and delimiter.
    fn offsets_for(&mut self, i: usize, path: &String, delimiter: &String, content: &Vec<u8>) -> (offsets: Vec<u64>)
        requires
            old(self).wf(),
            i < old(self).node_views().len(),
            content@.len() < u64::MAX,
        ensures
            final(self).wf(),
            final(self).same_program(old(self)),
            final(self).keeps_choices(old(self)),
            final(self).counters_kept_above(old(self), i as int),
            offsets@ == old(self).seen_offsets(i as int, path@, delimiter@, content@),
            final(self).region_cache(i as int) == Some((path@, delimiter@, offsets@)),
    {
        let ghost views = self.node_views();
        let cached = match &self.regions[i] {
            Some(c) => {
                if c.path == *path && c.delimiter == *delimiter {
                    Some(copy_offsets(&c.offsets))
                } else {
                    None
                }
            },
            None => None,
        };
        match cached {
            Some(o) => o,
            None => {
                let d = string_utf8(delimiter.as_str());
                let offsets = crate::files::find_region_offsets(content.as_slice(), d.as_slice());
                let ghost before = *self;
                self.regions.set(i, Some(RegionCache { path: path.clone(), delimiter: delimiter.clone(), offsets: copy_offsets(&offsets) }));
                assert(self.node_views() == views);
                proof {
                    Runtime::lemma_memo_frame(self, &before);
                }
                offsets
            },
        }
    }

    /// A random region of the file at `path`: the text between two occurrences of `delimiter`.
    fn select_region(&mut self, i: usize, path: String, delimiter: String, ctx: &mut ProgramContext) -> (r: Result<String, RuntimeFailure>)
        requires
            old(self).wf(),
            i < old(self).node_views().len(),
        ensures
            final(self).wf(),
            final(self).same_program(old(self)),
            final(self).keeps_choices(old(self)),
            final(self).counters_kept_above(old(self), i as int),
            final(ctx).file_table() == old(ctx).file_table(),
            r matches Ok(t) ==> region_read(*old(self), i as int, final(ctx).file_table(), path@, delimiter@, t@),
            r is Err ==> region_refused(*old(self), i as int, old(ctx).file_table(), path@, delimiter@),
    {
        let ghost files = ctx.file_table();
        let k = match ctx.find_file(&path) {
            Some(k) => k,
            None => {
                return Err(failure(text_of(&["No such file or directory: '", path.as_str(), "'"])));
            },
        };
        proof {
            assert(first_file(files, path@, k as int));
        }
        let dstr = delimiter.as_str();
        assert(dstr@ == delimiter@);
        assert(dstr.spec_bytes() == encode_utf8(delimiter@));
        let dbytes = dstr.as_bytes();
        if dbytes.len() == 0 {
            return Err(failure(String::from_str("The delimiter of a file's regions must not be empty")));
        }
        let file_len = ctx.file_bytes(k).len();
        if file_len as u64 >= u64::MAX {
            return Err(failure(String::from_str("The file is too large")));
        }
        let offsets = self.offsets_for(i, &path, &delimiter, ctx.file_bytes(k));
        if offsets.len() >= usize::MAX - 1 {
            return Err(failure(String::from_str("The file has too many regions")));
        }
        let idx = ctx.gen_range(0, offsets.len() + 1);
        let dlen = dbytes.len() as u64;
        let (start, n) = match crate::files::region_bounds(&offsets, file_len as u64, dlen, idx) {
            Some(b) => b,
            None => {
                proof {
                    assert(region_unreadable(files[k as int].1@, offsets@, encode_utf8(delimiter@).len() as int, idx as int));
                }
                return Err(failure(String::from_str("The regions of the file could not be read")));
            },
        };
        let k2 = match ctx.find_file(&path) {
            Some(k2) => k2,
            None => {
                return Err(failure(text_of(&["No such file or directory: '", path.as_str(), "'"])));
            },
        };
        proof {
            assert(first_file(files, path@, k2 as int));
            if k2 < k {
                assert(files[k2 as int].0@ != path@);
            }
            if k < k2 {
                assert(files[k as int].0@ != path@);
            }
            assert(k2 == k);
        }
        let bytes = ctx.file_bytes(k2);
        if start > bytes.len() as u64 || n > bytes.len() as u64 - start {
            proof {
                assert(region_unreadable(files[k as int].1@, offsets@, encode_utf8(delimiter@).len() as int, idx as int));
            }
            return Err(failure(String::from_str("The regions of the file could not be read")));
        }
        let region = crate::files::byte_range(bytes, start as usize, n as usize);
        match crate::files::utf8_text(region.as_slice()) {
            Some(t) => {
                proof {
                    let files = ctx.file_table();
                    assert(files[k2 as int].1@.subrange(start as int, start + n) == region@);
                    assert(decode_utf8(files[k2 as int].1@.subrange(start as int, start + n)) == t@);
                    assert(region_text(files[k2 as int].1@, offsets@, encode_utf8(delimiter@).len() as int, idx as int, t@));
                    assert(first_file(files, path@, k2 as int));
                }
                Ok(t)
            },
            None => {
                proof {
                    assert(files[k as int].1@.subrange(start as int, start + n) == region@);
                    assert(region_unreadable(files[k as int].1@, offsets@, encode_utf8(delimiter@).len() as int, idx as int));
                }
                Err(failure(String::from_str("invalid utf-8 sequence in the selected region of the file")))
            },
        }
    }
}

/// A copy of a list of positions.
fn copy_offsets(xs: &Vec<u64>) -> (r: Vec<u64>)
    ensures
        r@ == xs@,
{
    let mut r: Vec<u64> = Vec::new();
    let mut k: usize = 0;
    while k < xs.len()
        invariant
            0 <= k <= xs@.len(),
            r@ == xs@.take(k as int),
        decreases xs@.len() - k,
    {
        r.push(xs[k]);
        k = k + 1;
        assert(r@ =~= xs@.take(k as int));
    }
    assert(xs@.take(xs@.len() as int) =~= xs@);
    r
}

} // verus!
