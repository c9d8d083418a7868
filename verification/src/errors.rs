//! Locating and rendering the places in program text that errors point at.

use vstd::prelude::*;
use std::sync::Arc;
use crate::ast::{gen_type_name, GenType, IString, Span};
use crate::source::{description_of, module_name_of, Source};
use crate::text::{
    lemma_byte_len_take_step, lemma_byte_len_take_mono, utf8_width, char_width, byte_len, byte_offsets, chars_of, dec_digits, format_u64, pad_left, push_all, push_padded,
    string_from_chars,
};

verus! {

/// Number of `\n` characters of `cs` that begin before byte offset `loc`.
pub open spec fn newlines_before(cs: Seq<char>, loc: int) -> nat
    decreases cs.len(),
{
    if cs.len() == 0 {
        0
    } else {
        newlines_before(cs.drop_last(), loc) + (if cs.last() == '\n' && byte_len(cs.drop_last()) < loc {
            1nat
        } else {
            0nat
        })
    }
}

/// The first character index from `p` on whose byte offset is at least `loc`.
pub open spec fn char_index_of(cs: Seq<char>, loc: int, p: int) -> int
    decreases cs.len() - p,
{
    if p >= cs.len() || byte_len(cs.take(p)) >= loc {
        p
    } else {
        char_index_of(cs, loc, p + 1)
    }
}

/// `loc` is the byte offset of a character boundary of `cs`.
pub open spec fn is_boundary(cs: Seq<char>, loc: int) -> bool {
    exists|p: int| 0 <= p <= cs.len() && byte_len(#[trigger] cs.take(p)) == loc
}

/// Index of the first character of the line that contains character `p`.
pub open spec fn line_begin(cs: Seq<char>, p: int) -> int
    decreases p,
{
    if p <= 0 {
        0
    } else if cs[p - 1] == '\n' {
        p
    } else {
        line_begin(cs, p - 1)
    }
}

/// Index of the first `\n` or `\r` at or after `p`, or the length when there is none.
pub open spec fn line_stop(cs: Seq<char>, p: int) -> int
    decreases cs.len() - p,
{
    if p >= cs.len() {
        cs.len() as int
    } else if cs[p] == '\n' || cs[p] == '\r' {
        p
    } else {
        line_stop(cs, p + 1)
    }
}

/// How an error at byte offset `loc` of `cs` is shown: the line number and the line's text,
/// then a caret under the offending character.
pub open spec fn region_text(cs: Seq<char>, loc: int) -> Seq<char> {
    let p = char_index_of(cs, loc, 0);
    let b = line_begin(cs, p);
    let e = line_stop(cs, p);
    let caret_col = loc - byte_len(cs.take(b)) + 12;
    "line"@ + pad_left(dec_digits(1 + newlines_before(cs, loc)), 5) + "| "@ + cs.subrange(b, e)
        + "\n"@ + pad_left("^"@, caret_col as nat) + "\n"@
}

/// A position in a source text at which an error was found.
pub struct SourceErrRegion<'a> {
    source: &'a str,
    location_offset: usize,
}

impl<'a> SourceErrRegion<'a> {
    /// The text the position is in.
    pub closed spec fn text(&self) -> Seq<char> {
        self.source@
    }

    /// The byte offset of the position.
    pub closed spec fn offset(&self) -> int {
        self.location_offset as int
    }

    pub fn new(source: &'a str, location_offset: usize) -> (r: SourceErrRegion<'a>)
        ensures
            r.text() == source@,
            r.offset() == location_offset,
    {
        SourceErrRegion { source, location_offset }
    }

    /// The number of the line the position is on, counting from 1.
    pub fn get_line_number(&self) -> (n: usize)
        requires
            self.text().len() < usize::MAX,
        ensures
            n == 1 + newlines_before(self.text(), self.offset()),
    {
        let cs = chars_of(self.source);
        let bytes = self.source.as_bytes();
        let _nbytes = bytes.len();
        let offs = byte_offsets(&cs);
        let mut line: usize = 1;
        let mut k: usize = 0;
        while k < cs.len()
            invariant
                0 <= k <= cs@.len(),
                cs@ == self.text(),
                cs@.len() < usize::MAX,
                offs@.len() == cs@.len() + 1,
                forall|i: int| 0 <= i <= cs@.len() ==> offs@[i] as nat == byte_len(#[trigger] cs@.take(i)),
                line == 1 + newlines_before(cs@.take(k as int), self.offset()),
                line <= 1 + k,
            decreases cs@.len() - k,
        {
            proof {
                assert(cs@.take(k as int + 1).drop_last() =~= cs@.take(k as int));
            }
            if cs[k] == '\n' && offs[k] < self.location_offset {
                line = line + 1;
            }
            k = k + 1;
        }
        assert(cs@.take(cs@.len() as int) =~= cs@);
        line
    }

    /// The line the position is on, numbered, with a caret under the position.
    pub fn render(&self) -> (r: String)
        requires
            is_boundary(self.text(), self.offset()),
            self.text().len() < usize::MAX,
            self.offset() + 12 <= usize::MAX,
        ensures
            r@ == region_text(self.text(), self.offset()),
    {
        let cs = chars_of(self.source);
        let bytes = self.source.as_bytes();
        let _nbytes = bytes.len();
        let offs = byte_offsets(&cs);
        let loc = self.location_offset;
        let mut p: usize = 0;
        while p < cs.len() && offs[p] < loc
            invariant
                0 <= p <= cs@.len(),
                cs@ == self.text(),
                loc == self.offset(),
                offs@.len() == cs@.len() + 1,
                forall|i: int| 0 <= i <= cs@.len() ==> offs@[i] as nat == byte_len(#[trigger] cs@.take(i)),
                forall|i: int| 0 <= i < p ==> offs@[i] < loc,
                char_index_of(cs@, loc as int, p as int) == char_index_of(cs@, loc as int, 0),
            decreases cs@.len() - p,
        {
            p = p + 1;
        }
        proof {
            let q = choose|q: int| 0 <= q <= cs@.len() && byte_len(#[trigger] cs@.take(q)) == loc;
            if (p as int) < q {
                lemma_offsets_strict(cs@, p as int, q);
            }
            if q < p {
                lemma_offsets_strict(cs@, q, p as int);
                assert(offs@[q] < loc);
            }
            assert(offs@[q] == loc);
            assert(p as int == q);
        }
        let mut b: usize = p;
        while b > 0 && cs[b - 1] != '\n'
            invariant
                b <= p <= cs@.len(),
                line_begin(cs@, b as int) == line_begin(cs@, p as int),
            decreases b,
        {
            b = b - 1;
        }
        let mut e: usize = p;
        while e < cs.len() && cs[e] != '\n' && cs[e] != '\r'
            invariant
                p <= e <= cs@.len(),
                line_stop(cs@, e as int) == line_stop(cs@, p as int),
            decreases cs@.len() - e,
        {
            e = e + 1;
        }
        proof {
            lemma_byte_len_take_mono(cs@, b as int, p as int);
        }
        let caret_col = loc - offs[b] + 12;
        let line = self.get_line_number();
        let mut out: Vec<char> = Vec::new();
        push_all(&mut out, chars_of("line").as_slice());
        push_padded(&mut out, &format_u64(line as u64), 5);
        push_all(&mut out, chars_of("| ").as_slice());
        push_all(&mut out, &cs.as_slice()[b..e]);
        push_all(&mut out, chars_of("\n").as_slice());
        push_padded(&mut out, &chars_of("^"), caret_col);
        push_all(&mut out, chars_of("\n").as_slice());
        proof {
            assert(cs@.subrange(b as int, e as int) == cs@.subrange(b as int, e as int));
        }
        string_from_chars(out.as_slice())
    }
}

/// Offsets of distinct character positions differ, in the same order.
proof fn lemma_offsets_strict(cs: Seq<char>, i: int, j: int)
    requires
        0 <= i < j <= cs.len(),
    ensures
        byte_len(cs.take(i)) < byte_len(cs.take(j)),
    decreases j - i,
{
    lemma_byte_len_take_step(cs, j - 1);
    assert(utf8_width(cs[j - 1]) >= 1) by {
        vstd::utf8::char_is_scalar(cs[j - 1]);
    }
    if i < j - 1 {
        lemma_offsets_strict(cs, i, j - 1);
    }
}


/// A region of a source text: where a function was defined or called.
#[derive(Debug, PartialEq)]
pub struct SourceRef {
    pub source: Arc<Source>,
    pub span: Span,
}

/// The line that a region starts on, counting from 1.
pub open spec fn start_line(r: SourceRef) -> nat {
    1 + newlines_before(r.source.text_view(), r.span.start as int)
}

/// `<description>:<line>`: where a region starts.
pub open spec fn location_text(r: SourceRef) -> Seq<char> {
    description_of(r.source.origin()) + ":"@ + dec_digits(start_line(r))
}

/// A region is shown by where it starts, then its first line with a caret under its start.
pub open spec fn source_ref_text(r: SourceRef) -> Seq<char> {
    location_text(r) + "\n\n"@ + region_text(r.source.text_view(), r.span.start as int) + "\n"@
}

/// The source text is short enough for line numbers and columns to be counted.
pub open spec fn countable(r: SourceRef) -> bool {
    r.source.text_view().len() < usize::MAX
}

/// The region starts on a character boundary, so that its line can be shown.
pub open spec fn showable(r: SourceRef) -> bool {
    &&& countable(r)
    &&& is_boundary(r.source.text_view(), r.span.start as int)
    &&& r.span.start + 12 <= usize::MAX
}

impl Clone for SourceRef {
    fn clone(&self) -> (r: SourceRef)
        ensures
            r == *self,
    {
        SourceRef { source: self.source.clone(), span: Span { start: self.span.start, end: self.span.end } }
    }
}

impl SourceRef {
    pub fn new(source: Arc<Source>, span: Span) -> (r: SourceRef)
        ensures
            r.source == source,
            r.span == span,
    {
        SourceRef { source, span }
    }

    /// Whether the source text is short enough for line numbers to be counted.
    pub fn is_countable(&self) -> (b: bool)
        ensures
            b == countable(*self),
    {
        chars_of(self.source.text()).len() < usize::MAX
    }

    /// Whether the region's first line can be shown.
    pub fn is_showable(&self) -> (b: bool)
        ensures
            b == showable(*self),
    {
        let cs = chars_of(self.source.text());
        if cs.len() >= usize::MAX || self.span.start > usize::MAX - 12 {
            return false;
        }
        let bytes = self.source.text().as_bytes();
        let _n = bytes.len();
        let offs = byte_offsets(&cs);
        let mut p: usize = 0;
        while p <= cs.len()
            invariant
                offs@.len() == cs@.len() + 1,
                cs@ == self.source.text_view(),
                cs@.len() < usize::MAX,
                self.span.start + 12 <= usize::MAX,
                p <= cs@.len() + 1,
                forall|i: int| 0 <= i <= cs@.len() ==> offs@[i] as nat == byte_len(#[trigger] cs@.take(i)),
                forall|i: int| 0 <= i < p ==> byte_len(#[trigger] cs@.take(i)) != self.span.start,
            decreases cs@.len() + 1 - p,
        {
            if offs[p] == self.span.start {
                assert(byte_len(self.source.text_view().take(p as int)) == self.span.start);
                assert(is_boundary(self.source.text_view(), self.span.start as int));
                return true;
            }
            p = p + 1;
        }
        false
    }

    /// The line the region starts on.
    pub fn start_line_number(&self) -> (n: usize)
        requires
            countable(*self),
        ensures
            n == start_line(*self),
    {
        let region = SourceErrRegion::new(self.source.text(), self.span.start);
        region.get_line_number()
    }

    /// How the region's source is described.
    pub fn description(&self) -> (d: &str)
        ensures
            d@ == description_of(self.source.origin()),
    {
        self.source.description()
    }

    /// The name of the module the region's source defines.
    pub fn module_name(&self) -> (n: IString)
        ensures
            n@ == module_name_of(self.source.origin()),
    {
        self.source.module_name()
    }

    /// `<description>:<line>` of the region's start.
    pub fn location(&self) -> (t: Vec<char>)
        requires
            countable(*self),
        ensures
            t@ == location_text(*self),
    {
        let mut out = chars_of(self.description());
        push_all(&mut out, chars_of(":").as_slice());
        let line = self.start_line_number();
        push_all(&mut out, format_u64(line as u64).as_slice());
        out
    }

    /// The region as it is shown in error messages.
    pub fn render(&self) -> (t: String)
        requires
            showable(*self),
        ensures
            t@ == source_ref_text(*self),
    {
        let mut out = self.location();
        push_all(&mut out, chars_of("\n\n").as_slice());
        let region = SourceErrRegion::new(self.source.text(), self.span.start);
        let shown = region.render();
        push_all(&mut out, chars_of(shown.as_str()).as_slice());
        push_all(&mut out, chars_of("\n").as_slice());
        string_from_chars(out.as_slice())
    }
}

/// Where a function comes from: the interpreter itself, or a region of program text.
#[derive(Debug, PartialEq)]
pub enum ShortSourceDescription {
    Builtin,
    Interpreted(SourceRef),
}

pub open spec fn short_description_text(d: ShortSourceDescription) -> Seq<char> {
    match d {
        ShortSourceDescription::Builtin => "<builtin function>"@,
        ShortSourceDescription::Interpreted(r) => "at "@ + location_text(r),
    }
}

pub open spec fn short_countable(d: ShortSourceDescription) -> bool {
    d matches ShortSourceDescription::Interpreted(r) ==> countable(r)
}

impl ShortSourceDescription {
    pub fn from_source(maybe_source: Option<SourceRef>) -> (d: ShortSourceDescription)
        ensures
            match maybe_source {
                Some(r) => d == ShortSourceDescription::Interpreted(r),
                None => d == ShortSourceDescription::Builtin,
            },
    {
        match maybe_source {
            Some(r) => ShortSourceDescription::Interpreted(r),
            None => ShortSourceDescription::Builtin,
        }
    }

    pub fn render(&self) -> (t: Vec<char>)
        requires
            short_countable(*self),
        ensures
            t@ == short_description_text(*self),
    {
        match self {
            ShortSourceDescription::Builtin => chars_of("<builtin function>"),
            ShortSourceDescription::Interpreted(r) => {
                let mut out = chars_of("at ");
                push_all(&mut out, r.location().as_slice());
                out
            },
        }
    }
}

/// Type names separated by `, `.
pub open spec fn types_joined(ts: Seq<GenType>) -> Seq<char>
    decreases ts.len(),
{
    if ts.len() == 0 {
        Seq::empty()
    } else if ts.len() == 1 {
        gen_type_name(ts[0])
    } else {
        types_joined(ts.drop_last()) + ", "@ + gen_type_name(ts.last())
    }
}

/// Appends the names of `ts`, separated by `, `.
pub fn push_types(out: &mut Vec<char>, ts: &Vec<GenType>)
    ensures
        final(out)@ == old(out)@ + types_joined(ts@),
{
    let ghost start = out@;
    let mut k: usize = 0;
    while k < ts.len()
        invariant
            0 <= k <= ts@.len(),
            out@ == start + types_joined(ts@.take(k as int)),
        decreases ts@.len() - k,
    {
        proof {
            assert(ts@.take(k as int + 1).drop_last() =~= ts@.take(k as int));
        }
        if k > 0 {
            push_all(out, chars_of(", ").as_slice());
        }
        push_all(out, chars_of(ts[k].display_name()).as_slice());
        k = k + 1;
        assert(out@ =~= start + types_joined(ts@.take(k as int)));
    }
    assert(ts@.take(ts@.len() as int) =~= ts@);
}

/// A function's name and argument types, as shown in compile errors.
#[derive(Debug, PartialEq)]
pub struct ErrorFunctionSignature {
    pub function_name: IString,
    pub arg_types: Vec<GenType>,
    pub render_variadic: bool,
    pub source: Option<ShortSourceDescription>,
}

pub open spec fn signature_text(s: ErrorFunctionSignature) -> Seq<char> {
    let head = s.function_name@ + "("@ + types_joined(s.arg_types@) + (if s.render_variadic {
        "..."@
    } else {
        Seq::empty()
    }) + ")"@;
    match s.source {
        Some(d) => head + " - "@ + short_description_text(d),
        None => head,
    }
}

pub open spec fn signature_countable(s: ErrorFunctionSignature) -> bool {
    s.source matches Some(d) ==> short_countable(d)
}

impl ErrorFunctionSignature {
    /// `name(T1, T2...) - <where it is defined>`.
    pub fn render(&self) -> (t: Vec<char>)
        requires
            signature_countable(*self),
        ensures
            t@ == signature_text(*self),
    {
        let mut out = chars_of(self.function_name.as_str());
        push_all(&mut out, chars_of("(").as_slice());
        push_types(&mut out, &self.arg_types);
        if self.render_variadic {
            push_all(&mut out, chars_of("...").as_slice());
        }
        push_all(&mut out, chars_of(")").as_slice());
        match &self.source {
            Some(d) => {
                push_all(&mut out, chars_of(" - ").as_slice());
                push_all(&mut out, d.render().as_slice());
            },
            None => {},
        }
        proof {
            if !self.render_variadic {
                assert(out@ =~= signature_text(*self));
            }
        }
        out
    }
}

/// A call that matches two functions equally well.
#[derive(Debug, PartialEq)]
pub struct AmbiguousCall {
    pub called: ErrorFunctionSignature,
    pub option1: ErrorFunctionSignature,
    pub option2: ErrorFunctionSignature,
}

pub open spec fn ambiguous_text(c: AmbiguousCall) -> Seq<char> {
    "Called function: "@ + signature_text(c.called) + "\nOption A: "@ + signature_text(c.option1)
        + "\nOption B: "@ + signature_text(c.option2)
}

impl AmbiguousCall {
    pub fn render(&self) -> (t: Vec<char>)
        requires
            signature_countable(self.called),
            signature_countable(self.option1),
            signature_countable(self.option2),
        ensures
            t@ == ambiguous_text(*self),
    {
        let mut out = chars_of("Called function: ");
        push_all(&mut out, self.called.render().as_slice());
        push_all(&mut out, chars_of("\nOption A: ").as_slice());
        push_all(&mut out, self.option1.render().as_slice());
        push_all(&mut out, chars_of("\nOption B: ").as_slice());
        push_all(&mut out, self.option2.render().as_slice());
        out
    }
}

} // verus!
