//! The syntax tree of dgen programs, and the processing of string escapes and doc comments.

use vstd::prelude::*;
use vstd::string::StringExecFns;
use vstd::utf8::*;
use crate::text::{all_hex, chars_of, string_from_chars, byte_len, char_from_u32, char_width, hex_digit, hex_digit_value, hex_value, lemma_byte_len_take_step, utf8_width};

verus! {

/// Interned string type used for identifiers and string values.
pub type IString = String;

/// A region of the source text, as byte offsets `[start, end)`.
#[derive(Debug, PartialEq, Eq, Clone, Hash, Structural)]
pub struct Span {
    pub start: usize,
    pub end: usize,
}

/// The type of the values that a function generates.
#[derive(Debug, PartialEq, Eq, Copy, Clone, Hash, Structural)]
pub enum GenType {
    String,
    Uint,
    Int,
    Decimal,
    Boolean,
    Bin,
    Char,
}

/// The name under which a type is written in programs and messages.
pub open spec fn gen_type_name(t: GenType) -> Seq<char> {
    match t {
        GenType::String => "String"@,
        GenType::Uint => "Uint"@,
        GenType::Int => "Int"@,
        GenType::Decimal => "Decimal"@,
        GenType::Boolean => "Boolean"@,
        GenType::Bin => "Bin"@,
        GenType::Char => "Char"@,
    }
}

impl GenType {
    /// The name of the type as written in programs.
    pub fn display_name(&self) -> (name: &'static str)
        ensures
            name@ == gen_type_name(*self),
    {
        match *self {
            GenType::String => "String",
            GenType::Uint => "Uint",
            GenType::Int => "Int",
            GenType::Decimal => "Decimal",
            GenType::Boolean => "Boolean",
            GenType::Bin => "Bin",
            GenType::Char => "Char",
        }
    }
}

/// A call of a named function, with optional mapper.
#[derive(Debug, PartialEq)]
pub struct FunctionCall {
    pub function_name: IString,
    pub args: Vec<WithSpan<Expr>>,
    pub mapper: Option<Box<FunctionMapper>>,
}

/// `{ arg_name -> mapper_body }`: binds each generated value of the called function to `arg_name`.
#[derive(Debug, PartialEq)]
pub struct FunctionMapper {
    pub arg_name: IString,
    pub mapper_body: WithSpan<Expr>,
}

/// An expression. Decimal literals keep their source text (without a leading `+`).
#[derive(Debug, PartialEq)]
pub enum Expr {
    ArgumentUsage(IString),
    Function(FunctionCall),
    StringLiteral(IString),
    IntLiteral(u64),
    SignedIntLiteral(i64),
    DecimalLiteral(IString),
    BooleanLiteral(bool),
    BinaryLiteral(Vec<u8>),
    CharLiteral(char),
}

/// A value together with the region of source it came from.
#[derive(Debug, PartialEq)]
pub struct WithSpan<T> {
    pub span: Span,
    pub value: T,
}

/// A declared parameter of a user-defined function.
#[derive(Debug, Clone, PartialEq)]
pub struct MacroArgument {
    pub name: IString,
    pub arg_type: GenType,
}

/// `def name(args) = body;`
#[derive(Debug, PartialEq)]
pub struct MacroDef {
    pub doc_comments: String,
    pub name: IString,
    pub args: Vec<MacroArgument>,
    pub body: WithSpan<Expr>,
}

/// A whole program: function definitions, optionally followed by one expression.
#[derive(Debug, PartialEq)]
pub struct Program {
    pub assignments: Vec<WithSpan<MacroDef>>,
    pub expr: Option<WithSpan<Expr>>,
}

/// The ways a string literal's escapes can be malformed.
#[derive(Debug, Clone, Copy, PartialEq, Eq, Structural)]
pub enum EscapeError {
    Unfinished,
    InvalidEscape,
    InvalidUnicode,
}

/// The message that reports an escape error.
pub open spec fn escape_error_text(e: EscapeError) -> Seq<char> {
    match e {
        EscapeError::Unfinished => "Unfinished escape sequence"@,
        EscapeError::InvalidEscape => "invalid escape sequence"@,
        EscapeError::InvalidUnicode => "invalid unicode escape sequence"@,
    }
}

/// The character denoted by a one-character escape `\c`.
pub open spec fn simple_escape(c: char) -> Option<char> {
    if c == '\\' {
        Some('\\')
    } else if c == '"' {
        Some('"')
    } else if c == 't' {
        Some('\t')
    } else if c == 'n' {
        Some('\n')
    } else if c == 'r' {
        Some('\r')
    } else {
        None
    }
}

/// Index of the first `}` at or after `i`, or `s.len()` when there is none.
pub open spec fn first_close(s: Seq<char>, i: int) -> int
    decreases s.len() - i,
{
    if i >= s.len() {
        s.len() as int
    } else if s[i] == '}' {
        i
    } else {
        first_close(s, i + 1)
    }
}

pub proof fn lemma_first_close(s: Seq<char>, i: int)
    requires
        0 <= i <= s.len(),
    ensures
        i <= first_close(s, i) <= s.len(),
        first_close(s, i) < s.len() ==> s[first_close(s, i)] == '}',
        forall|k: int| i <= k < first_close(s, i) ==> s[k] != '}',
    decreases s.len() - i,
{
    if i < s.len() && s[i] != '}' {
        lemma_first_close(s, i + 1);
    }
}

/// Rust's `u32::from_str_radix(s, 16)` on the text between the braces of a unicode escape:
/// an optional `+`, then at least one hexadecimal digit.
pub open spec fn parse_hex_u32(s: Seq<char>) -> Option<nat> {
    let digits = if s.len() > 0 && s[0] == '+' { s.drop_first() } else { s };
    if digits.len() == 0 || !all_hex(digits) || hex_value(digits) > u32::MAX {
        None
    } else {
        Some(hex_value(digits))
    }
}

/// The escape `\u{...}` whose `{` is at `i`: the character and the index after the closing `}`.
pub open spec fn unicode_escape(s: Seq<char>, i: int) -> Option<(char, int)> {
    if i >= s.len() || s[i] != '{' {
        None
    } else {
        let k = first_close(s, i + 1);
        let body = s.subrange(i + 1, k);
        if k >= s.len() || byte_len(body) > 6 {
            None
        } else {
            match parse_hex_u32(body) {
                Some(v) => if is_scalar(v as u32) {
                    Some(((v as u32) as char, k + 1))
                } else {
                    None
                },
                None => None,
            }
        }
    }
}

/// The characters denoted by `s[i..]` when read as the body of a string literal.
pub open spec fn unescape_from(s: Seq<char>, i: int) -> Result<Seq<char>, EscapeError>
    decreases s.len() - i,
{
    if i < 0 || i >= s.len() {
        Ok(Seq::empty())
    } else if s[i] != '\\' {
        match unescape_from(s, i + 1) {
            Ok(rest) => Ok(seq![s[i]] + rest),
            Err(e) => Err(e),
        }
    } else if i + 1 >= s.len() {
        Err(EscapeError::Unfinished)
    } else if s[i + 1] == 'u' || s[i + 1] == 'U' {
        match unicode_escape(s, i + 2) {
            Some((c, next)) => {
                proof {
                    if i + 2 < s.len() && s[i + 2] == '{' {
                        lemma_first_close(s, i + 3);
                    }
                }
                match unescape_from(s, next) {
                    Ok(rest) => Ok(seq![c] + rest),
                    Err(e) => Err(e),
                }
            },
            None => Err(EscapeError::InvalidUnicode),
        }
    } else {
        match simple_escape(s[i + 1]) {
            Some(c) => match unescape_from(s, i + 2) {
                Ok(rest) => Ok(seq![c] + rest),
                Err(e) => Err(e),
            },
            None => Err(EscapeError::InvalidEscape),
        }
    }
}

/// The characters denoted by a string literal's body `s`.
pub open spec fn unescape(s: Seq<char>) -> Result<Seq<char>, EscapeError> {
    unescape_from(s, 0)
}

/// The way a character is written in a string literal: a backslash, a double quote, a tab,
/// a newline or a carriage return by its escape, any other character as itself.
pub open spec fn escaped_char(c: char) -> Seq<char> {
    if c == '\\' {
        seq!['\\', '\\']
    } else if c == '"' {
        seq!['\\', '"']
    } else if c == '\t' {
        seq!['\\', 't']
    } else if c == '\n' {
        seq!['\\', 'n']
    } else if c == '\r' {
        seq!['\\', 'r']
    } else {
        seq![c]
    }
}

/// A text written as the body of a string literal, each character as [`escaped_char`] writes it.
pub open spec fn escaped(t: Seq<char>) -> Seq<char>
    decreases t.len(),
{
    if t.len() == 0 {
        Seq::empty()
    } else {
        escaped_char(t[0]) + escaped(t.drop_first())
    }
}

/// Reading back a text written with its escapes gives the text: from position `i` of `s` on,
/// where `s` holds the escaped text `t`, the characters denoted are `t`.
pub proof fn lemma_unescape_escaped_from(s: Seq<char>, i: int, t: Seq<char>)
    requires
        0 <= i <= s.len(),
        s.subrange(i, s.len() as int) == escaped(t),
    ensures
        unescape_from(s, i) == Ok::<Seq<char>, EscapeError>(t),
    decreases t.len(),
{
    if t.len() == 0 {
        assert(s.subrange(i, s.len() as int).len() == 0);
        assert(t =~= Seq::<char>::empty());
    } else {
        let c = t[0];
        let e = escaped_char(c);
        let rest = escaped(t.drop_first());
        let tail = s.subrange(i, s.len() as int);
        assert(tail == e + rest);
        assert(1 <= e.len() <= 2);
        assert(tail[0] == s[i] && (e + rest)[0] == e[0]);
        assert(s[i] == e[0]);
        if e.len() == 1 {
            assert(s.subrange(i + 1, s.len() as int) =~= tail.subrange(1, tail.len() as int));
            assert(tail.subrange(1, tail.len() as int) =~= rest);
            lemma_unescape_escaped_from(s, i + 1, t.drop_first());
            assert(s[i] == c && c != '\\');
            assert(unescape_from(s, i) == Ok::<Seq<char>, EscapeError>(seq![c] + t.drop_first()));
        } else {
            assert(tail[1] == s[i + 1] && (e + rest)[1] == e[1]);
            assert(s.subrange(i + 2, s.len() as int) =~= tail.subrange(2, tail.len() as int));
            assert(tail.subrange(2, tail.len() as int) =~= rest);
            lemma_unescape_escaped_from(s, i + 2, t.drop_first());
            assert(s[i] == '\\' && i + 1 < s.len());
            assert(s[i + 1] != 'u' && s[i + 1] != 'U');
            assert(simple_escape(s[i + 1]) == Some(c));
            assert(unescape_from(s, i) == Ok::<Seq<char>, EscapeError>(seq![c] + t.drop_first()));
        }
        assert(seq![c] + t.drop_first() =~= t);
    }
}

/// Writing a text with its escapes and reading the escapes back gives the text.
pub proof fn lemma_unescape_escaped(t: Seq<char>)
    ensures
        unescape(escaped(t)) == Ok::<Seq<char>, EscapeError>(t),
{
    let s = escaped(t);
    assert(s.subrange(0, s.len() as int) =~= s);
    lemma_unescape_escaped_from(s, 0, t);
}

/// A text without backslashes is read as itself.
pub proof fn lemma_unescape_plain(t: Seq<char>)
    requires
        forall|k: int| 0 <= k < t.len() ==> t[k] != '\\',
    ensures
        unescape(t) == Ok::<Seq<char>, EscapeError>(t),
    decreases t.len(),
{
    lemma_plain_from(t, 0);
    assert(t.subrange(0, t.len() as int) =~= t);
}

/// A text without backslashes is read as itself from any position on.
proof fn lemma_plain_from(t: Seq<char>, i: int)
    requires
        0 <= i <= t.len(),
        forall|k: int| 0 <= k < t.len() ==> t[k] != '\\',
    ensures
        unescape_from(t, i) == Ok::<Seq<char>, EscapeError>(t.subrange(i, t.len() as int)),
    decreases t.len() - i,
{
    if i < t.len() {
        lemma_plain_from(t, i + 1);
        assert(seq![t[i]] + t.subrange(i + 1, t.len() as int) =~= t.subrange(i, t.len() as int));
    } else {
        assert(t.subrange(i, t.len() as int) =~= Seq::<char>::empty());
    }
}

/// Reads the escape `\u{...}` whose `{` should be at `i` of `cs`.
pub fn read_unicode_escape(cs: &Vec<char>, i: usize) -> (r: Option<(char, usize)>)
    ensures
        match unicode_escape(cs@, i as int) {
            Some((c, next)) => r == Some((c, next as usize)),
            None => r is None,
        },
{
    if i >= cs.len() || cs[i] != '{' {
        return None;
    }
    proof {
        lemma_first_close(cs@, i + 1);
    }
    let mut k: usize = i + 1;
    let mut bytes: usize = 0;
    while k < cs.len() && cs[k] != '}'
        invariant
            i + 1 <= k <= cs@.len(),
            i < cs@.len(),
            cs@[i as int] == '{',
            first_close(cs@, i + 1) == first_close(cs@, k as int),
            bytes as nat == byte_len(cs@.subrange(i + 1, k as int)),
            bytes <= 6,
            k - (i + 1) <= bytes,
        decreases cs@.len() - k,
    {
        let w = char_width(cs[k]);
        proof {
            lemma_byte_len_subrange_step(cs@, i + 1, k as int);
        }
        if bytes + w > 6 {
            proof {
                lemma_first_close(cs@, k as int + 1);
                lemma_byte_len_subrange_mono(cs@, i + 1, k as int + 1, first_close(cs@, i + 1));
            }
            return None;
        }
        bytes = bytes + w;
        k = k + 1;
    }
    if k >= cs.len() {
        return None;
    }
    // body is cs[i+1..k]
    let mut start: usize = i + 1;
    if cs[start] == '+' {
        start = start + 1;
    }
    let ghost body = cs@.subrange(i + 1, k as int);
    let ghost digits = if body.len() > 0 && body[0] == '+' { body.drop_first() } else { body };
    assert(digits =~= cs@.subrange(start as int, k as int));
    if start >= k {
        return None;
    }
    let mut value: u64 = 0;
    let mut j: usize = start;
    #[verifier::loop_isolation(false)]
    while j < k
        invariant
            start <= j <= k,
            k < cs@.len(),
            start < k,
            k - start <= 6,
            all_hex(cs@.subrange(start as int, j as int)),
            value as nat == hex_value(cs@.subrange(start as int, j as int)),
            value < pow16((j - start) as nat),
        decreases k - j,
    {
        match hex_digit(cs[j]) {
            Some(d) => {
                proof {
                    let sub = cs@.subrange(start as int, j as int + 1);
                    assert(sub.drop_last() =~= cs@.subrange(start as int, j as int));
                    assert(sub.last() == cs@[j as int]);
                    assert(all_hex(sub)) by {
                        assert forall|t: int| 0 <= t < sub.len() implies (#[trigger] hex_digit_value(sub[t])) is Some by {
                            if t < sub.len() - 1 {
                                assert(sub[t] == cs@.subrange(start as int, j as int)[t]);
                            }
                        }
                    }
                    lemma_pow16_step((j - start) as nat);
                    lemma_pow16_bound((j - start) as nat);
                }
                value = value * 16 + d as u64;
                j = j + 1;
            },
            None => {
                proof {
                    assert(cs@.subrange(start as int, k as int)[j - start] == cs@[j as int]);
                    assert(hex_digit_value(cs@.subrange(start as int, k as int)[j - start]) is None);
                }
                return None;
            },
        }
    }
    proof {
        lemma_pow16_bound((k - start) as nat);
    }
    let v: u32 = value as u32;
    match char_from_u32(v) {
        Some(c) => {
            proof {
                vstd::utf8::char_u32_cast(c, v);
            }
            Some((c, k + 1))
        },
        None => None,
    }
}

/// `16^n`.
pub open spec fn pow16(n: nat) -> nat
    decreases n,
{
    if n == 0 {
        1
    } else {
        16 * pow16((n - 1) as nat)
    }
}

proof fn lemma_pow16_step(n: nat)
    ensures
        pow16(n + 1) == 16 * pow16(n),
{
}

proof fn lemma_pow16_bound(n: nat)
    requires
        n <= 6,
    ensures
        pow16(n) <= 16777216,
{
    reveal_with_fuel(pow16, 7);
    assert(pow16(0) == 1);
    assert(pow16(1) == 16);
    assert(pow16(2) == 256);
    assert(pow16(3) == 4096);
    assert(pow16(4) == 65536);
    assert(pow16(5) == 1048576);
    assert(pow16(6) == 16777216);
}

/// The byte length of `s[a..b+1]` is that of `s[a..b]` plus the width of `s[b]`.
pub proof fn lemma_byte_len_subrange_step(s: Seq<char>, a: int, b: int)
    requires
        0 <= a <= b < s.len(),
    ensures
        byte_len(s.subrange(a, b + 1)) == byte_len(s.subrange(a, b)) + utf8_width(s[b]),
{
    let t = s.subrange(a, b + 1);
    assert(t.take(b - a) =~= s.subrange(a, b));
    assert(t.take(b - a + 1) =~= t);
    lemma_byte_len_take_step(t, b - a);
}

/// Byte lengths of `s[a..b]` grow with `b`.
pub proof fn lemma_byte_len_subrange_mono(s: Seq<char>, a: int, b: int, c: int)
    requires
        0 <= a <= b <= c <= s.len(),
    ensures
        byte_len(s.subrange(a, b)) <= byte_len(s.subrange(a, c)),
    decreases c - b,
{
    if b < c {
        lemma_byte_len_subrange_mono(s, a, b, c - 1);
        lemma_byte_len_subrange_step(s, a, c - 1);
    }
}


/// `prefix` followed by the characters of `res`, or the error of `res`.
pub open spec fn prepend(prefix: Seq<char>, res: Result<Seq<char>, EscapeError>) -> Result<Seq<char>, EscapeError> {
    match res {
        Ok(r) => Ok(prefix + r),
        Err(e) => Err(e),
    }
}

proof fn lemma_prepend_push(out: Seq<char>, c: char, rest: Result<Seq<char>, EscapeError>)
    ensures
        prepend(out, prepend(seq![c], rest)) == prepend(out.push(c), rest),
{
    match rest {
        Ok(r) => {
            assert(out + (seq![c] + r) =~= out.push(c) + r);
        },
        Err(_) => {},
    }
}

/// Replaces the escape sequences of a string literal's body by the characters they denote.
pub fn unescape_chars(cs: &Vec<char>) -> (r: Result<Vec<char>, EscapeError>)
    ensures
        match unescape(cs@) {
            Ok(v) => r matches Ok(o) && o@ == v,
            Err(e) => r == Err::<Vec<char>, EscapeError>(e),
        },
{
    let mut out: Vec<char> = Vec::new();
    let mut i: usize = 0;
    assert(out@ + Seq::<char>::empty() =~= Seq::<char>::empty());
    proof {
        match unescape_from(cs@, 0) {
            Ok(r) => { assert(Seq::<char>::empty() + r =~= r); },
            Err(_) => {},
        }
    }
    while i < cs.len()
        invariant
            0 <= i <= cs@.len(),
            unescape(cs@) == prepend(out@, unescape_from(cs@, i as int)),
        decreases cs@.len() - i,
    {
        let c = cs[i];
        if c != '\\' {
            proof {
                lemma_prepend_push(out@, c, unescape_from(cs@, i + 1));
            }
            out.push(c);
            i = i + 1;
        } else if i + 1 >= cs.len() {
            return Err(EscapeError::Unfinished);
        } else {
            let e = cs[i + 1];
            if e == 'u' || e == 'U' {
                match read_unicode_escape(cs, i + 2) {
                    Some((u, next)) => {
                        proof {
                            lemma_first_close(cs@, i + 3);
                            lemma_prepend_push(out@, u, unescape_from(cs@, next as int));
                        }
                        out.push(u);
                        i = next;
                    },
                    None => {
                        return Err(EscapeError::InvalidUnicode);
                    },
                }
            } else {
                let simple: Option<char> = if e == '\\' {
                    Some('\\')
                } else if e == '"' {
                    Some('"')
                } else if e == 't' {
                    Some('\t')
                } else if e == 'n' {
                    Some('\n')
                } else if e == 'r' {
                    Some('\r')
                } else {
                    None
                };
                match simple {
                    Some(u) => {
                        proof {
                            lemma_prepend_push(out@, u, unescape_from(cs@, i + 2));
                        }
                        out.push(u);
                        i = i + 2;
                    },
                    None => {
                        return Err(EscapeError::InvalidEscape);
                    },
                }
            }
        }
    }
    assert(out@ + Seq::<char>::empty() =~= out@);
    Ok(out)
}

/// The message reporting an escape error.
pub fn escape_error_message(e: EscapeError) -> (m: &'static str)
    ensures
        m@ == escape_error_text(e),
{
    match e {
        EscapeError::Unfinished => "Unfinished escape sequence",
        EscapeError::InvalidEscape => "invalid escape sequence",
        EscapeError::InvalidUnicode => "invalid unicode escape sequence",
    }
}

/// Replaces the escape sequences (`\\`, `\"`, `\t`, `\n`, `\r`, `\u{..}`, `\U{..}`) of a
/// string literal's body by the characters they denote.
pub fn process_string_escapes(input: &str) -> (r: Result<IString, &'static str>)
    ensures
        match unescape(input@) {
            Ok(v) => r matches Ok(s) && s@ == v,
            Err(e) => r matches Err(m) && m@ == escape_error_text(e),
        },
{
    let cs = chars_of(input);
    match unescape_chars(&cs) {
        Ok(v) => Ok(string_from_chars(v.as_slice())),
        Err(e) => Err(escape_error_message(e)),
    }
}

/// The description of a user-defined function: its doc comment lines joined by newlines,
/// or `"user defined function"` when it has none.
pub fn process_doc_comments(raw_lines: Vec<String>) -> (doc: String)
    ensures
        raw_lines@.len() == 0 ==> doc@ == "user defined function"@,
        raw_lines@.len() > 0 ==> doc@ == join_lines(raw_lines@.map_values(|l: String| l@)),
{
    if raw_lines.len() == 0 {
        return String::from_str("user defined function");
    }
    let ghost views = raw_lines@.map_values(|l: String| l@);
    let mut doc = String::new();
    let mut i: usize = 0;
    while i < raw_lines.len()
        invariant
            0 <= i <= raw_lines@.len(),
            views == raw_lines@.map_values(|l: String| l@),
            doc@ == join_lines(views.take(i as int)),
        decreases raw_lines@.len() - i,
    {
        proof {
            assert(views.take(i as int + 1).drop_last() =~= views.take(i as int));
        }
        if i > 0 {
            doc.append("\n");
        }
        doc.append(raw_lines[i].as_str());
        i = i + 1;
    }
    assert(views.take(raw_lines@.len() as int) =~= views);
    doc
}

/// Lines joined with `\n` between them.
pub open spec fn join_lines(lines: Seq<Seq<char>>) -> Seq<char>
    decreases lines.len(),
{
    if lines.len() == 0 {
        Seq::empty()
    } else if lines.len() == 1 {
        lines[0]
    } else {
        join_lines(lines.drop_last()) + "\n"@ + lines.last()
    }
}

} // verus!
