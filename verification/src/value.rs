//! The values that generators produce, and the text they are written as.

use vstd::prelude::*;
use crate::ast::GenType;
use crate::text::{dec_digits, format_i64, format_u64, push_all, signed_digits};

verus! {

/// A generated value.
#[derive(Debug, PartialEq)]
pub enum Value {
    Boolean(bool),
    Uint(u64),
    Int(i64),
    Char(char),
    String(String),
    Bin(Vec<u8>),
}

/// The mathematical content of a [`Value`].
pub enum ValueView {
    Boolean(bool),
    Uint(u64),
    Int(i64),
    Char(char),
    String(Seq<char>),
    Bin(Seq<u8>),
}

impl View for Value {
    type V = ValueView;

    open spec fn view(&self) -> ValueView {
        match self {
            Value::Boolean(b) => ValueView::Boolean(*b),
            Value::Uint(n) => ValueView::Uint(*n),
            Value::Int(n) => ValueView::Int(*n),
            Value::Char(c) => ValueView::Char(*c),
            Value::String(s) => ValueView::String(s@),
            Value::Bin(b) => ValueView::Bin(b@),
        }
    }
}

/// The type of a value.
pub open spec fn view_type(v: ValueView) -> GenType {
    match v {
        ValueView::Boolean(_) => GenType::Boolean,
        ValueView::Uint(_) => GenType::Uint,
        ValueView::Int(_) => GenType::Int,
        ValueView::Char(_) => GenType::Char,
        ValueView::String(_) => GenType::String,
        ValueView::Bin(_) => GenType::Bin,
    }
}

/// The text a value that is not binary is written as.
pub open spec fn view_text(v: ValueView) -> Seq<char> {
    match v {
        ValueView::Boolean(b) => if b {
            "true"@
        } else {
            "false"@
        },
        ValueView::Uint(n) => dec_digits(n as nat),
        ValueView::Int(n) => signed_digits(n as int),
        ValueView::Char(c) => seq![c],
        ValueView::String(s) => s,
        ValueView::Bin(_) => Seq::empty(),
    }
}

/// Types whose values are written as text (all but binary).
pub open spec fn is_textual(t: GenType) -> bool {
    t != GenType::Bin
}

impl Value {
    /// The type of the value.
    pub fn get_type(&self) -> (t: GenType)
        ensures
            t == view_type(self@),
    {
        match self {
            Value::Boolean(_) => GenType::Boolean,
            Value::Uint(_) => GenType::Uint,
            Value::Int(_) => GenType::Int,
            Value::Char(_) => GenType::Char,
            Value::String(_) => GenType::String,
            Value::Bin(_) => GenType::Bin,
        }
    }

    /// A copy of the value.
    pub fn copy(&self) -> (r: Value)
        ensures
            r@ == self@,
    {
        match self {
            Value::Boolean(b) => Value::Boolean(*b),
            Value::Uint(n) => Value::Uint(*n),
            Value::Int(n) => Value::Int(*n),
            Value::Char(c) => Value::Char(*c),
            Value::String(s) => Value::String(s.clone()),
            Value::Bin(b) => {
                let mut c: Vec<u8> = Vec::new();
                let mut k: usize = 0;
                while k < b.len()
                    invariant
                        0 <= k <= b@.len(),
                        c@ == b@.take(k as int),
                    decreases b@.len() - k,
                {
                    c.push(b[k]);
                    k = k + 1;
                    assert(c@ =~= b@.take(k as int));
                }
                assert(b@.take(b@.len() as int) =~= b@);
                Value::Bin(c)
            },
        }
    }

    /// Appends the text of a value that is not binary.
    pub fn push_text(&self, out: &mut Vec<char>)
        requires
            is_textual(view_type(self@)),
        ensures
            final(out)@ == old(out)@ + view_text(self@),
    {
        match self {
            Value::Boolean(b) => {
                if *b {
                    push_all(out, crate::text::chars_of("true").as_slice());
                } else {
                    push_all(out, crate::text::chars_of("false").as_slice());
                }
            },
            Value::Uint(n) => push_all(out, format_u64(*n).as_slice()),
            Value::Int(n) => push_all(out, format_i64(*n).as_slice()),
            Value::Char(c) => {
                out.push(*c);
            },
            Value::String(s) => push_all(out, crate::text::chars_of(s.as_str()).as_slice()),
            Value::Bin(_) => {},
        }
    }
}

} // verus!
