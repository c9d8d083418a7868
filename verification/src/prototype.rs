//! Function prototypes: the signatures that calls are resolved against.

use vstd::prelude::*;
use crate::ast::{gen_type_name, Expr, GenType, IString, MacroArgument, MacroDef, WithSpan};
use crate::errors::SourceRef;
use crate::text::{chars_of, push_all, string_from_chars};

verus! {

/// What a function of a prototype needs to say about itself.
pub trait FunProto {
    fn get_name(&self) -> &str;
    fn arg_count(&self) -> usize;
    fn get_arg(&self, index: usize) -> (&str, GenType);
    fn get_description(&self) -> &str;
}

/// The functions that the interpreter itself provides.
#[derive(Debug, Clone, Copy, PartialEq, Eq, Structural)]
pub enum BuiltinKind {
    BinLength,
    ToBinary { number: GenType, big_endian: bool },
    Char,
    Env,
    String,
    StringLength,
    StringBytes,
    Concat(GenType),
    Select(GenType),
    StableSelect(GenType),
    RepeatDelimited(GenType),
    Range(GenType),
    Words,
    SelectFromFile,
    ToString(GenType),
    Sequence { element: GenType, wrapping: bool },
}

/// A function that the interpreter provides.
#[derive(Debug)]
pub struct BuiltinFunctionPrototype {
    pub function_name: &'static str,
    pub description: &'static str,
    pub arguments: Vec<(&'static str, GenType)>,
    pub variadic: bool,
    pub kind: BuiltinKind,
}

/// A function defined in a program.
#[derive(Debug)]
pub struct InterpretedFunctionPrototype {
    pub source_ref: SourceRef,
    pub function_name: IString,
    pub arguments: Vec<MacroArgument>,
    pub doc_comments: String,
    pub body: WithSpan<Expr>,
}

impl InterpretedFunctionPrototype {
    /// The prototype of a definition read from `source_ref`'s source.
    pub fn new(source_ref_source: std::sync::Arc<crate::source::Source>, macro_def: WithSpan<MacroDef>) -> (p: InterpretedFunctionPrototype)
        ensures
            p.source_ref.source == source_ref_source,
            p.source_ref.span == macro_def.span,
            p.function_name == macro_def.value.name,
            p.arguments == macro_def.value.args,
            p.doc_comments == macro_def.value.doc_comments,
            p.body == macro_def.value.body,
    {
        let WithSpan { span, value } = macro_def;
        let MacroDef { doc_comments, name, args, body } = value;
        InterpretedFunctionPrototype {
            source_ref: SourceRef::new(source_ref_source, span),
            function_name: name,
            doc_comments,
            arguments: args,
            body,
        }
    }
}

impl FunProto for BuiltinFunctionPrototype {
    fn get_name(&self) -> (n: &str)
        ensures
            n@ == self.function_name@,
    {
        self.function_name
    }

    fn arg_count(&self) -> (n: usize)
        ensures
            n == self.arguments@.len(),
    {
        self.arguments.len()
    }

    fn get_arg(&self, index: usize) -> (a: (&str, GenType))
        ensures
            index < self.arguments@.len() ==> a.0@ == self.arguments@[index as int].0@ && a.1
                == self.arguments@[index as int].1,
            index >= self.arguments@.len() ==> a.0@ == ""@ && a.1 == GenType::String,
    {
        if index < self.arguments.len() {
            self.arguments[index]
        } else {
            ("", GenType::String)
        }
    }

    fn get_description(&self) -> (d: &str)
        ensures
            d@ == self.description@,
    {
        self.description
    }
}

impl FunProto for InterpretedFunctionPrototype {
    fn get_name(&self) -> (n: &str)
        ensures
            n@ == self.function_name@,
    {
        self.function_name.as_str()
    }

    fn arg_count(&self) -> (n: usize)
        ensures
            n == self.arguments@.len(),
    {
        self.arguments.len()
    }

    fn get_arg(&self, index: usize) -> (a: (&str, GenType))
        ensures
            index < self.arguments@.len() ==> a.0@ == self.arguments@[index as int].name@ && a.1
                == self.arguments@[index as int].arg_type,
            index >= self.arguments@.len() ==> a.0@ == ""@ && a.1 == GenType::String,
    {
        if index < self.arguments.len() {
            (self.arguments[index].name.as_str(), self.arguments[index].arg_type)
        } else {
            ("", GenType::String)
        }
    }

    fn get_description(&self) -> (d: &str)
        ensures
            d@ == self.doc_comments@,
    {
        self.doc_comments.as_str()
    }
}

/// The types that a function's arguments must have; the last may repeat.
#[derive(Debug, Clone, PartialEq)]
pub struct ArgumentTypes {
    pub last_is_variadic: bool,
    pub types: Vec<GenType>,
}

/// A function that calls can resolve to.
#[derive(Debug)]
pub enum FunctionPrototype {
    Builtin(BuiltinFunctionPrototype),
    Interpreted(InterpretedFunctionPrototype),
}

/// The name of a prototype.
pub open spec fn proto_name(p: FunctionPrototype) -> Seq<char> {
    match p {
        FunctionPrototype::Builtin(b) => b.function_name@,
        FunctionPrototype::Interpreted(i) => i.function_name@,
    }
}

/// The declared types of a prototype's arguments.
pub open spec fn proto_arg_types(p: FunctionPrototype) -> Seq<GenType> {
    match p {
        FunctionPrototype::Builtin(b) => b.arguments@.map_values(|a: (&'static str, GenType)| a.1),
        FunctionPrototype::Interpreted(i) => i.arguments@.map_values(|a: MacroArgument| a.arg_type),
    }
}

/// Whether the last argument of a prototype may be repeated. Only builtins can be variadic.
pub open spec fn proto_variadic(p: FunctionPrototype) -> bool {
    match p {
        FunctionPrototype::Builtin(b) => b.variadic,
        FunctionPrototype::Interpreted(_) => false,
    }
}

/// Arguments of types `actual` can be passed where `expected` are declared: one for one, and,
/// when `variadic`, with the last declared type repeated any number of times beyond that. A
/// function without arguments takes none, whether or not it is variadic.
pub open spec fn args_match(expected: Seq<GenType>, actual: Seq<GenType>, variadic: bool) -> bool {
    if expected.len() == 0 {
        actual.len() == 0
    } else {
        &&& actual.len() >= expected.len()
        &&& forall|k: int| 0 <= k < expected.len() ==> #[trigger] actual[k] == expected[k]
        &&& actual.len() > expected.len() ==> variadic
        &&& forall|k: int| expected.len() <= k < actual.len() ==> #[trigger] actual[k] == expected.last()
    }
}

/// Whether arguments of types `actual` fit the declared types `expected`.
pub fn do_arguments_match(expected: &Vec<GenType>, actual: &Vec<GenType>, variadic: bool) -> (b: bool)
    ensures
        b == args_match(expected@, actual@, variadic),
{
    if expected.len() == 0 {
        return actual.len() == 0;
    }
    if actual.len() < expected.len() {
        return false;
    }
    if actual.len() > expected.len() && !variadic {
        return false;
    }
    let last = expected[expected.len() - 1];
    let mut k: usize = 0;
    while k < actual.len()
        invariant
            0 < expected@.len() <= actual@.len(),
            actual@.len() > expected@.len() ==> variadic,
            last == expected@.last(),
            0 <= k <= actual@.len(),
            forall|j: int| 0 <= j < k && j < expected@.len() ==> #[trigger] actual@[j] == expected@[j],
            forall|j: int| expected@.len() <= j < k ==> #[trigger] actual@[j] == last,
        decreases actual@.len() - k,
    {
        let want = if k < expected.len() { expected[k] } else { last };
        if actual[k] != want {
            return false;
        }
        k = k + 1;
    }
    true
}

/// Two prototypes have the same signature: the same name, the same argument types, and both
/// or neither variadic. Argument names do not count.
pub open spec fn same_signature(a: FunctionPrototype, b: FunctionPrototype) -> bool {
    proto_name(a) == proto_name(b) && proto_arg_types(a) == proto_arg_types(b) && proto_variadic(a)
        == proto_variadic(b)
}

/// Having the same signature is an equivalence relation: reflexive, symmetric and transitive.
pub proof fn lemma_same_signature_is_equivalence(a: FunctionPrototype, b: FunctionPrototype, c: FunctionPrototype)
    ensures
        same_signature(a, a),
        same_signature(a, b) ==> same_signature(b, a),
        same_signature(a, b) && same_signature(b, c) ==> same_signature(a, c),
{
}

impl FunctionPrototype {
    /// The name of the function.
    pub fn name(&self) -> (n: &str)
        ensures
            n@ == proto_name(*self),
    {
        match self {
            FunctionPrototype::Interpreted(ip) => ip.function_name.as_str(),
            FunctionPrototype::Builtin(bi) => bi.function_name,
        }
    }

    /// Whether the last argument may be repeated.
    pub fn is_variadic(&self) -> (b: bool)
        ensures
            b == proto_variadic(*self),
    {
        match self {
            FunctionPrototype::Builtin(builtin) => builtin.variadic,
            FunctionPrototype::Interpreted(_) => false,
        }
    }

    /// The declared types of the arguments, in order.
    pub fn collect_argument_types(&self) -> (ts: Vec<GenType>)
        ensures
            ts@ == proto_arg_types(*self),
    {
        let mut ts: Vec<GenType> = Vec::new();
        match self {
            FunctionPrototype::Builtin(b) => {
                let mut k: usize = 0;
                while k < b.arguments.len()
                    invariant
                        0 <= k <= b.arguments@.len(),
                        ts@ == b.arguments@.map_values(|a: (&'static str, GenType)| a.1).take(k as int),
                    decreases b.arguments@.len() - k,
                {
                    ts.push(b.arguments[k].1);
                    k = k + 1;
                    assert(ts@ =~= b.arguments@.map_values(|a: (&'static str, GenType)| a.1).take(k as int));
                }
                assert(b.arguments@.map_values(|a: (&'static str, GenType)| a.1).take(k as int)
                    =~= b.arguments@.map_values(|a: (&'static str, GenType)| a.1));
            },
            FunctionPrototype::Interpreted(i) => {
                let mut k: usize = 0;
                while k < i.arguments.len()
                    invariant
                        0 <= k <= i.arguments@.len(),
                        ts@ == i.arguments@.map_values(|a: MacroArgument| a.arg_type).take(k as int),
                    decreases i.arguments@.len() - k,
                {
                    ts.push(i.arguments[k].arg_type);
                    k = k + 1;
                    assert(ts@ =~= i.arguments@.map_values(|a: MacroArgument| a.arg_type).take(k as int));
                }
                assert(i.arguments@.map_values(|a: MacroArgument| a.arg_type).take(k as int)
                    =~= i.arguments@.map_values(|a: MacroArgument| a.arg_type));
            },
        }
        ts
    }

    /// Whether two prototypes have the same signature.
    pub fn is_same_signature(&self, other: &FunctionPrototype) -> (b: bool)
        ensures
            b == same_signature(*self, *other),
    {
        let n1 = String::from_str(self.name());
        let n2 = String::from_str(other.name());
        if !(n1 == n2) {
            return false;
        }
        let a = self.collect_argument_types();
        let b = other.collect_argument_types();
        if a.len() != b.len() {
            return false;
        }
        let mut k: usize = 0;
        while k < a.len()
            invariant
                a@.len() == b@.len(),
                a@ == proto_arg_types(*self),
                b@ == proto_arg_types(*other),
                0 <= k <= a@.len(),
                forall|j: int| 0 <= j < k ==> a@[j] == b@[j],
            decreases a@.len() - k,
        {
            if a[k] != b[k] {
                assert(a@[k as int] != b@[k as int]);
                assert(a@ != b@);
                return false;
            }
            k = k + 1;
        }
        assert(a@ =~= b@);
        self.is_variadic() == other.is_variadic()
    }

    /// Whether arguments of the given types can be passed to the function.
    pub fn do_arguments_match(&self, actual: &Vec<GenType>) -> (b: bool)
        ensures
            b == args_match(proto_arg_types(*self), actual@, proto_variadic(*self)),
    {
        let expected = self.collect_argument_types();
        do_arguments_match(&expected, actual, self.is_variadic())
    }

    /// Where the function is defined: nowhere for a builtin.
    pub fn get_source(&self) -> (r: Option<SourceRef>)
        ensures
            match *self {
                FunctionPrototype::Builtin(_) => r is None,
                FunctionPrototype::Interpreted(i) => r == Some(i.source_ref),
            },
    {
        match self {
            FunctionPrototype::Builtin(_) => None,
            FunctionPrototype::Interpreted(i) => Some(i.source_ref.clone()),
        }
    }

    /// The description of the function.
    pub fn get_description(&self) -> (d: &str)
        ensures
            d@ == match *self {
                FunctionPrototype::Builtin(b) => b.description@,
                FunctionPrototype::Interpreted(i) => i.doc_comments@,
            },
    {
        match self {
            FunctionPrototype::Builtin(b) => b.description,
            FunctionPrototype::Interpreted(i) => i.doc_comments.as_str(),
        }
    }
}


/// The name and type of a prototype's argument `k`.
pub open spec fn proto_arg(p: FunctionPrototype, k: int) -> (Seq<char>, GenType) {
    match p {
        FunctionPrototype::Builtin(b) => (b.arguments@[k].0@, b.arguments@[k].1),
        FunctionPrototype::Interpreted(i) => (i.arguments@[k].name@, i.arguments@[k].arg_type),
    }
}

/// The number of a prototype's arguments.
pub open spec fn proto_arg_count(p: FunctionPrototype) -> int {
    match p {
        FunctionPrototype::Builtin(b) => b.arguments@.len() as int,
        FunctionPrototype::Interpreted(i) => i.arguments@.len() as int,
    }
}

/// The description of a prototype.
pub open spec fn proto_description(p: FunctionPrototype) -> Seq<char> {
    match p {
        FunctionPrototype::Builtin(b) => b.description@,
        FunctionPrototype::Interpreted(i) => i.doc_comments@,
    }
}

/// `name: Type` of the first `n` arguments, separated by `, `, with `...` after the last
/// argument of a variadic function.
pub open spec fn args_text(p: FunctionPrototype, n: int) -> Seq<char>
    decreases n,
{
    if n <= 0 {
        Seq::empty()
    } else {
        let a = proto_arg(p, n - 1);
        args_text(p, n - 1) + (if n > 1 { ", "@ } else { Seq::empty() }) + a.0 + ": "@ + gen_type_name(a.1)
            + (if proto_variadic(p) && n == proto_arg_count(p) { "..."@ } else { Seq::empty() })
    }
}

/// How a prototype is shown: `name(arg: Type, ...) - description`.
pub open spec fn proto_text(p: FunctionPrototype) -> Seq<char> {
    proto_name(p) + "("@ + args_text(p, proto_arg_count(p)) + ") - "@ + proto_description(p)
}

/// The arguments before the last are shown alike whether or not a prototype is variadic.
proof fn lemma_args_text_prefix(b: BuiltinFunctionPrototype, n: int)
    requires
        n < b.arguments@.len(),
    ensures
        args_text(FunctionPrototype::Builtin(b), n) == args_text(
            FunctionPrototype::Builtin(BuiltinFunctionPrototype { variadic: !b.variadic, ..b }),
            n,
        ),
    decreases n,
{
    if n > 0 {
        lemma_args_text_prefix(b, n - 1);
    }
}

/// The shown signature tells a variadic function from one of fixed arity: the last argument of
/// a variadic prototype is followed by `...`, which makes its text exactly three characters
/// longer than that of the same prototype without repetition.
pub proof fn lemma_variadic_marker(b: BuiltinFunctionPrototype)
    requires
        b.variadic,
        b.arguments@.len() > 0,
    ensures
        ({
            let v = FunctionPrototype::Builtin(b);
            let f = FunctionPrototype::Builtin(BuiltinFunctionPrototype { variadic: false, ..b });
            let a = args_text(v, proto_arg_count(v));
            &&& proto_text(v).len() == proto_text(f).len() + 3
            &&& a.len() >= 3
            &&& a.subrange(a.len() - 3, a.len() as int) == seq!['.', '.', '.']
        }),
{
    reveal_strlit("...");
    let n = b.arguments@.len() as int;
    let v = FunctionPrototype::Builtin(b);
    let f = FunctionPrototype::Builtin(BuiltinFunctionPrototype { variadic: false, ..b });
    lemma_args_text_prefix(b, n - 1);
    assert(BuiltinFunctionPrototype { variadic: !b.variadic, ..b } == BuiltinFunctionPrototype { variadic: false, ..b });
    assert(proto_arg(v, n - 1) == proto_arg(f, n - 1));
    let a = args_text(v, n);
    assert(a.subrange(a.len() - 3, a.len() as int) =~= seq!['.', '.', '.']);
}

impl FunctionPrototype {
    /// The name and type of argument `k`.
    pub fn arg(&self, k: usize) -> (r: (&str, GenType))
        requires
            k < proto_arg_count(*self),
        ensures
            r.0@ == proto_arg(*self, k as int).0,
            r.1 == proto_arg(*self, k as int).1,
    {
        match self {
            FunctionPrototype::Builtin(b) => b.arguments[k],
            FunctionPrototype::Interpreted(i) => (i.arguments[k].name.as_str(), i.arguments[k].arg_type),
        }
    }

    /// The number of arguments.
    pub fn get_arg_count(&self) -> (n: usize)
        ensures
            n == proto_arg_count(*self),
    {
        match self {
            FunctionPrototype::Builtin(b) => b.arguments.len(),
            FunctionPrototype::Interpreted(i) => i.arguments.len(),
        }
    }

    /// `name(arg: Type, ...) - description`.
    pub fn render(&self) -> (t: Vec<char>)
        ensures
            t@ == proto_text(*self),
    {
        let mut out = chars_of(self.name());
        push_all(&mut out, chars_of("(").as_slice());
        let ghost start = out@;
        let n = self.get_arg_count();
        let variadic = self.is_variadic();
        let mut k: usize = 0;
        while k < n
            invariant
                0 <= k <= n,
                n == proto_arg_count(*self),
                variadic == proto_variadic(*self),
                out@ == start + args_text(*self, k as int),
            decreases n - k,
        {
            if k > 0 {
                push_all(&mut out, chars_of(", ").as_slice());
            }
            let (name, t) = self.arg(k);
            push_all(&mut out, chars_of(name).as_slice());
            push_all(&mut out, chars_of(": ").as_slice());
            push_all(&mut out, chars_of(t.display_name()).as_slice());
            if variadic && k + 1 == n {
                push_all(&mut out, chars_of("...").as_slice());
            }
            k = k + 1;
            assert(out@ =~= start + args_text(*self, k as int));
        }
        push_all(&mut out, chars_of(") - ").as_slice());
        push_all(&mut out, chars_of(self.get_description()).as_slice());
        out
    }
}

} // verus!
