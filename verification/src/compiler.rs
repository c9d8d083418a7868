//! Compiling programs: resolving calls to functions and building the nodes that generate values.

use vstd::prelude::*;
use std::sync::Arc;
use crate::ast::{Expr, GenType, IString, WithSpan};
use crate::builtins::{builtin_ok, builtin_prototypes, builds, create_builtin, result_type, types_of};
use crate::errors::{
    AmbiguousCall, ErrorFunctionSignature, ShortSourceDescription, SourceRef,
};
use crate::module::{distinct_signatures, Module};
use crate::parser::{args_ntoks, expr_ntoks};
use crate::prototype::{
    args_match, proto_arg_types, proto_name, proto_text, proto_variadic, FunctionPrototype,
};
use crate::runtime::{wrap, Node, NodeView, Runtime};
use crate::source::{last_dot, Source};
use crate::text::{chars_of, copy_chars, string_from_chars};
use crate::value::{Value, ValueView};

verus! {

/// The character that separates a module's name from a function's name in a call.
pub const MODULE_SEPARATOR_CHAR: char = '.';

/// Where a search for the function that a call means stands.
pub enum Search {
    /// Still looking; the variadic function that matched so far, if any.
    Looking(Option<FunctionPrototype>),
    /// A function that is not variadic matched.
    Found(FunctionPrototype),
    /// Two variadic functions matched.
    Ambiguous(FunctionPrototype, FunctionPrototype),
}

/// `f` is named `name` and takes arguments of types `actual`.
pub open spec fn callable(f: FunctionPrototype, name: Seq<char>, actual: Seq<GenType>) -> bool {
    proto_name(f) == name && args_match(proto_arg_types(f), actual, proto_variadic(f))
}

/// The search after considering `f`: the first function that matches and is not variadic is
/// the one; a variadic match is kept unless another variadic one matches too.
pub open spec fn search_step(s: Search, f: FunctionPrototype, name: Seq<char>, actual: Seq<GenType>) -> Search {
    match s {
        Search::Looking(best) => if callable(f, name, actual) {
            if !proto_variadic(f) {
                Search::Found(f)
            } else {
                match best {
                    None => Search::Looking(Some(f)),
                    Some(b) => Search::Ambiguous(b, f),
                }
            }
        } else {
            s
        },
        _ => s,
    }
}

/// The search after considering the functions `fs` in order.
pub open spec fn search(fs: Seq<FunctionPrototype>, name: Seq<char>, actual: Seq<GenType>, s: Search) -> Search
    decreases fs.len(),
{
    if fs.len() == 0 {
        s
    } else {
        search_step(search(fs.drop_last(), name, actual, s), fs.last(), name, actual)
    }
}

/// Searching two lists one after the other is searching their concatenation.
pub proof fn lemma_search_concat(a: Seq<FunctionPrototype>, b: Seq<FunctionPrototype>, name: Seq<char>, actual: Seq<GenType>, s: Search)
    ensures
        search(a + b, name, actual, s) == search(b, name, actual, search(a, name, actual, s)),
    decreases b.len(),
{
    if b.len() == 0 {
        assert(a + b =~= a);
    } else {
        assert((a + b).drop_last() =~= a + b.drop_last());
        lemma_search_concat(a, b.drop_last(), name, actual, s);
    }
}

/// `f` can take the call and does not repeat its last argument.
pub open spec fn callable_fixed(f: FunctionPrototype, name: Seq<char>, actual: Seq<GenType>) -> bool {
    callable(f, name, actual) && !proto_variadic(f)
}

/// `f` can take the call and repeats its last argument.
pub open spec fn callable_varargs(f: FunctionPrototype, name: Seq<char>, actual: Seq<GenType>) -> bool {
    callable(f, name, actual) && proto_variadic(f)
}

/// What a search over `fs` from the start can end in: a function found is one of `fs` that
/// takes the call and is not variadic; no match means none of `fs` takes the call; a variadic
/// match stands only where no function of `fs` that is not variadic takes the call; and an
/// ambiguity names two variadic functions of `fs` that take the call, in their order.
pub open spec fn search_outcome_sound(fs: Seq<FunctionPrototype>, name: Seq<char>, actual: Seq<GenType>, r: Search) -> bool {
    match r {
        Search::Found(f) => exists|i: int| 0 <= i < fs.len() && #[trigger] fs[i] == f && callable_fixed(f, name, actual),
        Search::Looking(None) => forall|i: int| 0 <= i < fs.len() ==> !callable(#[trigger] fs[i], name, actual),
        Search::Looking(Some(v)) => {
            &&& exists|i: int| 0 <= i < fs.len() && #[trigger] fs[i] == v && callable_varargs(v, name, actual)
            &&& forall|i: int| 0 <= i < fs.len() ==> !callable_fixed(#[trigger] fs[i], name, actual)
        },
        Search::Ambiguous(a, b) => exists|i: int, j: int|
            0 <= i < j < fs.len() && #[trigger] fs[i] == a && #[trigger] fs[j] == b
                && callable_varargs(a, name, actual) && callable_varargs(b, name, actual),
    }
}

/// At most one function of `fs` is variadic and takes the call.
pub open spec fn at_most_one_varargs(fs: Seq<FunctionPrototype>, name: Seq<char>, actual: Seq<GenType>) -> bool {
    forall|i: int, j: int|
        0 <= i < j < fs.len() && callable_varargs(#[trigger] fs[i], name, actual) ==> !callable_varargs(#[trigger] fs[j], name, actual)
}

/// Resolving a call among `fs`: what it ends in is sound (see `search_outcome_sound`); and
/// where a call matches a function that is not variadic and at most one variadic one, the one
/// that is not variadic is chosen.
pub proof fn lemma_search_sound(fs: Seq<FunctionPrototype>, name: Seq<char>, actual: Seq<GenType>)
    ensures
        search_outcome_sound(fs, name, actual, search(fs, name, actual, Search::Looking(None))),
        (exists|i: int| 0 <= i < fs.len() && callable_fixed(#[trigger] fs[i], name, actual))
            && at_most_one_varargs(fs, name, actual)
            ==> search(fs, name, actual, Search::Looking(None)) is Found,
    decreases fs.len(),
{
    let s0 = Search::Looking(None);
    if fs.len() > 0 {
        let init = fs.drop_last();
        let f = fs.last();
        let n = (fs.len() - 1) as int;
        lemma_search_sound(init, name, actual);
        let prev = search(init, name, actual, s0);
        assert(forall|i: int| 0 <= i < init.len() ==> #[trigger] init[i] == fs[i]);
        assert(fs[n] == f);
        match prev {
            Search::Found(g) => {
                let i = choose|i: int| 0 <= i < init.len() && #[trigger] init[i] == g && callable_fixed(g, name, actual);
                assert(fs[i] == g);
            },
            Search::Looking(None) => {
                if (exists|i: int| 0 <= i < fs.len() && callable_fixed(#[trigger] fs[i], name, actual)) {
                    let i = choose|i: int| 0 <= i < fs.len() && callable_fixed(#[trigger] fs[i], name, actual);
                    if i < n {
                        assert(init[i] == fs[i]);
                    }
                }
                assert forall|i: int| 0 <= i < n implies !callable(#[trigger] fs[i], name, actual) by {
                    assert(init[i] == fs[i]);
                }
            },
            Search::Looking(Some(v)) => {
                let i = choose|i: int| 0 <= i < init.len() && #[trigger] init[i] == v && callable_varargs(v, name, actual);
                assert(fs[i] == v);
                assert forall|k: int| 0 <= k < n implies !callable_fixed(#[trigger] fs[k], name, actual) by {
                    assert(init[k] == fs[k]);
                }
                if callable_varargs(f, name, actual) {
                    assert(fs[i] == v && fs[n] == f);
                }
                if at_most_one_varargs(fs, name, actual) && callable(f, name, actual) {
                    assert(!callable_varargs(fs[n], name, actual));
                }
            },
            Search::Ambiguous(a, b) => {
                let (i, j) = choose|i: int, j: int|
                    0 <= i < j < init.len() && #[trigger] init[i] == a && #[trigger] init[j] == b
                        && callable_varargs(a, name, actual) && callable_varargs(b, name, actual);
                assert(fs[i] == a && fs[j] == b);
                if at_most_one_varargs(fs, name, actual) {
                    assert(!callable_varargs(fs[j], name, actual));
                }
            },
        }
        if at_most_one_varargs(fs, name, actual) {
            assert forall|i: int, j: int|
                0 <= i < j < init.len() && callable_varargs(#[trigger] init[i], name, actual)
                implies !callable_varargs(#[trigger] init[j], name, actual) by {
                assert(init[i] == fs[i] && init[j] == fs[j]);
            }
        }
    }
}

/// The functions of the modules, one module after another.
pub open spec fn module_functions(ms: Seq<Module>) -> Seq<FunctionPrototype>
    decreases ms.len(),
{
    if ms.len() == 0 {
        Seq::empty()
    } else {
        module_functions(ms.drop_last()) + ms.last().functions()
    }
}

/// `f` is a builtin that declares the arguments its kind is built from.
pub open spec fn is_ok_builtin(f: FunctionPrototype) -> bool {
    match f {
        FunctionPrototype::Builtin(b) => builtin_ok(b),
        _ => false,
    }
}

/// Which function is meant, as a position among the builtins or in a module.
#[derive(Debug, Clone, Copy, PartialEq, Eq, Structural)]
pub enum FunctionRef {
    Builtin(usize),
    InModule(usize, usize),
}

/// The outcome of resolving a call.
#[derive(Debug, Clone, Copy, PartialEq, Eq, Structural)]
pub enum Resolution {
    Found(FunctionRef),
    NotFound,
    NoSuchModule,
    Ambiguous(FunctionRef, FunctionRef),
}

/// `s` is where the module name of `name` ends: the position of its last `.`.
pub open spec fn split_point(name: Seq<char>) -> int {
    last_dot(name, name.len() as int)
}

/// A call of `module.function`: the part before the last `.` and the part after it.
pub fn split_module_and_function(function_name: &str) -> (r: Option<(IString, IString)>)
    ensures
        split_point(function_name@) < 0 ==> r is None,
        split_point(function_name@) >= 0 ==> (r matches Some((m, f)) && m@ == function_name@.take(
            split_point(function_name@),
        ) && f@ == function_name@.skip(split_point(function_name@) + 1)),
{
    let cs = chars_of(function_name);
    let mut i: usize = cs.len();
    while i > 0 && cs[i - 1] != MODULE_SEPARATOR_CHAR
        invariant
            0 <= i <= cs@.len(),
            cs@ == function_name@,
            last_dot(cs@, i as int) == last_dot(cs@, cs@.len() as int),
        decreases i,
    {
        i = i - 1;
    }
    if i == 0 {
        None
    } else {
        let m = copy_chars(cs.as_slice(), 0, i - 1);
        let f = copy_chars(cs.as_slice(), i, cs.len());
        assert(f@ =~= function_name@.skip(i as int));
        Some((string_from_chars(m.as_slice()), string_from_chars(f.as_slice())))
    }
}

/// A name bound to a compiled value: an argument of a user-defined function, or the value of a
/// mapped function inside its mapper.
#[derive(Debug)]
pub struct BoundArgument {
    pub arg_name: IString,
    pub value: usize,
}

impl BoundArgument {
    pub fn new(arg_name: IString, value: usize) -> (b: BoundArgument)
        ensures
            b.arg_name == arg_name,
            b.value == value,
    {
        BoundArgument { arg_name, value }
    }
}

/// What is wrong with a program that cannot be compiled.
#[derive(Debug)]
pub enum ErrorType {
    NoSuchArgument(IString),
    NoSuchMethod(ErrorFunctionSignature),
    NoSuchModule(IString),
    AmbiguousFunctionCall(AmbiguousCall),
    InternalError(String),
}

/// A compile error and the region of source it concerns.
#[derive(Debug)]
pub struct CompileError {
    pub source: SourceRef,
    pub error_type: ErrorType,
}

/// How a compile error's kind is described.
pub open spec fn error_type_text(e: ErrorType) -> Seq<char> {
    match e {
        ErrorType::NoSuchArgument(name) => "No such argument '"@ + name@ + "' is in scope here"@,
        ErrorType::NoSuchMethod(sig) => "No such method with signature: "@ + crate::errors::signature_text(sig),
        ErrorType::NoSuchModule(name) => "No such module: '"@ + name@ + "'"@,
        ErrorType::AmbiguousFunctionCall(call) => "Ambiguous function call, which could refer to multiple functions:\n"@
            + crate::errors::ambiguous_text(call),
        ErrorType::InternalError(m) => "Internal Error: "@ + m@,
    }
}

/// The signatures that a compile error shows have sources whose lines can be counted.
pub open spec fn error_type_countable(e: ErrorType) -> bool {
    match e {
        ErrorType::NoSuchMethod(sig) => crate::errors::signature_countable(sig),
        ErrorType::AmbiguousFunctionCall(call) => crate::errors::signature_countable(call.called)
            && crate::errors::signature_countable(call.option1) && crate::errors::signature_countable(call.option2),
        _ => true,
    }
}

impl ErrorType {
    /// The description of the kind of error.
    pub fn render(&self) -> (t: Vec<char>)
        requires
            error_type_countable(*self),
        ensures
            t@ == error_type_text(*self),
    {
        match self {
            ErrorType::NoSuchArgument(name) => {
                let mut out = chars_of("No such argument '");
                crate::text::push_all(&mut out, chars_of(name.as_str()).as_slice());
                crate::text::push_all(&mut out, chars_of("' is in scope here").as_slice());
                out
            },
            ErrorType::NoSuchMethod(sig) => {
                let mut out = chars_of("No such method with signature: ");
                crate::text::push_all(&mut out, sig.render().as_slice());
                out
            },
            ErrorType::NoSuchModule(name) => {
                let mut out = chars_of("No such module: '");
                crate::text::push_all(&mut out, chars_of(name.as_str()).as_slice());
                crate::text::push_all(&mut out, chars_of("'").as_slice());
                out
            },
            ErrorType::AmbiguousFunctionCall(call) => {
                let mut out = chars_of("Ambiguous function call, which could refer to multiple functions:\n");
                crate::text::push_all(&mut out, call.render().as_slice());
                out
            },
            ErrorType::InternalError(m) => {
                let mut out = chars_of("Internal Error: ");
                crate::text::push_all(&mut out, chars_of(m.as_str()).as_slice());
                out
            },
        }
    }

    /// Whether the signatures shown have sources whose lines can be counted.
    fn check_countable(&self) -> (b: bool)
        ensures
            b == error_type_countable(*self),
    {
        match self {
            ErrorType::NoSuchMethod(sig) => signature_is_countable(sig),
            ErrorType::AmbiguousFunctionCall(call) => signature_is_countable(&call.called)
                && signature_is_countable(&call.option1) && signature_is_countable(&call.option2),
            _ => true,
        }
    }
}

fn signature_is_countable(sig: &ErrorFunctionSignature) -> (b: bool)
    ensures
        b == crate::errors::signature_countable(*sig),
{
    match &sig.source {
        Some(ShortSourceDescription::Interpreted(r)) => r.is_countable(),
        _ => true,
    }
}

/// `Compilation Error: <kind>`, a blank line, and the region the error concerns.
pub open spec fn compile_error_text(e: CompileError) -> Seq<char> {
    "Compilation Error: "@ + error_type_text(e.error_type) + "\n\n"@ + crate::errors::source_ref_text(e.source) + "\n"@
}

impl CompileError {
    /// The error as it is reported; when its source cannot be shown, only its first line.
    pub fn message(&self) -> (m: String)
        ensures
            error_type_countable(self.error_type) && crate::errors::showable(self.source) ==> m@ == compile_error_text(*self),
    {
        let mut out = chars_of("Compilation Error: ");
        if !self.error_type.check_countable() {
            crate::text::push_all(&mut out, chars_of("(details unavailable)").as_slice());
            return string_from_chars(out.as_slice());
        }
        crate::text::push_all(&mut out, self.error_type.render().as_slice());
        if self.source.is_showable() {
            crate::text::push_all(&mut out, chars_of("\n\n").as_slice());
            let shown = self.source.render();
            crate::text::push_all(&mut out, chars_of(shown.as_str()).as_slice());
            crate::text::push_all(&mut out, chars_of("\n").as_slice());
        }
        string_from_chars(out.as_slice())
    }

    pub fn get_type(&self) -> (t: &ErrorType)
        ensures
            *t == self.error_type,
    {
        &self.error_type
    }
}


/// The search as the compiler carries it out, with functions given by position.
enum Searching {
    Looking(Option<FunctionRef>),
    Found(FunctionRef),
    Ambiguous(FunctionRef, FunctionRef),
}

/// Whether two names are the same.
fn same_name(a: &str, b: &str) -> (r: bool)
    ensures
        r == (a@ == b@),
{
    String::from_str(a) == String::from_str(b)
}

/// Whether `f` is named `name` and takes arguments of types `actual`.
fn is_callable(f: &FunctionPrototype, name: &str, actual: &Vec<GenType>) -> (b: bool)
    ensures
        b == callable(*f, name@, actual@),
{
    same_name(f.name(), name) && f.do_arguments_match(actual)
}

/// Compiles programs into nodes of a [`Runtime`]: the builtin functions, then the modules,
/// are the functions that calls can mean.
pub struct Compiler {
    builtins: Vec<FunctionPrototype>,
    modules: Vec<Module>,
}

impl Compiler {
    pub closed spec fn builtin_fns(&self) -> Seq<FunctionPrototype> {
        self.builtins@
    }

    pub closed spec fn module_list(&self) -> Seq<Module> {
        self.modules@
    }

    /// Every function that an unqualified call can mean, in the order they are tried.
    pub open spec fn all_functions(&self) -> Seq<FunctionPrototype> {
        self.builtin_fns() + module_functions(self.module_list())
    }

    /// The function at a position.
    pub open spec fn ref_proto(&self, r: FunctionRef) -> FunctionPrototype {
        match r {
            FunctionRef::Builtin(k) => self.builtin_fns()[k as int],
            FunctionRef::InModule(m, k) => self.module_list()[m as int].functions()[k as int],
        }
    }

    /// The position is one of the compiler's functions.
    pub open spec fn ref_valid(&self, r: FunctionRef) -> bool {
        match r {
            FunctionRef::Builtin(k) => k < self.builtin_fns().len(),
            FunctionRef::InModule(m, k) => m < self.module_list().len() && k < self.module_list()[m as int].functions().len(),
        }
    }

    /// Where resolving a call of `name` on arguments of types `actual` ends: nothing when `name`
    /// names a module that does not exist.
    pub open spec fn resolution_of(&self, name: Seq<char>, actual: Seq<GenType>) -> Option<Search> {
        if split_point(name) < 0 {
            Some(search(self.all_functions(), name, actual, Search::Looking(None)))
        } else {
            match self.module_index(name.take(split_point(name))) {
                None => None,
                Some(m) => Some(search(self.module_list()[m].functions(), name.skip(split_point(name) + 1), actual, Search::Looking(None))),
            }
        }
    }

    /// A refusal is justified: a missing method names a call that no function takes, a
    /// missing module names no module, and an ambiguity names a call that two variadic
    /// functions take.
    pub open spec fn refusal_ok(&self, e: ErrorType) -> bool {
        match e {
            ErrorType::NoSuchMethod(sig) => self.resolution_of(sig.function_name@, sig.arg_types@) == Some(
                Search::Looking(None),
            ),
            ErrorType::NoSuchModule(m) => self.module_index(m@) is None,
            ErrorType::AmbiguousFunctionCall(a) => self.resolution_of(a.called.function_name@, a.called.arg_types@)
                matches Some(Search::Ambiguous(_, _)),
            _ => true,
        }
    }

    /// `r` is the outcome of a search that ended in `s`.
    pub open spec fn concludes(&self, r: Resolution, s: Search) -> bool {
        match s {
            Search::Found(f) => r matches Resolution::Found(x) && self.ref_valid(x) && self.ref_proto(x) == f,
            Search::Looking(Some(b)) => r matches Resolution::Found(x) && self.ref_valid(x) && self.ref_proto(x) == b,
            Search::Looking(None) => r == Resolution::NotFound,
            Search::Ambiguous(a, b) => r matches Resolution::Ambiguous(x, y) && self.ref_valid(x) && self.ref_valid(y)
                && self.ref_proto(x) == a && self.ref_proto(y) == b,
        }
    }

    /// Modules have distinct names and each has distinct signatures.
    pub closed spec fn wf(&self) -> bool {
        &&& forall|k: int| 0 <= k < self.builtins@.len() ==> is_ok_builtin(#[trigger] self.builtins@[k])
        &&& forall|m: int| 0 <= m < self.modules@.len() ==> (#[trigger] self.modules@[m]).wf()
        &&& forall|m: int, n: int| 0 <= m < n < self.modules@.len() ==> (#[trigger] self.modules@[m]).name_view() != (#[trigger] self.modules@[n]).name_view()
    }

    /// Each module of a well-formed compiler is well formed.
    pub proof fn lemma_module_wf(&self, m: int)
        requires
            self.wf(),
            0 <= m < self.module_list().len(),
        ensures
            self.module_list()[m].wf(),
    {
    }

    /// The index of the module named `name`, if there is one.
    pub open spec fn module_index(&self, name: Seq<char>) -> Option<int> {
        if exists|m: int| 0 <= m < self.module_list().len() && (#[trigger] self.module_list()[m]).name_view() == name {
            Some(choose|m: int| 0 <= m < self.module_list().len() && (#[trigger] self.module_list()[m]).name_view() == name)
        } else {
            None
        }
    }

    /// A compiler that knows the builtin functions and no module.
    pub fn new() -> (c: Compiler)
        ensures
            c.wf(),
            c.module_list().len() == 0,
            c.builtin_fns().len() == 52,
    {
        let mut protos = builtin_prototypes();
        let mut rev: Vec<FunctionPrototype> = Vec::new();
        while protos.len() > 0
            invariant
                protos@.len() + rev@.len() == 52,
                forall|k: int| 0 <= k < protos@.len() ==> builtin_ok(#[trigger] protos@[k]),
                forall|k: int| 0 <= k < rev@.len() ==> is_ok_builtin(#[trigger] rev@[k]),
            decreases protos@.len(),
        {
            let p = protos.pop().unwrap();
            rev.push(FunctionPrototype::Builtin(p));
        }
        let mut builtins: Vec<FunctionPrototype> = Vec::new();
        while rev.len() > 0
            invariant
                builtins@.len() + rev@.len() == 52,
                forall|k: int| 0 <= k < rev@.len() ==> is_ok_builtin(#[trigger] rev@[k]),
                forall|k: int| 0 <= k < builtins@.len() ==> is_ok_builtin(#[trigger] builtins@[k]),
            decreases rev@.len(),
        {
            let p = rev.pop().unwrap();
            builtins.push(p);
        }
        Compiler { builtins, modules: Vec::new() }
    }

    /// The index of the module named `name`.
    fn find_module(&self, name: &str) -> (r: Option<usize>)
        requires
            self.wf(),
        ensures
            r matches Some(m) ==> self.module_index(name@) == Some(m as int) && m < self.module_list().len(),
            r is None ==> self.module_index(name@) is None,
    {
        let mut m: usize = 0;
        while m < self.modules.len()
            invariant
                self.wf(),
                0 <= m <= self.modules@.len(),
                forall|j: int| 0 <= j < m ==> (#[trigger] self.modules@[j]).name_view() != name@,
            decreases self.modules@.len() - m,
        {
            if same_name(self.modules[m].name().as_str(), name) {
                proof {
                    assert(self.module_list()[m as int].name_view() == name@);
                    let c = choose|j: int| 0 <= j < self.module_list().len() && (#[trigger] self.module_list()[j]).name_view() == name@;
                    if c != m {
                        if c < m {
                            assert(self.modules@[c].name_view() != name@);
                        } else {
                            assert(self.modules@[m as int].name_view() != self.modules@[c].name_view());
                        }
                    }
                }
                return Some(m);
            }
            m = m + 1;
        }
        None
    }

    /// Adds a module; one named like a module already here is merged into it.
    pub fn add_module(&mut self, module: Module) -> (r: Result<(), String>)
        requires
            old(self).wf(),
            module.wf(),
        ensures
            final(self).wf(),
            final(self).builtin_fns() == old(self).builtin_fns(),
            match old(self).module_index(module.name_view()) {
                None => r is Ok && final(self).module_list() == old(self).module_list().push(module),
                Some(m) => {
                    &&& final(self).module_list().len() == old(self).module_list().len()
                    &&& forall|j: int| 0 <= j < old(self).module_list().len() && j != m ==> #[trigger] final(self).module_list()[j]
                        == old(self).module_list()[j]
                    &&& final(self).module_list()[m].name_view() == old(self).module_list()[m].name_view()
                    &&& (r is Ok <==> distinct_signatures(old(self).module_list()[m].functions() + module.functions()))
                    &&& (r is Ok ==> final(self).module_list()[m].functions() == old(self).module_list()[m].functions()
                        + module.functions())
                },
            },
    {
        let found = self.find_module(module.name().as_str());
        proof {
            if found is None {
                assert forall|j: int| 0 <= j < old(self).module_list().len() implies (#[trigger] old(self).module_list()[j]).name_view()
                    != module.name_view() by {
                    if old(self).module_list()[j].name_view() == module.name_view() {
                        assert(exists|x: int| 0 <= x < old(self).module_list().len() && (#[trigger] old(self).module_list()[x]).name_view() == module.name_view());
                    }
                }
            }
        }
        match found {
            Some(m) => {
                let mut existing = self.modules.remove(m);
                let res = existing.combine(module);
                self.modules.insert(m, existing);
                proof {
                    assert(self.modules@ =~= old(self).modules@.update(m as int, self.modules@[m as int]));
                    assert forall|a: int, b: int| 0 <= a < b < self.modules@.len() implies (#[trigger] self.modules@[a]).name_view()
                        != (#[trigger] self.modules@[b]).name_view() by {
                        assert(self.modules@[a].name_view() == old(self).modules@[a].name_view());
                        assert(self.modules@[b].name_view() == old(self).modules@[b].name_view());
                    }
                }
                res
            },
            None => {
                self.modules.push(module);
                proof {
                    assert forall|a: int, b: int| 0 <= a < b < self.modules@.len() implies (#[trigger] self.modules@[a]).name_view()
                        != (#[trigger] self.modules@[b]).name_view() by {
                        if b < old(self).modules@.len() {
                            assert(self.modules@[a] == old(self).modules@[a]);
                            assert(self.modules@[b] == old(self).modules@[b]);
                        } else {
                            assert(self.modules@[a] == old(self).modules@[a]);
                            assert(old(self).module_list()[a].name_view() != self.modules@[b].name_view());
                        }
                    }
                }
                Ok(())
            },
        }
    }
}


proof fn lemma_search_push(x: Seq<FunctionPrototype>, f: FunctionPrototype, name: Seq<char>, actual: Seq<GenType>, s: Search)
    ensures
        search(x.push(f), name, actual, s) == search_step(search(x, name, actual, s), f, name, actual),
{
    assert(x.push(f).drop_last() =~= x);
}

proof fn lemma_module_functions_take(ms: Seq<Module>, m: int)
    requires
        0 <= m < ms.len(),
    ensures
        module_functions(ms.take(m + 1)) == module_functions(ms.take(m)) + ms[m].functions(),
{
    assert(ms.take(m + 1).drop_last() =~= ms.take(m));
}

impl Compiler {
    /// The state `st` of the exec search stands for the spec search state `s`.
    spec fn tracks(&self, st: Searching, s: Search) -> bool {
        match (st, s) {
            (Searching::Looking(None), Search::Looking(None)) => true,
            (Searching::Looking(Some(x)), Search::Looking(Some(p))) => self.ref_valid(x) && self.ref_proto(x) == p,
            (Searching::Found(x), Search::Found(p)) => self.ref_valid(x) && self.ref_proto(x) == p,
            (Searching::Ambiguous(x, y), Search::Ambiguous(a, b)) => self.ref_valid(x) && self.ref_valid(y)
                && self.ref_proto(x) == a && self.ref_proto(y) == b,
            _ => false,
        }
    }

    /// One step of the search: considers the function `f` at position `r`.
    fn step(&self, st: Searching, r: FunctionRef, f: &FunctionPrototype, name: &str, actual: &Vec<GenType>, Ghost(s): Ghost<Search>) -> (out: Searching)
        requires
            self.tracks(st, s),
            self.ref_valid(r),
            self.ref_proto(r) == *f,
        ensures
            self.tracks(out, search_step(s, *f, name@, actual@)),
    {
        match st {
            Searching::Looking(best) => {
                if is_callable(f, name, actual) {
                    if !f.is_variadic() {
                        Searching::Found(r)
                    } else {
                        match best {
                            None => Searching::Looking(Some(r)),
                            Some(b) => Searching::Ambiguous(b, r),
                        }
                    }
                } else {
                    Searching::Looking(best)
                }
            },
            other => other,
        }
    }

    /// The outcome of a search that ended in `st`.
    fn finish(&self, st: Searching, Ghost(s): Ghost<Search>) -> (r: Resolution)
        requires
            self.tracks(st, s),
        ensures
            self.concludes(r, s),
    {
        match st {
            Searching::Looking(Some(b)) => Resolution::Found(b),
            Searching::Looking(None) => Resolution::NotFound,
            Searching::Found(x) => Resolution::Found(x),
            Searching::Ambiguous(x, y) => Resolution::Ambiguous(x, y),
        }
    }

    /// Searches the functions of module `m`.
    fn search_module(&self, m: usize, name: &str, actual: &Vec<GenType>, st: Searching, Ghost(s): Ghost<Search>) -> (out: Searching)
        requires
            m < self.module_list().len(),
            self.tracks(st, s),
        ensures
            self.tracks(out, search(self.module_list()[m as int].functions(), name@, actual@, s)),
    {
        let module = &self.modules[m];
        let ghost fs = module.functions();
        let mut state = st;
        let mut k: usize = 0;
        while k < module.function_count()
            invariant
                m < self.module_list().len(),
                *module == self.module_list()[m as int],
                fs == module.functions(),
                0 <= k <= fs.len(),
                self.tracks(state, search(fs.take(k as int), name@, actual@, s)),
            decreases fs.len() - k,
        {
            proof {
                assert(fs.take(k as int + 1) =~= fs.take(k as int).push(fs[k as int]));
                lemma_search_push(fs.take(k as int), fs[k as int], name@, actual@, s);
            }
            state = self.step(state, FunctionRef::InModule(m, k), module.function(k), name, actual, Ghost(search(fs.take(k as int), name@, actual@, s)));
            k = k + 1;
        }
        assert(fs.take(fs.len() as int) =~= fs);
        state
    }

    /// The function that a call of `name` with arguments of types `actual` means. A call
    /// `module.function` looks only in that module; any other call looks among the builtins
    /// and then in every module. The first match that is not variadic wins; otherwise a single
    /// variadic match; two variadic matches are ambiguous.
    pub fn resolve(&self, name: &str, actual: &Vec<GenType>) -> (r: Resolution)
        requires
            self.wf(),
        ensures
            split_point(name@) < 0 ==> self.concludes(r, search(self.all_functions(), name@, actual@, Search::Looking(None))),
            split_point(name@) >= 0 ==> (match self.module_index(name@.take(split_point(name@))) {
                None => r == Resolution::NoSuchModule,
                Some(m) => self.concludes(r, search(self.module_list()[m].functions(), name@.skip(split_point(name@) + 1), actual@, Search::Looking(None))),
            }),
    {
        match split_module_and_function(name) {
            Some((module_name, function_name)) => {
                assert(module_name@ == name@.take(split_point(name@)));
                match self.find_module(module_name.as_str()) {
                    None => Resolution::NoSuchModule,
                    Some(m) => {
                        let st = self.search_module(m, function_name.as_str(), actual, Searching::Looking(None), Ghost(Search::Looking(None)));
                        let r = self.finish(st, Ghost(search(self.module_list()[m as int].functions(), function_name@, actual@, Search::Looking(None))));
                        assert(self.module_index(name@.take(split_point(name@))) == Some(m as int));
                        assert(function_name@ == name@.skip(split_point(name@) + 1));
                        r
                    },
                }
            },
            None => {
                assert(split_point(name@) < 0);
                let ghost start = Search::Looking(None);
                let ghost bs = self.builtin_fns();
                let mut state = Searching::Looking(None);
                let mut k: usize = 0;
                while k < self.builtins.len()
                    invariant
                        bs == self.builtin_fns(),
                        0 <= k <= bs.len(),
                        self.tracks(state, search(bs.take(k as int), name@, actual@, start)),
                    decreases bs.len() - k,
                {
                    proof {
                        assert(bs.take(k as int + 1) =~= bs.take(k as int).push(bs[k as int]));
                        lemma_search_push(bs.take(k as int), bs[k as int], name@, actual@, start);
                    }
                    state = self.step(state, FunctionRef::Builtin(k), &self.builtins[k], name, actual, Ghost(search(bs.take(k as int), name@, actual@, start)));
                    k = k + 1;
                }
                assert(bs.take(bs.len() as int) =~= bs);
                let ghost after_builtins = search(bs, name@, actual@, start);
                let ghost ms = self.module_list();
                let mut m: usize = 0;
                assert(module_functions(ms.take(0)) =~= Seq::<FunctionPrototype>::empty());
                while m < self.modules.len()
                    invariant
                        ms == self.module_list(),
                        0 <= m <= ms.len(),
                        self.tracks(state, search(module_functions(ms.take(m as int)), name@, actual@, after_builtins)),
                    decreases ms.len() - m,
                {
                    proof {
                        lemma_module_functions_take(ms, m as int);
                        lemma_search_concat(module_functions(ms.take(m as int)), ms[m as int].functions(), name@, actual@, after_builtins);
                    }
                    state = self.search_module(m, name, actual, state, Ghost(search(module_functions(ms.take(m as int)), name@, actual@, after_builtins)));
                    m = m + 1;
                }
                proof {
                    assert(ms.take(ms.len() as int) =~= ms);
                    lemma_search_concat(bs, module_functions(ms), name@, actual@, start);
                }
                self.finish(state, Ghost(search(self.all_functions(), name@, actual@, start)))
            },
        }
    }
}


/// An argument is written with fewer tokens than the whole argument list.
pub proof fn lemma_arg_smaller(args: Seq<WithSpan<Expr>>, k: int)
    requires
        0 <= k < args.len(),
    ensures
        expr_ntoks(args[k].value) <= args_ntoks(args),
    decreases args.len(),
{
    if k < args.len() - 1 {
        lemma_arg_smaller(args.drop_last(), k);
        assert(args.drop_last()[k] == args[k]);
    }
}

/// Every bound name refers to a node of the program.
pub open spec fn bound_ok(bound: Seq<BoundArgument>, n: nat) -> bool {
    forall|k: int| 0 <= k < bound.len() ==> (#[trigger] bound[k]).value < n
}

/// How deep calls of user-defined functions may nest while a program is compiled.
pub const MAX_CALL_DEPTH: usize = 256;

fn error_at(source: &SourceRef, error_type: ErrorType) -> (e: CompileError)
    ensures
        e.source == *source,
        e.error_type == error_type,
{
    CompileError { source: source.clone(), error_type }
}

fn internal(source: &SourceRef, message: &str) -> (e: CompileError)
    ensures
        e.source == *source,
        e.error_type matches ErrorType::InternalError(m) && m@ == message@,
{
    error_at(source, ErrorType::InternalError(String::from_str(message)))
}

/// The signature of a call, from the types of its arguments.
fn called_signature(name: &IString, arg_types: &Vec<GenType>) -> (s: ErrorFunctionSignature)
    ensures
        s.function_name@ == name@,
        s.arg_types@ == arg_types@,
        !s.render_variadic,
        s.source is None,
{
    let mut ts: Vec<GenType> = Vec::new();
    let mut k: usize = 0;
    while k < arg_types.len()
        invariant
            0 <= k <= arg_types@.len(),
            ts@ == arg_types@.take(k as int),
        decreases arg_types@.len() - k,
    {
        ts.push(arg_types[k]);
        k = k + 1;
        assert(ts@ =~= arg_types@.take(k as int));
    }
    assert(arg_types@.take(arg_types@.len() as int) =~= arg_types@);
    ErrorFunctionSignature { function_name: name.clone(), arg_types: ts, render_variadic: false, source: None }
}

/// The signature of a function, with where it is defined.
fn prototype_signature(p: &FunctionPrototype) -> (s: ErrorFunctionSignature)
    ensures
        s.function_name@ == proto_name(*p),
        s.arg_types@ == proto_arg_types(*p),
        s.render_variadic == proto_variadic(*p),
        s.source is Some,
{
    ErrorFunctionSignature {
        function_name: String::from_str(p.name()),
        arg_types: p.collect_argument_types(),
        render_variadic: p.is_variadic(),
        source: Some(ShortSourceDescription::from_source(p.get_source())),
    }
}

/// The node that the first binding of `name` in `bound` names, if there is one.
pub open spec fn first_binding(bound: Seq<BoundArgument>, name: Seq<char>) -> Option<usize>
    decreases bound.len(),
{
    if bound.len() == 0 {
        None
    } else if bound[0].arg_name@ == name {
        Some(bound[0].value)
    } else {
        first_binding(bound.skip(1), name)
    }
}

/// The first binding of a name is one of the bindings.
proof fn lemma_first_binding_bound(bound: Seq<BoundArgument>, name: Seq<char>)
    ensures
        first_binding(bound, name) matches Some(v) ==> exists|k: int| 0 <= k < bound.len() && (#[trigger] bound[k]).value == v,
    decreases bound.len(),
{
    if bound.len() > 0 && bound[0].arg_name@ != name {
        lemma_first_binding_bound(bound.skip(1), name);
        if let Some(v) = first_binding(bound, name) {
            let k = choose|k: int| 0 <= k < bound.skip(1).len() && (#[trigger] bound.skip(1)[k]).value == v;
            assert(bound[k + 1] == bound.skip(1)[k]);
        }
    }
}

/// The node bound to `name`: the first binding of that name.
fn find_bound(bound: &Vec<BoundArgument>, name: &IString) -> (r: Option<usize>)
    ensures
        r == first_binding(bound@, name@),
        r matches Some(v) ==> exists|k: int| 0 <= k < bound@.len() && (#[trigger] bound@[k]).value == v,
{
    proof {
        lemma_first_binding_bound(bound@, name@);
    }
    let mut k: usize = 0;
    assert(bound@.skip(0) =~= bound@);
    while k < bound.len()
        invariant
            0 <= k <= bound@.len(),
            first_binding(bound@.skip(k as int), name@) == first_binding(bound@, name@),
        decreases bound@.len() - k,
    {
        assert(bound@.skip(k as int)[0] == bound@[k as int]);
        if bound[k].arg_name == *name {
            return Some(bound[k].value);
        }
        assert(bound@.skip(k as int).skip(1) =~= bound@.skip(k + 1));
        k = k + 1;
    }
    None
}

/// The value and type of a literal; nothing for other expressions and for decimals, which
/// have no value here.
pub open spec fn literal_value(e: Expr) -> Option<(ValueView, GenType)> {
    match e {
        Expr::BooleanLiteral(b) => Some((ValueView::Boolean(b), GenType::Boolean)),
        Expr::IntLiteral(n) => Some((ValueView::Uint(n), GenType::Uint)),
        Expr::SignedIntLiteral(n) => Some((ValueView::Int(n), GenType::Int)),
        Expr::CharLiteral(c) => Some((ValueView::Char(c), GenType::Char)),
        Expr::StringLiteral(st) => Some((ValueView::String(st@), GenType::String)),
        Expr::BinaryLiteral(bytes) => Some((ValueView::Bin(bytes@), GenType::Bin)),
        _ => None,
    }
}

/// What compiling `e` with `bound` in scope gives, changing `before` into `after`: a literal
/// becomes one new constant node (refused only when the program cannot grow); a decimal is
/// refused as an internal error; a name is the node of its first binding, with nothing added,
/// or refused when nothing binds it; a call gives a new node that records the call, or, with a
/// mapper, a new node that maps its memoized value.
pub open spec fn compiled(e: Expr, bound: Seq<BoundArgument>, before: Runtime, after: Runtime, r: Result<usize, CompileError>) -> bool {
    match e {
        Expr::DecimalLiteral(_) => r matches Err(err) && err.error_type is InternalError,
        Expr::ArgumentUsage(name) => match first_binding(bound, name@) {
            Some(v) => r == Ok::<usize, CompileError>(v) && after == before,
            None => r matches Err(err) && err.error_type matches ErrorType::NoSuchArgument(n) && n@ == name@,
        },
        Expr::Function(call) => r matches Ok(i) ==> match call.mapper {
            None => after.node_views()[i as int] matches NodeView::Traced { name, .. } && name == call.function_name@,
            Some(_) => after.node_views()[i as int] is Mapped,
        },
        _ => match literal_value(e) {
            Some((v, t)) => {
                &&& (r is Ok <==> before.node_views().len() < usize::MAX - 1)
                &&& r matches Ok(i) ==> i == before.node_views().len() && after.node_views() == before.node_views().push(
                    NodeView::Const(v),
                ) && after.node_types() == before.node_types().push(t)
            },
            None => true,
        },
    }
}

impl Compiler {
    fn function_at(&self, r: FunctionRef) -> (f: &FunctionPrototype)
        requires
            self.ref_valid(r),
        ensures
            *f == self.ref_proto(r),
    {
        match r {
            FunctionRef::Builtin(k) => &self.builtins[k],
            FunctionRef::InModule(m, k) => self.modules[m].function(k),
        }
    }

    /// Adds a node, unless the program has grown too large to index.
    fn add_node(rt: &mut Runtime, node: Node, t: GenType, source: &SourceRef) -> (r: Result<usize, CompileError>)
        requires
            old(rt).wf(),
            t != GenType::Decimal,
            crate::runtime::node_ok(old(rt).node_views().push(node@), old(rt).node_types().push(t), old(rt).node_views().len() as int),
        ensures
            final(rt).wf(),
            final(rt).extends(old(rt)),
            r is Ok <==> old(rt).node_views().len() < usize::MAX - 1,
            r matches Err(e) ==> e.error_type is InternalError,
            r matches Ok(i) ==> i == old(rt).node_views().len() && final(rt).node_views() == old(rt).node_views().push(node@)
                && final(rt).node_types() == old(rt).node_types().push(t),
    {
        proof {
            rt.lemma_wf();
        }
        if rt.len() >= usize::MAX - 1 {
            return Err(internal(source, "the program is too large"));
        }
        Ok(rt.add(node, t))
    }

    /// Compiles `expr`, read from `source`, with the names in `bound` in scope; gives the node
    /// that generates its values. Calls of user-defined functions may nest `depth` deep.
    pub fn compile_expr(
        &self,
        rt: &mut Runtime,
        source: &Arc<Source>,
        expr: &WithSpan<Expr>,
        bound: &Vec<BoundArgument>,
        depth: usize,
    ) -> (r: Result<usize, CompileError>)
        requires
            self.wf(),
            old(rt).wf(),
            bound_ok(bound@, old(rt).node_views().len()),
        ensures
            final(rt).wf(),
            final(rt).extends(old(rt)),
            r matches Ok(i) ==> i < final(rt).node_views().len(),
            compiled(expr.value, bound@, *old(rt), *final(rt), r),
            r matches Err(err) ==> self.refusal_ok(err.error_type),
        decreases depth, expr_ntoks(expr.value),
    {
        proof {
            rt.lemma_wf();
        }
        let source_ref = SourceRef::new(source.clone(), crate::ast::Span { start: expr.span.start, end: expr.span.end });
        match &expr.value {
            Expr::BooleanLiteral(b) => Self::add_node(rt, Node::Const(Value::Boolean(*b)), GenType::Boolean, &source_ref),
            Expr::IntLiteral(n) => Self::add_node(rt, Node::Const(Value::Uint(*n)), GenType::Uint, &source_ref),
            Expr::SignedIntLiteral(n) => Self::add_node(rt, Node::Const(Value::Int(*n)), GenType::Int, &source_ref),
            Expr::CharLiteral(c) => Self::add_node(rt, Node::Const(Value::Char(*c)), GenType::Char, &source_ref),
            Expr::StringLiteral(st) => Self::add_node(rt, Node::Const(Value::String(st.clone())), GenType::String, &source_ref),
            Expr::BinaryLiteral(bytes) => {
                Self::add_node(rt, Node::Const(Value::Bin(crate::runtime::copy_bytes(bytes))), GenType::Bin, &source_ref)
            },
            Expr::DecimalLiteral(_) => Err(internal(&source_ref, "Decimal values are not supported")),
            Expr::ArgumentUsage(name) => {
                match find_bound(bound, name) {
                    Some(v) => Ok(v),
                    None => Err(error_at(&source_ref, ErrorType::NoSuchArgument(name.clone()))),
                }
            },
            Expr::Function(call) => {
                let ghost rt0 = *rt;
                let mut arg_nodes: Vec<usize> = Vec::new();
                let mut arg_types: Vec<GenType> = Vec::new();
                let mut k: usize = 0;
                while k < call.args.len()
                    invariant
                        self.wf(),
                        rt.wf(),
                        rt.extends(&rt0),
                        rt0.extends(old(rt)),
                        bound_ok(bound@, rt.node_views().len()),
                        expr.value == Expr::Function(*call),
                        0 <= k <= call.args@.len(),
                        arg_nodes@.len() == k,
                        arg_types@.len() == k,
                        forall|j: int| 0 <= j < k ==> (#[trigger] arg_nodes@[j]) < rt.node_views().len()
                            && arg_types@[j] == rt.node_types()[arg_nodes@[j] as int],
                    decreases call.args@.len() - k,
                {
                    proof {
                        lemma_arg_smaller(call.args@, k as int);
                    }
                    let ghost before = *rt;
                    let res = self.compile_expr(rt, source, &call.args[k], bound, depth);
                    proof {
                        Runtime::lemma_extends_trans(rt, &before, &rt0);
                        Runtime::lemma_extends_trans(rt, &rt0, old(rt));
                    }
                    let i = match res {
                        Ok(i) => i,
                        Err(e) => {
                            return Err(e);
                        },
                    };
                    proof {
                        assert forall|j: int| 0 <= j < k implies (#[trigger] arg_nodes@[j]) < rt.node_views().len()
                            && arg_types@[j] == rt.node_types()[arg_nodes@[j] as int] by {
                            Runtime::lemma_extends_keeps(rt, &before, arg_nodes@[j] as int);
                        }
                        assert forall|j: int| 0 <= j < bound@.len() implies (#[trigger] bound@[j]).value < rt.node_views().len() by {
                            Runtime::lemma_extends_keeps(rt, &before, bound@[j].value as int);
                        }
                    }
                    let t = rt.type_of(i);
                    arg_nodes.push(i);
                    arg_types.push(t);
                    k = k + 1;
                }
                proof {
                    Runtime::lemma_extends_trans(rt, &rt0, old(rt));
                    rt.lemma_wf();
                }
                let ghost rt1 = *rt;
                let name = &call.function_name;
                let resolved: usize = match find_bound(bound, name) {
                    Some(v) => v,
                    None => {
                        match self.resolve(name.as_str(), &arg_types) {
                            Resolution::Found(fref) => {
                                let res = self.apply(fref, rt, &source_ref, &arg_nodes, depth);
                                proof {
                                    Runtime::lemma_extends_trans(rt, &rt1, old(rt));
                                }
                                match res {
                                    Ok(v) => v,
                                    Err(e) => {
                                        return Err(e);
                                    },
                                }
                            },
                            Resolution::NotFound => {
                                return Err(error_at(&source_ref, ErrorType::NoSuchMethod(called_signature(name, &arg_types))));
                            },
                            Resolution::NoSuchModule => {
                                let module_name = match split_module_and_function(name.as_str()) {
                                    Some((m, _)) => m,
                                    None => name.clone(),
                                };
                                return Err(error_at(&source_ref, ErrorType::NoSuchModule(module_name)));
                            },
                            Resolution::Ambiguous(a, b) => {
                                let call_sig = AmbiguousCall {
                                    called: called_signature(name, &arg_types),
                                    option1: prototype_signature(self.function_at(a)),
                                    option2: prototype_signature(self.function_at(b)),
                                };
                                return Err(error_at(&source_ref, ErrorType::AmbiguousFunctionCall(call_sig)));
                            },
                        }
                    },
                };
                proof {
                    rt.lemma_wf();
                    assert forall|j: int| 0 <= j < bound@.len() implies (#[trigger] bound@[j]).value < rt.node_views().len() by {
                        Runtime::lemma_extends_keeps(rt, old(rt), bound@[j].value as int);
                    }
                }
                let t = rt.type_of(resolved);
                let ghost rt2 = *rt;
                if rt.len() >= usize::MAX - 1 {
                    return Err(internal(&source_ref, "the program is too large"));
                }
                let wrapped = wrap(rt, resolved, name.clone(), source_ref.clone());
                proof {
                    Runtime::lemma_extends_trans(rt, &rt2, old(rt));
                }
                match &call.mapper {
                    None => Ok(wrapped),
                    Some(mapper) => {
                        let ghost rt3 = *rt;
                        proof {
                            rt.lemma_wf();
                        }
                        let memo = crate::choice::create_arg(rt, wrapped);
                        proof {
                            Runtime::lemma_extends_trans(rt, &rt3, old(rt));
                        }
                        let memo = match memo {
                            Some(m) => m,
                            None => {
                                return Err(internal(&source_ref, "the program is too large"));
                            },
                        };
                        let mut all_bound: Vec<BoundArgument> = Vec::new();
                        all_bound.push(BoundArgument::new(mapper.arg_name.clone(), memo));
                        let mut j: usize = 0;
                        while j < bound.len()
                            invariant
                                rt.wf(),
                                rt.extends(old(rt)),
                                memo < rt.node_views().len(),
                                bound_ok(bound@, old(rt).node_views().len()),
                                bound_ok(all_bound@, rt.node_views().len()),
                                0 <= j <= bound@.len(),
                            decreases bound@.len() - j,
                        {
                            all_bound.push(BoundArgument::new(bound[j].arg_name.clone(), bound[j].value));
                            j = j + 1;
                        }
                        let ghost rt4 = *rt;
                        let body = self.compile_expr(rt, source, &mapper.mapper_body, &all_bound, depth);
                        proof {
                            Runtime::lemma_extends_trans(rt, &rt4, old(rt));
                        }
                        let body = match body {
                            Ok(b) => b,
                            Err(e) => {
                                return Err(e);
                            },
                        };
                        proof {
                            rt.lemma_wf();
                            Runtime::lemma_extends_keeps(rt, &rt4, memo as int);
                        }
                        let bt = rt.type_of(body);
                        let ghost rt5 = *rt;
                        let mapped = Self::add_node(rt, Node::Mapped { memo, body }, bt, &source_ref);
                        proof {
                            Runtime::lemma_extends_trans(rt, &rt5, old(rt));
                        }
                        mapped
                    },
                }
            },
        }
    }

    /// Builds the nodes of a call of the function at `fref` on the argument nodes `args`: a
    /// builtin makes its nodes; a user-defined function compiles its body with its parameters
    /// bound to the arguments, one level deeper.
    fn apply(
        &self,
        fref: FunctionRef,
        rt: &mut Runtime,
        source_ref: &SourceRef,
        args: &Vec<usize>,
        depth: usize,
    ) -> (r: Result<usize, CompileError>)
        requires
            self.wf(),
            self.ref_valid(fref),
            old(rt).wf(),
            forall|j: int| 0 <= j < args@.len() ==> #[trigger] args@[j] < old(rt).node_views().len(),
        ensures
            final(rt).wf(),
            final(rt).extends(old(rt)),
            r matches Ok(i) ==> i < final(rt).node_views().len(),
            self.ref_proto(fref) matches FunctionPrototype::Builtin(b) ==> (r is Ok <==> old(rt).node_views().len()
                < usize::MAX - 2 && builds(b.kind, types_of(*old(rt), args@))),
            r matches Err(err) ==> self.refusal_ok(err.error_type),
        decreases depth, 0nat,
    {
        proof {
            rt.lemma_wf();
        }
        match self.function_at(fref) {
            FunctionPrototype::Builtin(b) => {
                if rt.len() >= usize::MAX - 2 {
                    return Err(internal(source_ref, "the program is too large"));
                }
                match create_builtin(b.kind, b.function_name, args, rt) {
                    Ok(i) => Ok(i),
                    Err(m) => Err(error_at(source_ref, ErrorType::InternalError(m))),
                }
            },
            FunctionPrototype::Interpreted(ip) => {
                if depth == 0 {
                    return Err(internal(source_ref, "calls of user defined functions are nested too deeply"));
                }
                let mut bound: Vec<BoundArgument> = Vec::new();
                let mut j: usize = 0;
                while j < ip.arguments.len() && j < args.len()
                    invariant
                        0 <= j <= args@.len(),
                        forall|x: int| 0 <= x < args@.len() ==> #[trigger] args@[x] < rt.node_views().len(),
                        bound_ok(bound@, rt.node_views().len()),
                    decreases args@.len() - j,
                {
                    bound.push(BoundArgument::new(ip.arguments[j].name.clone(), args[j]));
                    j = j + 1;
                }
                self.compile_expr(rt, &ip.source_ref.source, &ip.body, &bound, depth - 1)
            },
        }
    }
}


/// A function as the help lists it: the module it is in (`dgen` for builtins), its name, and
/// its prototype as text.
pub struct FunctionHelp {
    pub module_name: String,
    pub function_name: String,
    pub text: String,
}

/// The functions of the modules with the names of their modules, module by module.
pub open spec fn module_entries(ms: Seq<Module>) -> Seq<(Seq<char>, FunctionPrototype)>
    decreases ms.len(),
{
    if ms.len() == 0 {
        Seq::empty()
    } else {
        module_entries(ms.drop_last()) + ms.last().functions().map_values(
            |f: FunctionPrototype| (ms.last().name_view(), f),
        )
    }
}

/// `h` lists the function `f` of the module named `module`.
pub open spec fn lists(h: FunctionHelp, module: Seq<char>, f: FunctionPrototype) -> bool {
    h.module_name@ == module && h.function_name@ == proto_name(f) && h.text@ == proto_text(f)
}

proof fn lemma_module_entries_take(ms: Seq<Module>, m: int)
    requires
        0 <= m < ms.len(),
    ensures
        module_entries(ms.take(m + 1)) == module_entries(ms.take(m)) + ms[m].functions().map_values(
            |f: FunctionPrototype| (ms[m].name_view(), f),
        ),
{
    assert(ms.take(m + 1).drop_last() =~= ms.take(m));
}

impl Compiler {
    /// Every function: those of the modules, module by module, then the builtins.
    pub fn function_help(&self) -> (h: Vec<FunctionHelp>)
        ensures
            h@.len() == module_entries(self.module_list()).len() + self.builtin_fns().len(),
            forall|k: int| #![trigger h@[k]] 0 <= k < module_entries(self.module_list()).len() ==> lists(
                h@[k],
                module_entries(self.module_list())[k].0,
                module_entries(self.module_list())[k].1,
            ),
            forall|k: int| #![trigger self.builtin_fns()[k]] 0 <= k < self.builtin_fns().len() ==> lists(
                h@[module_entries(self.module_list()).len() + k],
                "dgen"@,
                self.builtin_fns()[k],
            ),
    {
        let mut out: Vec<FunctionHelp> = Vec::new();
        let ghost ms = self.module_list();
        let mut m: usize = 0;
        assert(module_entries(ms.take(0)) =~= Seq::<(Seq<char>, FunctionPrototype)>::empty());
        while m < self.modules.len()
            invariant
                ms == self.module_list(),
                0 <= m <= ms.len(),
                out@.len() == module_entries(ms.take(m as int)).len(),
                forall|k: int| #![trigger out@[k]] 0 <= k < out@.len() ==> lists(
                    out@[k],
                    module_entries(ms.take(m as int))[k].0,
                    module_entries(ms.take(m as int))[k].1,
                ),
            decreases ms.len() - m,
        {
            proof {
                lemma_module_entries_take(ms, m as int);
            }
            let module = &self.modules[m];
            let ghost before = module_entries(ms.take(m as int));
            let ghost added = ms[m as int].functions().map_values(|f: FunctionPrototype| (ms[m as int].name_view(), f));
            let mut k: usize = 0;
            while k < module.function_count()
                invariant
                    *module == ms[m as int],
                    0 <= k <= module.functions().len(),
                    added == module.functions().map_values(|f: FunctionPrototype| (module.name_view(), f)),
                    out@.len() == before.len() + k,
                    forall|j: int| #![trigger out@[j]] 0 <= j < out@.len() ==> lists(out@[j], (before + added)[j].0, (before + added)[j].1),
                decreases module.functions().len() - k,
            {
                let f = module.function(k);
                out.push(FunctionHelp {
                    module_name: module.name().clone(),
                    function_name: String::from_str(f.name()),
                    text: string_from_chars(f.render().as_slice()),
                });
                proof {
                    assert((before + added)[before.len() + k] == added[k as int]);
                }
                k = k + 1;
            }
            m = m + 1;
        }
        assert(ms.take(ms.len() as int) =~= ms);
        let ghost me = module_entries(ms);
        let mut k: usize = 0;
        let ghost start = out@.len();
        while k < self.builtins.len()
            invariant
                me == module_entries(self.module_list()),
                start == me.len(),
                0 <= k <= self.builtins@.len(),
                out@.len() == start + k,
                forall|j: int| #![trigger out@[j]] 0 <= j < me.len() ==> lists(out@[j], me[j].0, me[j].1),
                forall|j: int| #![trigger self.builtins@[j]] 0 <= j < k ==> lists(out@[start + j], "dgen"@, self.builtins@[j]),
            decreases self.builtins@.len() - k,
        {
            let f = &self.builtins[k];
            out.push(FunctionHelp {
                module_name: String::from_str("dgen"),
                function_name: String::from_str(f.name()),
                text: string_from_chars(f.render().as_slice()),
            });
            k = k + 1;
        }
        out
    }
}

/// The string literals of an expression, in the order they are written.
pub open spec fn expr_literals(e: Expr) -> Seq<Seq<char>>
    decreases e,
{
    match e {
        Expr::StringLiteral(s) => seq![s@],
        Expr::Function(call) => args_literals(call.args@) + match call.mapper {
            Some(m) => expr_literals(m.mapper_body.value),
            None => Seq::empty(),
        },
        _ => Seq::empty(),
    }
}

/// The string literals of a list of arguments, in order.
pub open spec fn args_literals(args: Seq<WithSpan<Expr>>) -> Seq<Seq<char>>
    decreases args,
{
    if args.len() == 0 {
        Seq::empty()
    } else {
        args_literals(args.drop_last()) + expr_literals(args.last().value)
    }
}

/// Appends the string literals of `e` to `out`, in the order they are written.
pub fn collect_string_literals(e: &WithSpan<Expr>, out: &mut Vec<String>)
    ensures
        final(out)@.map_values(|s: String| s@) == old(out)@.map_values(|s: String| s@) + expr_literals(e.value),
    decreases expr_ntoks(e.value),
{
    let ghost start = out@.map_values(|s: String| s@);
    match &e.value {
        Expr::StringLiteral(s) => {
            out.push(s.clone());
            assert(out@.map_values(|s: String| s@) =~= start + seq![s@]);
        },
        Expr::Function(call) => {
            let mut k: usize = 0;
            while k < call.args.len()
                invariant
                    e.value == Expr::Function(*call),
                    0 <= k <= call.args@.len(),
                    out@.map_values(|s: String| s@) == start + args_literals(call.args@.take(k as int)),
                decreases call.args@.len() - k,
            {
                proof {
                    lemma_arg_smaller(call.args@, k as int);
                    assert(call.args@.take(k as int + 1).drop_last() =~= call.args@.take(k as int));
                }
                collect_string_literals(&call.args[k], out);
                k = k + 1;
                assert(out@.map_values(|s: String| s@) =~= start + args_literals(call.args@.take(k as int)));
            }
            assert(call.args@.take(call.args@.len() as int) =~= call.args@);
            match &call.mapper {
                Some(m) => {
                    collect_string_literals(&m.mapper_body, out);
                    assert(out@.map_values(|s: String| s@) =~= start + expr_literals(e.value));
                },
                None => {
                    assert(out@.map_values(|s: String| s@) =~= start + expr_literals(e.value));
                },
            }
        },
        _ => {
            assert(out@.map_values(|s: String| s@) =~= start + expr_literals(e.value));
        },
    }
}

} // verus!
