//! The interpreter: adds libraries and compiles programs into a runtime.

use vstd::prelude::*;
use std::sync::Arc;
use crate::compiler::{
    compile_error_text, compiled, error_type_countable, lists, module_entries, BoundArgument, CompileError,
    Compiler, MAX_CALL_DEPTH,
};
use crate::context::{error_text, ProgramRuntimeError};
use crate::errors::{region_text, showable};
use crate::module::Module;
use crate::parser::{is_program_text, parse_program, DgenParseError};
use crate::ast::{MacroArgument, MacroDef, Program, WithSpan};
use crate::module::defined_functions;
use crate::prototype::{proto_arg_types, proto_name, same_signature, FunctionPrototype};
use crate::compiler::expr_literals;
use crate::runtime::infallible;
use crate::runtime::{Runtime, RuntimeFailure};
use crate::ast::GenType;
use crate::context::ProgramContext;
use crate::text::encode_chars_into;
use crate::source::{module_name_of, Source, UnreadSource};
use crate::stdlib::{std_libs, std_sources};
use crate::source::source_text_of;
use crate::outcome::{bytes_ok, drawn, text_ok, upto};
use crate::runtime::NodeView;
use crate::runtime::{root, sequence_position};
use vstd::utf8::encode_utf8;

verus! {

/// Why a program could not be run.
#[derive(Debug)]
pub enum DgenError {
    /// The text is not a program.
    Parse(DgenParseError),
    /// A module defines two functions with the same signature.
    Module(String),
    /// A call cannot be resolved or built.
    Compile(CompileError),
    /// A source whose text has to be read by the caller first.
    Unread(UnreadSource),
    /// The program does not end with an expression.
    NoExpression,
    /// Generating a value failed.
    Runtime(ProgramRuntimeError),
}

impl DgenError {
    /// A description of the error.
    pub fn message(&self) -> (m: String)
        ensures
            match *self {
                DgenError::Parse(e) => m@ == "Error parsing '"@ + e.source_name() + "': "@ + e.syntax().description@
                    + "\n"@ + match e.syntax().location {
                    Some(l) => region_text(e.input(), l as int),
                    None => Seq::<char>::empty(),
                },
                DgenError::Module(text) => m@ == text@,
                DgenError::Compile(e) => error_type_countable(e.error_type) && showable(e.source) ==> m@
                    == compile_error_text(e),
                DgenError::Unread(_) => m@ == "The text of the source has to be read first"@,
                DgenError::NoExpression => m@ == "The program does not end with an expression. An expression is required"@,
                DgenError::Runtime(e) => e.stacktrace@.len() < 0xffff_ffff ==> (e.frames_countable() ==> m@ == error_text(e))
                    && (!e.frames_countable() ==> m@ == e.error_message@),
            },
    {
        match self {
            DgenError::Parse(e) => e.message(),
            DgenError::Module(m) => m.clone(),
            DgenError::Compile(e) => e.message(),
            DgenError::Unread(_) => String::from_str("The text of the source has to be read first"),
            DgenError::NoExpression => String::from_str(
                "The program does not end with an expression. An expression is required",
            ),
            DgenError::Runtime(e) => {
                if e.stacktrace.len() < 0xffff_ffff {
                    e.render_checked()
                } else {
                    e.error_message.clone()
                }
            },
        }
    }
}

/// `b` is an output that the last node of `p`, of type `t`, can write: the bytes of a binary,
/// the UTF-8 encoding of a text for any other type.
pub open spec fn output_ok(p: Seq<NodeView>, t: GenType, b: Seq<u8>) -> bool {
    if t == GenType::Bin {
        bytes_ok(p, b)
    } else {
        exists|s: Seq<char>| #![trigger drawn(s)] drawn(s) && text_ok(p, s) && b == encode_utf8(s)
    }
}

/// Writing node `i` once, from the state `before` to the state `after`, wrote `b`: an output
/// the node can write. When the node stands for a sequence, that sequence has been asked once
/// more and `b` is an output of the option its count picked; when it stands for a stable
/// selection, that selection has settled on an option and `b` is an output of it.
pub open spec fn wrote(before: Runtime, after: Runtime, i: usize, b: Seq<u8>) -> bool {
    let views = before.node_views();
    let t = before.node_types()[i as int];
    let j = root(views, i as int);
    &&& after.same_program(&before)
    &&& after.keeps_choices(&before)
    &&& output_ok(upto(views, i), t, b)
    &&& views[j] matches NodeView::Sequence { values, wrapping } ==> {
        &&& after.counter(j) == before.counter(j).wrapping_add(1)
        &&& output_ok(upto(views, values[sequence_position(before.counter(j) as int, values.len() as int, wrapping)]), t, b)
    }
    &&& views[j] matches NodeView::StableSelect(os) ==> {
        &&& after.chosen_option(j) matches Some(c) && c < os.len()
        &&& output_ok(upto(views, os[after.chosen_option(j).unwrap() as int]), t, b)
    }
}

/// The name and declared argument types of a function.
pub open spec fn signature(f: FunctionPrototype) -> (Seq<char>, Seq<GenType>) {
    (proto_name(f), proto_arg_types(f))
}

/// The name and declared argument types of a definition.
pub open spec fn def_signature(d: WithSpan<MacroDef>) -> (Seq<char>, Seq<GenType>) {
    (d.value.name@, d.value.args@.map_values(|a: MacroArgument| a.arg_type))
}

/// Adding the definitions `defs` to the module named `name` of `c` would give that module two
/// functions with the same signature: two of the definitions have one, or one has the
/// signature of a function the module already holds.
pub open spec fn defs_clash(c: Compiler, name: Seq<char>, defs: Seq<WithSpan<MacroDef>>) -> bool {
    ||| exists|i: int, j: int|
        0 <= i < j < defs.len() && #[trigger] def_signature(defs[i]) == #[trigger] def_signature(defs[j])
    ||| (c.module_index(name) matches Some(m) && exists|a: int, b: int|
        0 <= a < c.module_list()[m].functions().len() && 0 <= b < defs.len() && signature(
            #[trigger] c.module_list()[m].functions()[a],
        ) == #[trigger] def_signature(defs[b]))
}

/// `cs` are the compilers that adding the first `n` standard libraries to `c0` goes through:
/// each library's text is the program in `ps`, whose definitions it adds.
pub open spec fn std_added(c0: Compiler, cs: Seq<Compiler>, ps: Seq<Program>, n: int) -> bool {
    &&& 0 <= n <= std_sources().len()
    &&& cs.len() == n + 1
    &&& ps.len() == n
    &&& cs[0] == c0
    &&& forall|k: int|
        0 <= k < n ==> #[trigger] is_program_text(source_text_of(std_sources()[k]), ps[k]) && adds_definitions(
            cs[k],
            cs[k + 1],
            module_name_of(std_sources()[k]),
            ps[k].assignments@,
        )
}

/// `new` is `old` with the definitions `defs` added to the module named `name`: a new module
/// at the end, or the existing module of that name with the definitions after its functions.
pub open spec fn adds_definitions(old: Compiler, new: Compiler, name: Seq<char>, defs: Seq<WithSpan<MacroDef>>) -> bool {
    &&& new.builtin_fns() == old.builtin_fns()
    &&& match old.module_index(name) {
        None => {
            &&& new.module_list().len() == old.module_list().len() + 1
            &&& new.module_list().drop_last() == old.module_list()
            &&& new.module_list().last().name_view() == name
            &&& new.module_list().last().functions().map_values(|f: FunctionPrototype| signature(f)) == defs.map_values(
                |d: WithSpan<MacroDef>| def_signature(d),
            )
        },
        Some(m) => {
            &&& new.module_list().len() == old.module_list().len()
            &&& forall|j: int| 0 <= j < old.module_list().len() && j != m ==> #[trigger] new.module_list()[j] == old.module_list()[j]
            &&& new.module_list()[m].name_view() == name
            &&& new.module_list()[m].functions().map_values(|f: FunctionPrototype| signature(f)) == old.module_list()[m].functions().map_values(
                |f: FunctionPrototype| signature(f),
            ) + defs.map_values(|d: WithSpan<MacroDef>| def_signature(d))
        },
    }
}

/// The prototypes that a source gives its definitions have the definitions' signatures.
proof fn lemma_defined_signatures(source: Arc<Source>, defs: Seq<WithSpan<MacroDef>>)
    ensures
        defined_functions(source, defs).map_values(|f: FunctionPrototype| signature(f)) == defs.map_values(
            |d: WithSpan<MacroDef>| def_signature(d),
        ),
{
    assert(defined_functions(source, defs).map_values(|f: FunctionPrototype| signature(f)) =~= defs.map_values(
        |d: WithSpan<MacroDef>| def_signature(d),
    ));
}

/// Compiles sources into the nodes of a runtime.
pub struct Interpreter {
    internal: Compiler,
    runtime: Runtime,
}

impl Interpreter {
    pub closed spec fn wf(&self) -> bool {
        self.internal.wf() && self.runtime.wf()
    }

    /// The compiled program so far.
    pub closed spec fn program(&self) -> Runtime {
        self.runtime
    }

    pub fn new() -> (i: Interpreter)
        ensures
            i.wf(),
            i.compiler().module_list().len() == 0,
            i.program().node_views().len() == 0,
    {
        Interpreter { internal: Compiler::new(), runtime: Runtime::new() }
    }

    /// Adds the standard libraries.
    pub fn add_std_lib(&mut self) -> (r: Result<(), DgenError>)
        requires
            old(self).wf(),
        ensures
            final(self).wf(),
            final(self).program() == old(self).program(),
            final(self).compiler().builtin_fns() == old(self).compiler().builtin_fns(),
            r is Ok ==> exists|cs: Seq<Compiler>, ps: Seq<Program>|
                #![trigger drawn((cs, ps))]
                drawn((cs, ps)) && std_added(old(self).compiler(), cs, ps, std_sources().len() as int)
                    && final(self).compiler() == cs.last(),
            r matches Err(e) ==> e is Parse || e is Module,
            r matches Err(DgenError::Parse(_)) ==> exists|cs: Seq<Compiler>, ps: Seq<Program>, k: int|
                #![trigger drawn((cs, ps, k))]
                drawn((cs, ps, k)) && 0 <= k < std_sources().len() && std_added(old(self).compiler(), cs, ps, k) && (
                source_text_of(std_sources()[k]).len() >= usize::MAX - 16 || crate::text::byte_len(
                    source_text_of(std_sources()[k]),
                ) >= usize::MAX - 16 || forall|p: Program| !(#[trigger] is_program_text(source_text_of(std_sources()[k]), p))),
            r matches Err(DgenError::Module(_)) ==> exists|cs: Seq<Compiler>, ps: Seq<Program>, k: int, p: Program|
                #![trigger drawn((cs, ps, k, p))]
                drawn((cs, ps, k, p)) && 0 <= k < std_sources().len() && std_added(old(self).compiler(), cs, ps, k)
                    && is_program_text(source_text_of(std_sources()[k]), p) && defs_clash(
                    cs[k],
                    module_name_of(std_sources()[k]),
                    p.assignments@,
                ),
    {
        let mut libs = std_libs();
        let mut rev: Vec<UnreadSource> = Vec::new();
        while libs.len() > 0
            invariant
                libs@ == std_sources().take(libs@.len() as int),
                rev@.len() + libs@.len() == 5,
                forall|j: int| 0 <= j < rev@.len() ==> rev@[j] == std_sources()[4 - j],
            decreases libs@.len(),
        {
            let ghost n = libs@.len() as int;
            let x = libs.pop().unwrap();
            rev.push(x);
            assert(libs@ =~= std_sources().take(libs@.len() as int));
        }
        let ghost c0 = self.compiler();
        let ghost mut cs: Seq<Compiler> = seq![c0];
        let ghost mut ps: Seq<Program> = Seq::empty();
        while rev.len() > 0
            invariant
                self.wf(),
                self.program() == old(self).program(),
                self.compiler().builtin_fns() == old(self).compiler().builtin_fns(),
                c0 == old(self).compiler(),
                rev@.len() <= 5,
                forall|j: int| 0 <= j < rev@.len() ==> rev@[j] == std_sources()[4 - j],
                std_added(c0, cs, ps, 5 - rev@.len()),
                self.compiler() == cs.last(),
            decreases rev@.len(),
        {
            let ghost k = 5 - rev@.len() as int;
            let lib = rev.pop().unwrap();
            assert(lib == std_sources()[k]);
            let ghost before = self.compiler();
            match Source::read(lib) {
                Ok(source) => {
                    let ghost text = source.text_view();
                    let ghost origin = source.origin();
                    match self.add_module(source) {
                        Ok(()) => {
                            proof {
                                let p = choose|p: Program| #![trigger is_program_text(text, p)] is_program_text(text, p)
                                    && adds_definitions(before, self.compiler(), module_name_of(origin), p.assignments@);
                                let ocs = cs;
                                let ops = ps;
                                cs = cs.push(self.compiler());
                                ps = ps.push(p);
                                assert forall|j: int| 0 <= j < k + 1 implies #[trigger] is_program_text(
                                    source_text_of(std_sources()[j]),
                                    ps[j],
                                ) && adds_definitions(cs[j], cs[j + 1], module_name_of(std_sources()[j]), ps[j].assignments@) by {
                                    if j < k {
                                        assert(cs[j] == ocs[j] && cs[j + 1] == ocs[j + 1] && ps[j] == ops[j]);
                                        assert(is_program_text(source_text_of(std_sources()[j]), ops[j]));
                                    }
                                }
                            }
                        },
                        Err(e) => {
                            proof {
                                assert(drawn((cs, ps, k)));
                                if e is Module {
                                    let p = choose|p: Program| #![trigger is_program_text(text, p)] is_program_text(text, p)
                                        && defs_clash(before, module_name_of(origin), p.assignments@);
                                    assert(drawn((cs, ps, k, p)));
                                }
                            }
                            return Err(e);
                        },
                    }
                },
                Err(u) => {
                    proof {
                        assert(false);
                    }
                    return Err(DgenError::Unread(u));
                },
            }
        }
        assert(drawn((cs, ps)));
        Ok(())
    }

    /// Adds the definitions of `source` to the module it names. A source that ends with an
    /// expression is accepted; the expression is not compiled.
    pub fn add_module(&mut self, source: Source) -> (r: Result<(), DgenError>)
        requires
            old(self).wf(),
        ensures
            final(self).wf(),
            final(self).program() == old(self).program(),
            final(self).compiler().builtin_fns() == old(self).compiler().builtin_fns(),
            r matches Err(DgenError::Parse(e)) ==> e.input() == source.text_view(),
            r matches Err(e) ==> e is Parse || e is Module,
            r matches Err(DgenError::Parse(_)) ==> source.text_view().len() >= usize::MAX - 16 || crate::text::byte_len(
                source.text_view(),
            ) >= usize::MAX - 16 || forall|p: Program| !(#[trigger] is_program_text(source.text_view(), p)),
            r matches Err(DgenError::Module(_)) ==> exists|p: Program| #![trigger is_program_text(source.text_view(), p)]
                is_program_text(source.text_view(), p) && defs_clash(
                    old(self).compiler(),
                    module_name_of(source.origin()),
                    p.assignments@,
                ),
            r is Ok ==> exists|p: Program| #![trigger is_program_text(source.text_view(), p)]
                is_program_text(source.text_view(), p) && adds_definitions(
                    old(self).compiler(),
                    final(self).compiler(),
                    module_name_of(source.origin()),
                    p.assignments@,
                ),
    {
        let module_name = source.module_name();
        let ghost text = source.text_view();
        let ghost origin = source.origin();
        let parsed = match parse_program(module_name, source.text()) {
            Ok(p) => p,
            Err(e) => {
                return Err(DgenError::Parse(e));
            },
        };
        let ghost defs = parsed.assignments@;
        let ghost whole = parsed;
        let shared = Arc::new(source);
        proof {
            lemma_defined_signatures(shared, defs);
        }
        let module = match Module::new(shared, parsed.assignments) {
            Ok(m) => m,
            Err(m) => {
                proof {
                    let fs = defined_functions(shared, defs);
                    let (a, b) = choose|a: int, b: int|
                        0 <= a < b < defs.len() && same_signature(#[trigger] fs[a], #[trigger] fs[b]);
                    assert(fs.map_values(|f: FunctionPrototype| signature(f))[a] == defs.map_values(|d: WithSpan<MacroDef>| def_signature(d))[a]);
                    assert(fs.map_values(|f: FunctionPrototype| signature(f))[b] == defs.map_values(|d: WithSpan<MacroDef>| def_signature(d))[b]);
                    assert(def_signature(defs[a]) == def_signature(defs[b]));
                    assert(is_program_text(text, whole));
                    assert(defs_clash(self.internal, module_name_of(origin), whole.assignments@));
                }
                return Err(DgenError::Module(m));
            },
        };
        let ghost mfs = module.functions();
        let ghost mname = module.name_view();
        let ghost before = self.internal;
        proof {
            module.lemma_wf_distinct();
        }
        match self.internal.add_module(module) {
            Ok(()) => {
                proof {
                    assert(is_program_text(text, parsed));
                    assert(mname == module_name_of(origin));
                    match before.module_index(mname) {
                        Some(m) => {
                            assert(self.internal.module_list()[m].functions().map_values(|f: FunctionPrototype| signature(f))
                                =~= before.module_list()[m].functions().map_values(|f: FunctionPrototype| signature(f))
                                + mfs.map_values(|f: FunctionPrototype| signature(f)));
                        },
                        None => {
                            assert(self.internal.module_list().drop_last() =~= before.module_list());
                        },
                    }
                    assert(adds_definitions(before, self.internal, mname, defs));
                }
                Ok(())
            },
            Err(m) => {
                proof {
                    let mi = before.module_index(mname).unwrap();
                    let olds = before.module_list()[mi].functions();
                    before.lemma_module_wf(mi);
                    before.module_list()[mi].lemma_wf_distinct();
                    let all = olds + mfs;
                    let (a, b) = choose|a: int, b: int|
                        0 <= a < b < all.len() && same_signature(#[trigger] all[a], #[trigger] all[b]);
                    if b < olds.len() {
                        assert(all[a] == olds[a] && all[b] == olds[b]);
                        assert(false);
                    } else if a >= olds.len() {
                        assert(all[a] == mfs[a - olds.len()] && all[b] == mfs[b - olds.len()]);
                        assert(false);
                    } else {
                        let bb = b - olds.len();
                        assert(all[a] == olds[a] && all[b] == mfs[bb]);
                        assert(mfs.map_values(|f: FunctionPrototype| signature(f))[bb] == defs.map_values(|d: WithSpan<MacroDef>| def_signature(d))[bb]);
                        assert(signature(olds[a]) == def_signature(defs[bb]));
                    }
                    assert(is_program_text(text, whole));
                    assert(mname == module_name_of(origin));
                    assert(defs_clash(before, module_name_of(origin), whole.assignments@));
                }
                Err(DgenError::Module(m))
            },
        }
    }

    /// Adds the definitions of `source`, then compiles its expression, if it has one; gives
    /// the node that generates the expression's values.
    pub fn eval_any(&mut self, source: Source) -> (r: Result<Option<usize>, DgenError>)
        requires
            old(self).wf(),
        ensures
            final(self).wf(),
            final(self).program().extends(&old(self).program()),
            r matches Ok(Some(i)) ==> i < final(self).program().node_views().len(),
            r matches Err(DgenError::Parse(e)) ==> e.input() == source.text_view(),
            r matches Err(e) ==> e is Parse || e is Module || e is Compile,
            r matches Err(DgenError::Compile(err)) ==> final(self).compiler().refusal_ok(err.error_type),
            r matches Err(DgenError::Parse(_)) ==> source.text_view().len() >= usize::MAX - 16 || crate::text::byte_len(
                source.text_view(),
            ) >= usize::MAX - 16 || forall|p: Program| !(#[trigger] is_program_text(source.text_view(), p)),
            r matches Err(DgenError::Module(_)) ==> exists|p: Program| #![trigger is_program_text(source.text_view(), p)]
                is_program_text(source.text_view(), p) && defs_clash(
                    old(self).compiler(),
                    module_name_of(source.origin()),
                    p.assignments@,
                ),
            (r is Ok || r matches Err(DgenError::Compile(_))) ==> exists|p: Program| #![trigger is_program_text(source.text_view(), p)]
                is_program_text(source.text_view(), p) && adds_definitions(
                    old(self).compiler(),
                    final(self).compiler(),
                    module_name_of(source.origin()),
                    p.assignments@,
                ) && match p.expr {
                    None => r == Ok::<Option<usize>, DgenError>(None),
                    Some(e) => match r {
                        Ok(Some(i)) => compiled(e.value, Seq::empty(), old(self).program(), final(self).program(), Ok(i)),
                        Err(DgenError::Compile(err)) => compiled(
                            e.value,
                            Seq::empty(),
                            old(self).program(),
                            final(self).program(),
                            Err(err),
                        ),
                        _ => false,
                    },
                },
    {
        let module_name = source.module_name();
        let ghost text = source.text_view();
        let ghost origin = source.origin();
        proof {
            self.runtime.lemma_wf();
        }
        let parsed = match parse_program(module_name, source.text()) {
            Ok(p) => p,
            Err(e) => {
                return Err(DgenError::Parse(e));
            },
        };
        let ghost whole = parsed;
        let ghost defs = parsed.assignments@;
        let expr = parsed.expr;
        let shared = Arc::new(source);
        proof {
            lemma_defined_signatures(shared, defs);
        }
        let module = match Module::new(shared.clone(), parsed.assignments) {
            Ok(m) => m,
            Err(m) => {
                proof {
                    let fs = defined_functions(shared, defs);
                    let (a, b) = choose|a: int, b: int|
                        0 <= a < b < defs.len() && same_signature(#[trigger] fs[a], #[trigger] fs[b]);
                    assert(fs.map_values(|f: FunctionPrototype| signature(f))[a] == defs.map_values(|d: WithSpan<MacroDef>| def_signature(d))[a]);
                    assert(fs.map_values(|f: FunctionPrototype| signature(f))[b] == defs.map_values(|d: WithSpan<MacroDef>| def_signature(d))[b]);
                    assert(def_signature(defs[a]) == def_signature(defs[b]));
                    assert(is_program_text(text, whole));
                    assert(defs_clash(self.internal, module_name_of(origin), whole.assignments@));
                }
                return Err(DgenError::Module(m));
            },
        };
        let ghost mfs = module.functions();
        let ghost mname = module.name_view();
        let ghost before = self.internal;
        proof {
            module.lemma_wf_distinct();
        }
        match self.internal.add_module(module) {
            Ok(()) => {},
            Err(m) => {
                proof {
                    let mi = before.module_index(mname).unwrap();
                    let olds = before.module_list()[mi].functions();
                    before.lemma_module_wf(mi);
                    before.module_list()[mi].lemma_wf_distinct();
                    let all = olds + mfs;
                    let (a, b) = choose|a: int, b: int|
                        0 <= a < b < all.len() && same_signature(#[trigger] all[a], #[trigger] all[b]);
                    if b < olds.len() {
                        assert(all[a] == olds[a] && all[b] == olds[b]);
                        assert(false);
                    } else if a >= olds.len() {
                        assert(all[a] == mfs[a - olds.len()] && all[b] == mfs[b - olds.len()]);
                        assert(false);
                    } else {
                        let bb = b - olds.len();
                        assert(all[a] == olds[a] && all[b] == mfs[bb]);
                        assert(mfs.map_values(|f: FunctionPrototype| signature(f))[bb] == defs.map_values(|d: WithSpan<MacroDef>| def_signature(d))[bb]);
                        assert(signature(olds[a]) == def_signature(defs[bb]));
                    }
                    assert(is_program_text(text, whole));
                    assert(mname == module_name_of(origin));
                    assert(defs_clash(before, module_name_of(origin), whole.assignments@));
                }
                return Err(DgenError::Module(m));
            },
        }
        proof {
            assert(is_program_text(text, whole));
            assert(mname == module_name_of(origin));
            match before.module_index(mname) {
                Some(m) => {
                    assert(self.internal.module_list()[m].functions().map_values(|f: FunctionPrototype| signature(f))
                        =~= before.module_list()[m].functions().map_values(|f: FunctionPrototype| signature(f))
                        + mfs.map_values(|f: FunctionPrototype| signature(f)));
                },
                None => {
                    assert(self.internal.module_list().drop_last() =~= before.module_list());
                },
            }
            assert(adds_definitions(before, self.internal, mname, defs));
        }
        match expr {
            Some(e) => {
                let bound: Vec<BoundArgument> = Vec::new();
                assert(bound@ =~= Seq::<BoundArgument>::empty());
                match self.internal.compile_expr(&mut self.runtime, &shared, &e, &bound, MAX_CALL_DEPTH) {
                    Ok(i) => Ok(Some(i)),
                    Err(err) => Err(DgenError::Compile(err)),
                }
            },
            None => Ok(None),
        }
    }

    /// Like [`Interpreter::eval_any`], but the program must end with an expression.
    pub fn eval(&mut self, source: Source) -> (r: Result<usize, DgenError>)
        requires
            old(self).wf(),
        ensures
            final(self).wf(),
            final(self).program().extends(&old(self).program()),
            r matches Ok(i) ==> i < final(self).program().node_views().len(),
            r matches Err(DgenError::Parse(e)) ==> e.input() == source.text_view(),
            r matches Err(DgenError::Compile(err)) ==> final(self).compiler().refusal_ok(err.error_type),
            r matches Err(e) ==> e is Parse || e is Module || e is Compile || e is NoExpression,
            r matches Err(DgenError::Parse(_)) ==> source.text_view().len() >= usize::MAX - 16 || crate::text::byte_len(
                source.text_view(),
            ) >= usize::MAX - 16 || forall|p: Program| !(#[trigger] is_program_text(source.text_view(), p)),
            r matches Err(DgenError::Module(_)) ==> exists|p: Program| #![trigger is_program_text(source.text_view(), p)]
                is_program_text(source.text_view(), p) && defs_clash(
                    old(self).compiler(),
                    module_name_of(source.origin()),
                    p.assignments@,
                ),
            (r is Ok || r matches Err(DgenError::Compile(_)) || r matches Err(DgenError::NoExpression)) ==> exists|p: Program|
                #![trigger is_program_text(source.text_view(), p)]
                is_program_text(source.text_view(), p) && adds_definitions(
                    old(self).compiler(),
                    final(self).compiler(),
                    module_name_of(source.origin()),
                    p.assignments@,
                ) && match p.expr {
                    None => r == Err::<usize, DgenError>(DgenError::NoExpression),
                    Some(e) => match r {
                        Ok(i) => compiled(e.value, Seq::empty(), old(self).program(), final(self).program(), Ok(i)),
                        Err(DgenError::Compile(err)) => compiled(
                            e.value,
                            Seq::empty(),
                            old(self).program(),
                            final(self).program(),
                            Err(err),
                        ),
                        _ => false,
                    },
                },
    {
        let ghost text = source.text_view();
        let ghost origin = source.origin();
        let ghost before = *self;
        let r = self.eval_any(source);
        proof {
            if r is Ok || r matches Err(DgenError::Compile(_)) {
                let p = choose|p: Program| #![trigger is_program_text(text, p)] is_program_text(text, p) && adds_definitions(
                    before.compiler(),
                    self.compiler(),
                    module_name_of(origin),
                    p.assignments@,
                ) && match p.expr {
                    None => r == Ok::<Option<usize>, DgenError>(None),
                    Some(e) => match r {
                        Ok(Some(i)) => compiled(e.value, Seq::empty(), before.program(), self.program(), Ok(i)),
                        Err(DgenError::Compile(err)) => compiled(e.value, Seq::empty(), before.program(), self.program(), Err(err)),
                        _ => false,
                    },
                };
                assert(is_program_text(text, p));
            }
        }
        match r {
            Ok(Some(i)) => Ok(i),
            Ok(None) => Err(DgenError::NoExpression),
            Err(e) => Err(e),
        }
    }

    /// The compiler that holds the builtins and the modules added so far.
    pub closed spec fn compiler(&self) -> Compiler {
        self.internal
    }

    /// Every function that calls can mean, for the help: those of the modules, module by
    /// module, then the builtins.
    pub fn function_help(&self) -> (h: Vec<crate::compiler::FunctionHelp>)
        ensures
            h@.len() == module_entries(self.compiler().module_list()).len() + self.compiler().builtin_fns().len(),
            forall|k: int| #![trigger h@[k]] 0 <= k < module_entries(self.compiler().module_list()).len() ==> lists(
                h@[k],
                module_entries(self.compiler().module_list())[k].0,
                module_entries(self.compiler().module_list())[k].1,
            ),
            forall|k: int| #![trigger self.compiler().builtin_fns()[k]] 0 <= k < self.compiler().builtin_fns().len() ==> lists(
                h@[module_entries(self.compiler().module_list()).len() + k],
                "dgen"@,
                self.compiler().builtin_fns()[k],
            ),
    {
        self.internal.function_help()
    }

    /// Writes the output of node `i` to `out`: the bytes of a binary, the UTF-8 encoding of
    /// the text of anything else; what it writes is an output the node can write.
    pub fn write_output(&mut self, i: usize, ctx: &mut ProgramContext, out: &mut Vec<u8>) -> (r: Result<(), RuntimeFailure>)
        requires
            old(self).wf(),
            i < old(self).program().node_views().len(),
        ensures
            final(self).wf(),
            final(self).program().same_program(&old(self).program()),
            final(self).program().keeps_choices(&old(self).program()),
            r is Ok ==> final(out)@ == old(out)@ + final(out)@.skip(old(out)@.len() as int),
            r is Ok ==> wrote(old(self).program(), final(self).program(), i, final(out)@.skip(old(out)@.len() as int)),
            infallible(old(self).program().node_views(), i as int) ==> r is Ok,
    {
        proof {
            self.runtime.lemma_wf();
        }
        let ghost start = out@;
        let t = self.runtime.type_of(i);
        if t == GenType::Bin {
            self.runtime.emit_bytes(i, ctx, out)
        } else {
            let mut text: Vec<char> = Vec::new();
            let r = self.runtime.emit_text(i, ctx, &mut text);
            encode_chars_into(out, text.as_slice());
            proof {
                assert(text@.skip(0) =~= text@);
                assert(out@.skip(start.len() as int) =~= encode_utf8(text@));
                assert(drawn(text@));
            }
            r
        }
    }
}


/// The string literals of the definitions, one definition after another.
pub open spec fn defs_literals(defs: Seq<WithSpan<MacroDef>>) -> Seq<Seq<char>>
    decreases defs.len(),
{
    if defs.len() == 0 {
        Seq::empty()
    } else {
        defs_literals(defs.drop_last()) + expr_literals(defs.last().value.body.value)
    }
}

/// The string literals of a program: those of the definitions, then those of the expression.
pub open spec fn program_literals(p: Program) -> Seq<Seq<char>> {
    defs_literals(p.assignments@) + match p.expr {
        Some(e) => expr_literals(e.value),
        None => Seq::empty(),
    }
}

/// The string literals written in a program text, in order: those of the definitions, then
/// those of the expression; none when the text is not a program.
pub fn string_literals_of(source_text: &str) -> (lits: Vec<String>)
    ensures
        lits@.len() == 0 || exists|p: Program| #![trigger is_program_text(source_text@, p)]
            is_program_text(source_text@, p) && lits@.map_values(|s: String| s@) == program_literals(p),
        (exists|p: Program| #[trigger] is_program_text(source_text@, p)) && source_text@.len() < usize::MAX - 16
            && crate::text::byte_len(source_text@) < usize::MAX - 16 ==> exists|p: Program|
            #![trigger is_program_text(source_text@, p)]
            is_program_text(source_text@, p) && lits@.map_values(|s: String| s@) == program_literals(p),
{
    let mut out: Vec<String> = Vec::new();
    match parse_program(String::from_str("default"), source_text) {
        Ok(p) => {
            let mut k: usize = 0;
            assert(p.assignments@.take(0) =~= Seq::<WithSpan<MacroDef>>::empty());
            assert(out@.map_values(|s: String| s@) =~= Seq::<Seq<char>>::empty());
            while k < p.assignments.len()
                invariant
                    0 <= k <= p.assignments@.len(),
                    out@.map_values(|s: String| s@) == defs_literals(p.assignments@.take(k as int)),
                decreases p.assignments@.len() - k,
            {
                crate::compiler::collect_string_literals(&p.assignments[k].value.body, &mut out);
                proof {
                    assert(p.assignments@.take(k as int + 1).drop_last() =~= p.assignments@.take(k as int));
                }
                k = k + 1;
            }
            assert(p.assignments@.take(p.assignments@.len() as int) =~= p.assignments@);
            match &p.expr {
                Some(e) => crate::compiler::collect_string_literals(e, &mut out),
                None => {
                    assert(out@.map_values(|s: String| s@) =~= program_literals(p));
                },
            }
            assert(is_program_text(source_text@, p));
        },
        Err(_) => {},
    }
    out
}

} // verus!
