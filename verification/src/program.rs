//! Running programs: compiling a program with its libraries, then writing its output a given
//! number of times.

use vstd::prelude::*;
use crate::context::{ProgramContext, ProgramRuntimeError, Verbosity};
use crate::interpreter::{DgenError, Interpreter};
use crate::source::{Source, UnreadSource};
use crate::interpreter::{adds_definitions, output_ok, wrote};
use crate::ast::Program;
use crate::parser::is_program_text;
use crate::source::{module_name_of, source_text_of};
use crate::outcome::{drawn, upto};
use crate::runtime::{root, sequence_position, NodeView, Runtime};
use crate::runtime::lemma_root_range;
use crate::compiler::{compiled, Compiler};
use crate::interpreter::{defs_clash, std_added};
use crate::stdlib::std_sources;
use crate::runtime::infallible;
use crate::text::byte_len;
use crate::source::default_module_name;

verus! {

/// The states `states` that node `i` runs through from `start`, writing `outs[k]` from state
/// `k` to state `k + 1`.
pub open spec fn runs(states: Seq<Runtime>, start: Runtime, i: usize, outs: Seq<Seq<u8>>) -> bool {
    &&& states.len() == outs.len() + 1
    &&& states[0] == start
    &&& forall|k: int| 0 <= k < outs.len() ==> wrote(states[k], states[k + 1], i, #[trigger] outs[k])
}

/// A program, the libraries it may use, and the state it runs with.
pub struct Runner {
    iterations: u64,
    program: String,
    context: ProgramContext,
    interpreter: Interpreter,
}

/// The seed that makes runs repeatable.
pub const RAND_SEED: [u8; 16] = [1, 2, 3, 4, 5, 6, 7, 8, 9, 10, 11, 12, 13, 14, 15, 16];

impl Runner {
    pub closed spec fn wf(&self) -> bool {
        self.interpreter.wf()
    }

    pub closed spec fn iteration_count(&self) -> u64 {
        self.iterations
    }

    /// The interpreter that holds the libraries added so far.
    pub closed spec fn interpreter_state(&self) -> Interpreter {
        self.interpreter
    }

    /// The text of the program to run.
    pub closed spec fn program_text(&self) -> Seq<char> {
        self.program@
    }

    /// A runner that writes the output of `program` `iterations` times.
    pub fn new(iterations: u64, program: String, context: ProgramContext, interpreter: Interpreter) -> (r: Runner)
        requires
            interpreter.wf(),
        ensures
            r.wf(),
            r.iteration_count() == iterations,
            r.program_text() == program@,
            r.interpreter_state() == interpreter,
    {
        Runner { iterations, program, context, interpreter }
    }

    /// Makes the standard libraries available to the program.
    pub fn add_std_lib(&mut self) -> (r: Result<(), DgenError>)
        requires
            old(self).wf(),
        ensures
            final(self).wf(),
            final(self).iteration_count() == old(self).iteration_count(),
            final(self).program_text() == old(self).program_text(),
            final(self).interpreter_state().program() == old(self).interpreter_state().program(),
            r is Ok ==> exists|cs: Seq<Compiler>, ps: Seq<Program>|
                #![trigger drawn((cs, ps))]
                drawn((cs, ps)) && std_added(old(self).interpreter_state().compiler(), cs, ps, std_sources().len() as int)
                    && final(self).interpreter_state().compiler() == cs.last(),
            r matches Err(e) ==> e is Parse || e is Module,
            r matches Err(DgenError::Parse(_)) ==> exists|cs: Seq<Compiler>, ps: Seq<Program>, k: int|
                #![trigger drawn((cs, ps, k))]
                drawn((cs, ps, k)) && 0 <= k < std_sources().len() && std_added(old(self).interpreter_state().compiler(), cs, ps, k) && (
                source_text_of(std_sources()[k]).len() >= usize::MAX - 16 || byte_len(source_text_of(std_sources()[k]))
                    >= usize::MAX - 16 || forall|p: Program| !(#[trigger] is_program_text(source_text_of(std_sources()[k]), p))),
            r matches Err(DgenError::Module(_)) ==> exists|cs: Seq<Compiler>, ps: Seq<Program>, k: int, p: Program|
                #![trigger drawn((cs, ps, k, p))]
                drawn((cs, ps, k, p)) && 0 <= k < std_sources().len() && std_added(old(self).interpreter_state().compiler(), cs, ps, k)
                    && is_program_text(source_text_of(std_sources()[k]), p) && defs_clash(
                    cs[k],
                    module_name_of(std_sources()[k]),
                    p.assignments@,
                ),
    {
        self.interpreter.add_std_lib()
    }

    /// Makes a library held in memory available to the program; the text of a file or of
    /// standard input has to be read first and given to [`Runner::add_library_source`].
    pub fn add_library(&mut self, unread: UnreadSource) -> (r: Result<(), DgenError>)
        requires
            old(self).wf(),
        ensures
            final(self).wf(),
            final(self).iteration_count() == old(self).iteration_count(),
            (unread is File || unread is Stdin) ==> (r matches Err(DgenError::Unread(u)) && u == unread),
            (unread is String || unread is Builtin) ==> (r is Ok ==> exists|p: Program|
                #![trigger is_program_text(source_text_of(unread), p)]
                is_program_text(source_text_of(unread), p) && adds_definitions(
                    old(self).interpreter_state().compiler(),
                    final(self).interpreter_state().compiler(),
                    module_name_of(unread),
                    p.assignments@,
                )),
    {
        let ghost u0 = unread;
        match Source::read(unread) {
            Ok(source) => {
                let ghost text = source.text_view();
                let ghost origin = source.origin();
                let ghost before = self.interpreter;
                let r = self.interpreter.add_module(source);
                proof {
                    if r is Ok {
                        let p = choose|p: Program| #![trigger is_program_text(text, p)] is_program_text(text, p)
                            && adds_definitions(before.compiler(), self.interpreter.compiler(), module_name_of(origin), p.assignments@);
                        assert(text == source_text_of(u0));
                        assert(module_name_of(origin) == module_name_of(u0));
                        assert(is_program_text(source_text_of(u0), p));
                    }
                }
                r
            },
            Err(u) => Err(DgenError::Unread(u)),
        }
    }

    /// Makes a library whose text has been read available to the program.
    pub fn add_library_source(&mut self, source: Source) -> (r: Result<(), DgenError>)
        requires
            old(self).wf(),
        ensures
            final(self).wf(),
            final(self).iteration_count() == old(self).iteration_count(),
            r matches Err(DgenError::Parse(e)) ==> e.input() == source.text_view(),
            r is Ok ==> exists|p: Program| #![trigger is_program_text(source.text_view(), p)]
                is_program_text(source.text_view(), p) && adds_definitions(
                    old(self).interpreter_state().compiler(),
                    final(self).interpreter_state().compiler(),
                    module_name_of(source.origin()),
                    p.assignments@,
                ),
    {
        self.interpreter.add_module(source)
    }

    /// Compiles the program and writes its output to `out` as many times as asked; stops at
    /// the first error, after what was written before it. Each output is one that the node
    /// compiled from the program's expression can write.
    pub fn run(self, out: &mut Vec<u8>) -> (r: Result<(), DgenError>)
        requires
            self.wf(),
        ensures
            r is Ok ==> exists|prog: Program, after: Runtime, i: usize, outs: Seq<Seq<u8>>, states: Seq<Runtime>|
                #![trigger drawn((prog, after, i, outs, states))]
                drawn((prog, after, i, outs, states)) && is_program_text(self.program_text(), prog) && (prog.expr matches Some(
                    e,
                ) && compiled(e.value, Seq::empty(), self.interpreter_state().program(), after, Ok(i)))
                    && after.extends(&self.interpreter_state().program())
                    && i < after.node_views().len() && outs.len() == self.iteration_count() && final(out)@
                    == old(out)@ + outs.flatten() && (forall|k: int| #![trigger outs[k]] 0 <= k < outs.len()
                    ==> output_ok(upto(after.node_views(), i), after.node_types()[i as int], outs[k]))
                    && runs(states, after, i, outs),
            !(r matches Err(DgenError::Unread(_))),
            r matches Err(DgenError::Parse(_)) ==> self.program_text().len() >= usize::MAX - 16 || byte_len(
                self.program_text(),
            ) >= usize::MAX - 16 || forall|p: Program| !(#[trigger] is_program_text(self.program_text(), p)),
            r matches Err(DgenError::Module(_)) ==> exists|p: Program| #![trigger is_program_text(self.program_text(), p)]
                is_program_text(self.program_text(), p) && defs_clash(
                    self.interpreter_state().compiler(),
                    default_module_name(),
                    p.assignments@,
                ),
            r matches Err(DgenError::NoExpression) ==> exists|p: Program| #![trigger is_program_text(self.program_text(), p)]
                is_program_text(self.program_text(), p) && p.expr is None,
            r matches Err(DgenError::Compile(err)) ==> exists|p: Program, after: Runtime|
                #![trigger drawn((p, after))]
                drawn((p, after)) && is_program_text(self.program_text(), p) && (p.expr matches Some(e) && compiled(
                    e.value,
                    Seq::empty(),
                    self.interpreter_state().program(),
                    after,
                    Err(err),
                )),
            r matches Err(DgenError::Runtime(_)) ==> exists|prog: Program, after: Runtime, i: usize|
                #![trigger drawn((prog, after, i))]
                drawn((prog, after, i)) && is_program_text(self.program_text(), prog) && (prog.expr matches Some(e)
                    && compiled(e.value, Seq::empty(), self.interpreter_state().program(), after, Ok(i)))
                    && !infallible(after.node_views(), i as int),
    {
        let ghost self_text = self.program_text();
        let ghost self_program = self.interpreter_state().program();
        let Runner { iterations, program, mut context, mut interpreter } = self;
        let source = match Source::read(UnreadSource::String(program)) {
            Ok(s) => s,
            Err(u) => {
                return Err(DgenError::Unread(u));
            },
        };
        let ghost before = interpreter;
        let ghost text = source.text_view();
        let ghost origin = source.origin();
        let node = match interpreter.eval(source) {
            Ok(n) => n,
            Err(e) => {
                proof {
                    assert(text == self.program_text());
                    assert(module_name_of(origin) == default_module_name());
                    if e is Module {
                        let p = choose|p: Program| #![trigger is_program_text(text, p)] is_program_text(text, p) && defs_clash(
                            before.compiler(),
                            module_name_of(origin),
                            p.assignments@,
                        );
                        assert(is_program_text(self.program_text(), p));
                    }
                    if e is Compile {
                        let err = e->Compile_0;
                        let p = choose|p: Program| #![trigger is_program_text(text, p)] is_program_text(text, p)
                            && adds_definitions(before.compiler(), interpreter.compiler(), module_name_of(origin), p.assignments@)
                            && match p.expr {
                                None => Err::<usize, DgenError>(e) == Err::<usize, DgenError>(DgenError::NoExpression),
                                Some(x) => compiled(x.value, Seq::empty(), before.program(), interpreter.program(), Err(err)),
                            };
                        assert(drawn((p, interpreter.program())));
                    }
                    if e is NoExpression {
                        let p = choose|p: Program| #![trigger is_program_text(text, p)] is_program_text(text, p)
                            && adds_definitions(before.compiler(), interpreter.compiler(), module_name_of(origin), p.assignments@)
                            && match p.expr {
                                None => Err::<usize, DgenError>(e) == Err::<usize, DgenError>(DgenError::NoExpression),
                                Some(x) => false,
                            };
                        assert(is_program_text(text, p));
                    }
                }
                return Err(e);
            },
        };
        let ghost prog = choose|p: Program| #![trigger is_program_text(text, p)] is_program_text(text, p)
            && adds_definitions(before.compiler(), interpreter.compiler(), module_name_of(source.origin()), p.assignments@)
            && match p.expr {
                None => false,
                Some(e) => compiled(e.value, Seq::empty(), before.program(), interpreter.program(), Ok(node)),
            };
        let ghost after = interpreter.program();
        let ghost views = interpreter.program().node_views();
        let ghost types = interpreter.program().node_types();
        let ghost p = upto(views, node);
        let ghost start = out@;
        let ghost mut outs: Seq<Seq<u8>> = Seq::empty();
        let ghost mut states: Seq<Runtime> = seq![after];
        let mut k: u64 = 0;
        assert(out@ =~= start + outs.flatten());
        #[verifier::loop_isolation(false)]
        while k < iterations
            invariant
                interpreter.wf(),
                node < interpreter.program().node_views().len(),
                interpreter.program().node_views() == views,
                interpreter.program().node_types() == types,
                p == upto(views, node),
                0 <= k <= iterations,
                outs.len() == k,
                out@ == start + outs.flatten(),
                forall|j: int| #![trigger outs[j]] 0 <= j < outs.len() ==> output_ok(p, types[node as int], outs[j]),
                runs(states, after, node, outs),
                states.last() == interpreter.program(),
                after.extends(&self_program),
                views == after.node_views(),
                text == self_text,
                before.program() == self_program,
                is_program_text(text, prog),
                prog.expr matches Some(e) && compiled(e.value, Seq::empty(), before.program(), after, Ok(node)),
            decreases iterations - k,
        {
            let ghost before = out@;
            match interpreter.write_output(node, &mut context, out) {
                Ok(()) => {
                    proof {
                        let d = out@.skip(before.len() as int);
                        outs.lemma_flatten_push(d);
                        let ghost prev = states;
                        states = states.push(interpreter.program());
                        outs = outs.push(d);
                        assert(out@ =~= start + outs.flatten());
                        assert forall|j: int| 0 <= j < outs.len() implies wrote(states[j], states[j + 1], node, #[trigger] outs[j]) by {
                            if j < outs.len() - 1 {
                                assert(states[j] == prev[j] && states[j + 1] == prev[j + 1]);
                            }
                        }
                    }
                },
                Err(failure) => {
                    assert(drawn((prog, after, node)));
                    assert(!infallible(after.node_views(), node as int));
                    let err = match context.reset_error() {
                        Some(e) => e,
                        None => ProgramRuntimeError::new(failure.message.as_str(), context.get_verbosity()),
                    };
                    return Err(DgenError::Runtime(err));
                },
            }
            k = k + 1;
        }
        assert(drawn((prog, after, node, outs, states)));
        Ok(())
    }
}

/// Runs `program` `iterations` times with the standard libraries and the repeatable seed, at
/// the default verbosity; gives what it wrote.
pub fn run_program(iterations: u64, program: &str) -> (r: Result<Vec<u8>, DgenError>)
    ensures
        r matches Ok(written) ==> exists|prog: Program, before: Runtime, after: Runtime, i: usize, outs: Seq<Seq<u8>>, states: Seq<Runtime>|
            #![trigger drawn((prog, before, after, i, outs, states))]
            drawn((prog, before, after, i, outs, states)) && is_program_text(program@, prog) && (prog.expr matches Some(e)
                && compiled(e.value, Seq::empty(), before, after, Ok(i))) && i < after.node_views().len()
                && outs.len() == iterations && written@ == outs.flatten() && (forall|k: int| #![trigger outs[k]] 0
                <= k < outs.len() ==> output_ok(upto(after.node_views(), i), after.node_types()[i as int], outs[k]))
                && (forall|m: int| 0 <= m < after.node_views().len() ==> #[trigger] after.unrun(m))
                && runs(states, after, i, outs),
        !(r matches Err(DgenError::Unread(_))),
        r matches Err(DgenError::Parse(_)) ==> (exists|c0: Compiler, cs: Seq<Compiler>, ps: Seq<Program>, k: int|
            #![trigger drawn((c0, cs, ps, k))]
            drawn((c0, cs, ps, k)) && c0.module_list().len() == 0 && 0 <= k < std_sources().len() && std_added(
                c0,
                cs,
                ps,
                k,
            ) && (source_text_of(std_sources()[k]).len() >= usize::MAX - 16 || byte_len(source_text_of(std_sources()[k]))
                >= usize::MAX - 16 || forall|p: Program| !(#[trigger] is_program_text(source_text_of(std_sources()[k]), p))))
            || program@.len() >= usize::MAX - 16 || byte_len(program@) >= usize::MAX - 16 || forall|p: Program|
            !(#[trigger] is_program_text(program@, p)),
        r matches Err(DgenError::Module(_)) ==> (exists|c0: Compiler, cs: Seq<Compiler>, ps: Seq<Program>, k: int, p: Program|
            #![trigger drawn((c0, cs, ps, k, p))]
            drawn((c0, cs, ps, k, p)) && c0.module_list().len() == 0 && 0 <= k < std_sources().len() && std_added(
                c0,
                cs,
                ps,
                k,
            ) && is_program_text(source_text_of(std_sources()[k]), p) && defs_clash(
                cs[k],
                module_name_of(std_sources()[k]),
                p.assignments@,
            )) || (exists|c0: Compiler, cs: Seq<Compiler>, ps: Seq<Program>, p: Program|
            #![trigger drawn((c0, cs, ps, p))]
            drawn((c0, cs, ps, p)) && c0.module_list().len() == 0 && std_added(c0, cs, ps, std_sources().len() as int)
                && is_program_text(program@, p) && defs_clash(cs.last(), default_module_name(), p.assignments@)),
        r matches Err(DgenError::NoExpression) ==> exists|p: Program| #![trigger is_program_text(program@, p)]
            is_program_text(program@, p) && p.expr is None,
        r matches Err(DgenError::Compile(err)) ==> exists|p: Program, before: Runtime, after: Runtime|
            #![trigger drawn((p, before, after))]
            drawn((p, before, after)) && before.node_views().len() == 0 && is_program_text(program@, p) && (p.expr
                matches Some(e) && compiled(e.value, Seq::empty(), before, after, Err(err))),
        r matches Err(DgenError::Runtime(_)) ==> exists|prog: Program, before: Runtime, after: Runtime, i: usize|
            #![trigger drawn((prog, before, after, i))]
            drawn((prog, before, after, i)) && before.node_views().len() == 0 && is_program_text(program@, prog) && (
            prog.expr matches Some(e) && compiled(e.value, Seq::empty(), before, after, Ok(i))) && !infallible(
                after.node_views(),
                i as int,
            ),
{
    let context = ProgramContext::from_seed(RAND_SEED, Verbosity::normal());
    let mut runner = Runner::new(iterations, String::from_str(program), context, Interpreter::new());
    let ghost c0 = runner.interpreter_state().compiler();
    match runner.add_std_lib() {
        Ok(()) => {},
        Err(e) => {
            proof {
                if e is Parse {
                    let (cs, ps, k) = choose|cs: Seq<Compiler>, ps: Seq<Program>, k: int|
                        #![trigger drawn((cs, ps, k))]
                        drawn((cs, ps, k)) && 0 <= k < std_sources().len() && std_added(c0, cs, ps, k) && (
                        source_text_of(std_sources()[k]).len() >= usize::MAX - 16 || byte_len(source_text_of(std_sources()[k]))
                            >= usize::MAX - 16 || forall|p: Program| !(#[trigger] is_program_text(source_text_of(std_sources()[k]), p)));
                    assert(drawn((c0, cs, ps, k)));
                }
                if e is Module {
                    let (cs, ps, k, p) = choose|cs: Seq<Compiler>, ps: Seq<Program>, k: int, p: Program|
                        #![trigger drawn((cs, ps, k, p))]
                        drawn((cs, ps, k, p)) && 0 <= k < std_sources().len() && std_added(c0, cs, ps, k)
                            && is_program_text(source_text_of(std_sources()[k]), p) && defs_clash(
                            cs[k],
                            module_name_of(std_sources()[k]),
                            p.assignments@,
                        );
                    assert(drawn((c0, cs, ps, k, p)));
                }
            }
            return Err(e);
        },
    }
    let ghost (cs, ps) = choose|cs: Seq<Compiler>, ps: Seq<Program>|
        #![trigger drawn((cs, ps))]
        drawn((cs, ps)) && std_added(c0, cs, ps, std_sources().len() as int) && runner.interpreter_state().compiler() == cs.last();
    let mut out: Vec<u8> = Vec::new();
    let ghost before = runner.interpreter_state().program();
    let ghost ptext = runner.program_text();
    match runner.run(&mut out) {
        Ok(()) => {
            assert(out@ =~= Seq::<u8>::empty() + out@);
            proof {
                let (prog, after, i, outs, states) = choose|prog: Program, after: Runtime, i: usize, outs: Seq<Seq<u8>>, states: Seq<Runtime>|
                    #![trigger drawn((prog, after, i, outs, states))]
                    drawn((prog, after, i, outs, states)) && is_program_text(program@, prog) && (prog.expr matches Some(e)
                        && compiled(e.value, Seq::empty(), before, after, Ok(i))) && after.extends(&before)
                        && i < after.node_views().len()
                        && outs.len() == iterations && out@ == Seq::<u8>::empty() + outs.flatten() && (forall|k: int|
                        #![trigger outs[k]] 0 <= k < outs.len() ==> output_ok(
                        upto(after.node_views(), i),
                        after.node_types()[i as int],
                        outs[k],
                    )) && runs(states, after, i, outs);
                assert(before.node_views().len() == 0);
                assert(forall|m: int| 0 <= m < after.node_views().len() ==> #[trigger] after.unrun(m));
                assert(drawn((prog, before, after, i, outs, states)));
            }
            Ok(out)
        },
        Err(e) => {
            proof {
                assert(ptext == program@);
                if e is Module {
                    let p = choose|p: Program| #![trigger is_program_text(program@, p)] is_program_text(program@, p) && defs_clash(
                        cs.last(),
                        default_module_name(),
                        p.assignments@,
                    );
                    assert(drawn((c0, cs, ps, p)));
                }
                if e is Compile {
                    let err = e->Compile_0;
                    let (p, after) = choose|p: Program, after: Runtime| #![trigger drawn((p, after))] drawn((p, after))
                        && is_program_text(program@, p) && (p.expr matches Some(x) && compiled(
                        x.value,
                        Seq::empty(),
                        before,
                        after,
                        Err(err),
                    ));
                    assert(drawn((p, before, after)));
                }
                if e is Runtime {
                    let (prog, after, i) = choose|prog: Program, after: Runtime, i: usize| #![trigger drawn((prog, after, i))]
                        drawn((prog, after, i)) && is_program_text(program@, prog) && (prog.expr matches Some(x)
                        && compiled(x.value, Seq::empty(), before, after, Ok(i))) && !infallible(after.node_views(), i as int);
                    assert(drawn((prog, before, after, i)));
                }
            }
            Err(e)
        },
    }
}

/// The states of a run keep the program, and a sequence that node `i` stands for has been
/// asked once per output written.
proof fn lemma_runs_count(states: Seq<Runtime>, start: Runtime, i: usize, outs: Seq<Seq<u8>>, n: int)
    requires
        runs(states, start, i, outs),
        0 <= n <= outs.len(),
        outs.len() < usize::MAX,
        start.node_views()[root(start.node_views(), i as int)] is Sequence,
        start.counter(root(start.node_views(), i as int)) == 0,
    ensures
        states[n].same_program(&start),
        states[n].counter(root(start.node_views(), i as int)) == n,
    decreases n,
{
    if n > 0 {
        lemma_runs_count(states, start, i, outs, n - 1);
        let j = root(start.node_views(), i as int);
        assert(wrote(states[n - 1], states[n], i, outs[n - 1]));
        assert(states[n - 1].node_views() == start.node_views());
        assert(root(states[n - 1].node_views(), i as int) == j);
        assert(states[n].counter(j) == states[n - 1].counter(j).wrapping_add(1));
        assert(states[n - 1].counter(j) == n - 1);
        assert(vstd::wrapping::usize_specs::wrapping_add(states[n - 1].counter(j), 1) == n);
        assert(states[n].counter(j) == n);
    }
}

/// A program whose expression stands for a sequence that has not been asked yet writes the
/// sequence's options in order, one per output: the first option first, and then each next
/// one, staying on the last or wrapping around once the options run out.
pub proof fn lemma_sequence_in_order(states: Seq<Runtime>, start: Runtime, i: usize, outs: Seq<Seq<u8>>)
    requires
        runs(states, start, i, outs),
        outs.len() < usize::MAX,
        start.node_views()[root(start.node_views(), i as int)] is Sequence,
        start.counter(root(start.node_views(), i as int)) == 0,
    ensures
        start.node_views()[root(start.node_views(), i as int)] matches NodeView::Sequence { values, wrapping } && forall|k: int|
            0 <= k < outs.len() ==> output_ok(
                upto(start.node_views(), values[sequence_position(k, values.len() as int, wrapping)]),
                start.node_types()[i as int],
                #[trigger] outs[k],
            ),
{
    let j = root(start.node_views(), i as int);
    assert forall|k: int| 0 <= k < outs.len() implies (start.node_views()[j] matches NodeView::Sequence { values, wrapping } && output_ok(
        upto(start.node_views(), values[sequence_position(k, values.len() as int, wrapping)]),
        start.node_types()[i as int],
        #[trigger] outs[k],
    )) by {
        lemma_runs_count(states, start, i, outs, k);
        assert(wrote(states[k], states[k + 1], i, outs[k]));
        assert(states[k].node_views() == start.node_views());
        assert(states[k].node_types() == start.node_types());
    }
}

/// The stable selection that node `i` stands for settles on one option for good: every
/// output of the run is an output of the option chosen by the first.
pub proof fn lemma_stable_selection_keeps_its_choice(states: Seq<Runtime>, start: Runtime, i: usize, outs: Seq<Seq<u8>>)
    requires
        runs(states, start, i, outs),
        outs.len() > 0,
        (i as int) < start.node_views().len(),
        start.node_views()[root(start.node_views(), i as int)] is StableSelect,
    ensures
        start.node_views()[root(start.node_views(), i as int)] matches NodeView::StableSelect(os) && states[1].chosen_option(
            root(start.node_views(), i as int),
        ) matches Some(c) && c < os.len() && forall|k: int|
            0 <= k < outs.len() ==> output_ok(upto(start.node_views(), os[c as int]), start.node_types()[i as int], #[trigger] outs[k]),
{
    let j = root(start.node_views(), i as int);
    lemma_root_range(start.node_views(), i as int);
    assert(wrote(states[0], states[1], i, outs[0]));
    let c = states[1].chosen_option(j);
    assert forall|k: int| 0 <= k < outs.len() implies states[k].same_program(&start) && states[k + 1].chosen_option(j) == c by {
        lemma_runs_choice(states, start, i, outs, k, j, c);
    }
    assert forall|k: int| 0 <= k < outs.len() implies (start.node_views()[j] matches NodeView::StableSelect(os) && output_ok(
        upto(start.node_views(), os[c.unwrap() as int]),
        start.node_types()[i as int],
        #[trigger] outs[k],
    )) by {
        assert(wrote(states[k], states[k + 1], i, outs[k]));
        assert(states[k].same_program(&start));
        assert(states[k + 1].chosen_option(j) == c);
    }
}

/// Once the first output is written, the stable selection `j` keeps the option `c` it chose.
proof fn lemma_runs_choice(states: Seq<Runtime>, start: Runtime, i: usize, outs: Seq<Seq<u8>>, k: int, j: int, c: Option<usize>)
    requires
        runs(states, start, i, outs),
        0 <= k < outs.len(),
        j == root(start.node_views(), i as int),
        0 <= j < start.node_views().len(),
        start.node_views()[j] is StableSelect,
        c == states[1].chosen_option(j),
    ensures
        states[k].same_program(&start),
        states[k + 1].chosen_option(j) == c,
    decreases k,
{
    if k > 0 {
        lemma_runs_choice(states, start, i, outs, k - 1, j, c);
        assert(wrote(states[k - 1], states[k], i, outs[k - 1]));
        assert(states[k - 1].node_views() == start.node_views());
        assert(root(states[k - 1].node_views(), i as int) == j);
        assert(states[k].chosen_option(j) is Some);
    }
    assert(wrote(states[k], states[k + 1], i, outs[k]));
    assert(states[k].node_views() == start.node_views());
    assert(root(states[k].node_views(), i as int) == j);
}

} // verus!
