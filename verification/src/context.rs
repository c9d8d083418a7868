//! The state that a running program carries: its random number generator, the environment it
//! can read, how much it reports, and the error it is unwinding from.

use vstd::prelude::*;
use rand::distributions::Distribution;
use rand::prng::XorShiftRng;
use rand::{FromEntropy, SeedableRng};
use crate::ast::IString;
use crate::errors::{countable, location_text, SourceRef};
use crate::text::{chars_of, format_u64, push_all, push_padded, string_from_chars};

verus! {

#[verifier::external_type_specification]
#[verifier::external_body]
pub struct ExXorShiftRng(rand::prng::XorShiftRng);

/// rand's `XorShiftRng::from_seed`: a generator whose stream is fixed by the seed.
#[verifier::external_body]
fn rng_from_seed(seed: [u8; 16]) -> (r: XorShiftRng) {
    XorShiftRng::from_seed(seed)
}

/// rand's `FromEntropy::from_entropy`: a generator seeded from the operating system.
#[verifier::external_body]
fn rng_from_entropy() -> (r: XorShiftRng) {
    XorShiftRng::from_entropy()
}

/// rand's `Uniform::new_inclusive(lo, hi).sample(rng)` for `u64`: a value in `[lo, hi]`.
#[verifier::external_body]
fn sample_u64(rng: &mut XorShiftRng, lo: u64, hi: u64) -> (r: u64)
    requires
        lo <= hi,
    ensures
        lo <= r <= hi,
{
    rand::distributions::Uniform::new_inclusive(lo, hi).sample(rng)
}

/// rand's `Uniform::new_inclusive(lo, hi).sample(rng)` for `i64`: a value in `[lo, hi]`.
#[verifier::external_body]
fn sample_i64(rng: &mut XorShiftRng, lo: i64, hi: i64) -> (r: i64)
    requires
        lo <= hi,
    ensures
        lo <= r <= hi,
{
    rand::distributions::Uniform::new_inclusive(lo, hi).sample(rng)
}

/// rand's `Uniform::new(lo, hi).sample(rng)` for `usize`: a value in `[lo, hi)`.
#[verifier::external_body]
fn sample_usize(rng: &mut XorShiftRng, lo: usize, hi: usize) -> (r: usize)
    requires
        lo < hi,
    ensures
        lo <= r < hi,
{
    rand::distributions::Uniform::new(lo, hi).sample(rng)
}

/// rand's `Rng::gen_range(lo, hi)` for `usize`: a value in `[lo, hi)`.
#[verifier::external_body]
fn sample_range(rng: &mut XorShiftRng, lo: usize, hi: usize) -> (r: usize)
    requires
        lo < hi,
    ensures
        lo <= r < hi,
{
    rand::Rng::gen_range(rng, lo, hi)
}

/// How much a program reports on standard error: 0 is silent, 2 the default.
#[derive(Debug, Clone, Copy, PartialEq, Eq, Structural)]
pub struct Verbosity {
    pub level: u32,
}

/// The level of the default verbosity, at which errors and stack traces are reported.
pub const NORMAL_LEVEL: u32 = 2;

impl Verbosity {
    /// The default verbosity.
    pub fn normal() -> (v: Verbosity)
        ensures
            v.level == NORMAL_LEVEL,
    {
        Verbosity { level: NORMAL_LEVEL }
    }

    pub fn from_level(level: u32) -> (v: Verbosity)
        ensures
            v.level == level,
    {
        Verbosity { level }
    }

    /// More than the default.
    pub fn is_verbose(&self) -> (b: bool)
        ensures
            b == (self.level > 2),
    {
        self.level > 2
    }

    /// At least the default.
    pub fn should_print_stacktrace(&self) -> (b: bool)
        ensures
            b == (self.level >= 2),
    {
        self.level >= 2
    }

    /// At least two levels above the default.
    pub fn should_print_debug_stacktrace(&self) -> (b: bool)
        ensures
            b == (self.level >= 4),
    {
        self.level >= 4
    }
}

/// A call that was being evaluated when an error occurred.
#[derive(Debug)]
pub struct StackFrame {
    pub function_name: IString,
    pub source_ref: SourceRef,
}

/// `<name> at <description>:<line>`.
pub open spec fn frame_text(f: StackFrame) -> Seq<char> {
    f.function_name@ + " at "@ + location_text(f.source_ref)
}

/// An error that stopped a program, with the calls it passed through, innermost first.
#[derive(Debug)]
pub struct ProgramRuntimeError {
    pub verbosity: Verbosity,
    pub error_message: String,
    pub stacktrace: Vec<StackFrame>,
}

impl ProgramRuntimeError {
    pub fn new(message: &str, verbosity: Verbosity) -> (e: ProgramRuntimeError)
        ensures
            e.error_message@ == "Program Runtime Error: "@ + message@,
            e.stacktrace@.len() == 0,
            e.verbosity == verbosity,
    {
        let mut error_message = String::from_str("Program Runtime Error: ");
        error_message.append(message);
        ProgramRuntimeError { verbosity, error_message, stacktrace: Vec::new() }
    }

    /// The error as [`ProgramRuntimeError::render`] shows it, or only its message when a
    /// frame's source is too long to count lines in.
    pub fn render_checked(&self) -> (t: String)
        requires
            self.stacktrace@.len() < u64::MAX,
        ensures
            self.frames_countable() ==> t@ == error_text(*self),
            !self.frames_countable() ==> t@ == self.error_message@,
    {
        let mut k: usize = 0;
        while k < self.stacktrace.len()
            invariant
                0 <= k <= self.stacktrace@.len(),
                forall|j: int| 0 <= j < k ==> countable(#[trigger] self.stacktrace@[j].source_ref),
            decreases self.stacktrace@.len() - k,
        {
            if !self.stacktrace[k].source_ref.is_countable() {
                return self.error_message.clone();
            }
            k = k + 1;
        }
        self.render()
    }

    /// The source of every frame is short enough to count its lines.
    pub open spec fn frames_countable(&self) -> bool {
        forall|k: int| 0 <= k < self.stacktrace@.len() ==> countable(#[trigger] self.stacktrace@[k].source_ref)
    }

    /// The message, then (at the default verbosity and above) `Stacktrace: ` and one line
    /// per frame: its index right-aligned in three columns, `: `, and the frame.
    pub fn render(&self) -> (t: String)
        requires
            forall|k: int| 0 <= k < self.stacktrace@.len() ==> countable(#[trigger] self.stacktrace@[k].source_ref),
            self.stacktrace@.len() < u64::MAX,
        ensures
            t@ == error_text(*self),
    {
        let mut out = chars_of(self.error_message.as_str());
        push_all(&mut out, chars_of("\n").as_slice());
        if self.verbosity.should_print_stacktrace() {
            push_all(&mut out, chars_of("Stacktrace: \n").as_slice());
            let ghost start = out@;
            let mut k: usize = 0;
            while k < self.stacktrace.len()
                invariant
                    0 <= k <= self.stacktrace@.len(),
                    self.stacktrace@.len() < u64::MAX,
                    forall|j: int| 0 <= j < self.stacktrace@.len() ==> countable(#[trigger] self.stacktrace@[j].source_ref),
                    out@ == start + frames_text(self.stacktrace@, k as int),
                decreases self.stacktrace@.len() - k,
            {
                let f = &self.stacktrace[k];
                push_padded(&mut out, &format_u64(k as u64), 3);
                push_all(&mut out, chars_of(": ").as_slice());
                push_all(&mut out, chars_of(f.function_name.as_str()).as_slice());
                push_all(&mut out, chars_of(" at ").as_slice());
                push_all(&mut out, f.source_ref.location().as_slice());
                push_all(&mut out, chars_of("\n").as_slice());
                k = k + 1;
                proof {
                    assert(out@ =~= start + frames_text(self.stacktrace@, k as int));
                }
            }
        } else {
            assert(out@ =~= error_text(*self));
        }
        string_from_chars(out.as_slice())
    }
}

/// The lines of the first `n` frames.
pub open spec fn frames_text(frames: Seq<StackFrame>, n: int) -> Seq<char>
    decreases n,
{
    if n <= 0 {
        Seq::empty()
    } else {
        frames_text(frames, n - 1) + crate::text::pad_left(crate::text::dec_digits((n - 1) as nat), 3)
            + ": "@ + frame_text(frames[n - 1]) + "\n"@
    }
}

/// How a runtime error is reported.
pub open spec fn error_text(e: ProgramRuntimeError) -> Seq<char> {
    e.error_message@ + "\n"@ + if e.verbosity.level >= 2 {
        "Stacktrace: \n"@ + frames_text(e.stacktrace@, e.stacktrace@.len() as int)
    } else {
        Seq::empty()
    }
}

/// The state of a running program.
pub struct ProgramContext {
    rng: XorShiftRng,
    verbosity: Verbosity,
    is_unwinding: bool,
    error: Option<ProgramRuntimeError>,
    env_vars: Vec<(String, String)>,
    files: Vec<(String, Vec<u8>)>,
}

impl ProgramContext {
    pub closed spec fn verbosity(&self) -> Verbosity {
        self.verbosity
    }

    pub closed spec fn unwinding(&self) -> bool {
        self.is_unwinding
    }

    pub closed spec fn pending_error(&self) -> Option<ProgramRuntimeError> {
        self.error
    }

    pub closed spec fn env(&self) -> Seq<(String, String)> {
        self.env_vars@
    }

    /// A context whose random numbers are fixed by `seed`.
    pub fn from_seed(seed: [u8; 16], verbosity: Verbosity) -> (c: ProgramContext)
        ensures
            c.verbosity() == verbosity,
            !c.unwinding(),
            c.pending_error() is None,
            c.env().len() == 0,
            c.file_table().len() == 0,
    {
        ProgramContext::new(rng_from_seed(seed), verbosity)
    }

    /// A context seeded from the operating system.
    pub fn from_random_seed(verbosity: Verbosity) -> (c: ProgramContext)
        ensures
            c.verbosity() == verbosity,
            !c.unwinding(),
            c.pending_error() is None,
            c.env().len() == 0,
            c.file_table().len() == 0,
    {
        ProgramContext::new(rng_from_entropy(), verbosity)
    }

    pub fn new(rng: XorShiftRng, verbosity: Verbosity) -> (c: ProgramContext)
        ensures
            c.verbosity() == verbosity,
            !c.unwinding(),
            c.pending_error() is None,
            c.env().len() == 0,
            c.file_table().len() == 0,
    {
        ProgramContext { rng, verbosity, is_unwinding: false, error: None, env_vars: Vec::new(), files: Vec::new() }
    }

    /// How much the program reports.
    pub fn get_verbosity(&self) -> (v: Verbosity)
        ensures
            v == self.verbosity(),
    {
        self.verbosity
    }

    /// The files that `select_from_file` and `words` can read: path and content.
    pub closed spec fn file_table(&self) -> Seq<(String, Vec<u8>)> {
        self.files@
    }

    /// Makes the given `(path, content)` pairs readable by `select_from_file` and `words`.
    pub fn set_files(&mut self, files: Vec<(String, Vec<u8>)>)
        ensures
            final(self).file_table() == files@,
            final(self).env() == old(self).env(),
            final(self).verbosity() == old(self).verbosity(),
            final(self).unwinding() == old(self).unwinding(),
            final(self).pending_error() == old(self).pending_error(),
    {
        self.files = files;
    }

    /// The position in the file table of the first file with the given path.
    pub fn find_file(&self, path: &String) -> (r: Option<usize>)
        ensures
            r matches Some(k) ==> k < self.file_table().len() && self.file_table()[k as int].0@ == path@ && forall|j: int|
                0 <= j < k ==> (#[trigger] self.file_table()[j]).0@ != path@,
            r is None ==> forall|k: int| 0 <= k < self.file_table().len() ==> (#[trigger] self.file_table()[k]).0@ != path@,
    {
        let mut k: usize = 0;
        while k < self.files.len()
            invariant
                0 <= k <= self.files@.len(),
                forall|j: int| 0 <= j < k ==> (#[trigger] self.files@[j]).0@ != path@,
            decreases self.files@.len() - k,
        {
            if self.files[k].0 == *path {
                return Some(k);
            }
            k = k + 1;
        }
        None
    }

    /// The content of file `k` of the table.
    pub fn file_bytes(&self, k: usize) -> (b: &Vec<u8>)
        requires
            k < self.file_table().len(),
        ensures
            *b == self.file_table()[k as int].1,
    {
        &self.files[k].1
    }

    /// A random value in `[lo, hi)`, drawn as `Rng::gen_range` draws it.
    pub fn gen_range(&mut self, lo: usize, hi: usize) -> (r: usize)
        requires
            lo < hi,
        ensures
            lo <= r < hi,
            final(self).verbosity() == old(self).verbosity(),
            final(self).env() == old(self).env(),
            final(self).file_table() == old(self).file_table(),
            final(self).unwinding() == old(self).unwinding(),
            final(self).pending_error() == old(self).pending_error(),
    {
        sample_range(&mut self.rng, lo, hi)
    }

    /// Makes the given `(name, value)` pairs readable by the `env` function.
    pub fn set_env_vars(&mut self, vars: Vec<(String, String)>)
        ensures
            final(self).env() == vars@,
            final(self).verbosity() == old(self).verbosity(),
            final(self).unwinding() == old(self).unwinding(),
            final(self).pending_error() == old(self).pending_error(),
    {
        self.env_vars = vars;
    }

    /// The value of the environment variable `name`: that of its first entry.
    pub fn env_var(&self, name: &String) -> (r: Option<String>)
        ensures
            match r {
                Some(v) => exists|k: int|
                    0 <= k < self.env().len() && (#[trigger] self.env()[k]).0@ == name@ && v@
                        == self.env()[k].1@ && forall|j: int| 0 <= j < k ==> (#[trigger] self.env()[j]).0@ != name@,
                None => forall|k: int| 0 <= k < self.env().len() ==> (#[trigger] self.env()[k]).0@ != name@,
            },
    {
        let mut k: usize = 0;
        while k < self.env_vars.len()
            invariant
                0 <= k <= self.env().len(),
                self.env() == self.env_vars@,
                forall|j: int| 0 <= j < k ==> (#[trigger] self.env()[j]).0@ != name@,
            decreases self.env_vars@.len() - k,
        {
            if self.env_vars[k].0 == *name {
                return Some(self.env_vars[k].1.clone());
            }
            k = k + 1;
        }
        None
    }

    /// Records that the call `function_name` at `source_ref` failed with `message`: the first
    /// failure starts the error, and (at the default verbosity and above) every failing call
    /// adds a stack frame.
    pub fn error(&mut self, function_name: &IString, source_ref: &SourceRef, message: &str)
        ensures
            final(self).unwinding(),
            final(self).pending_error() is Some,
            !(old(self).unwinding() && old(self).pending_error() is Some) ==> final(self).pending_error().unwrap().error_message@
                == "Program Runtime Error: "@ + message@,
            old(self).unwinding() && old(self).pending_error() is Some ==> final(self).pending_error().unwrap().error_message
                == old(self).pending_error().unwrap().error_message,
            ({
                let kept = if old(self).unwinding() && old(self).pending_error() is Some {
                    old(self).pending_error().unwrap().stacktrace@
                } else {
                    Seq::empty()
                };
                let frames = final(self).pending_error().unwrap().stacktrace@;
                if old(self).verbosity().level >= 2 {
                    &&& frames.len() == kept.len() + 1
                    &&& frames.take(kept.len() as int) == kept
                    &&& frames.last().function_name@ == function_name@
                    &&& frames.last().source_ref == *source_ref
                } else {
                    frames == kept
                }
            }),
            final(self).verbosity() == old(self).verbosity(),
            final(self).env() == old(self).env(),
    {
        let ghost kept = if self.is_unwinding && self.error is Some {
            self.error.unwrap().stacktrace@
        } else {
            Seq::empty()
        };
        if !self.is_unwinding || self.error.is_none() {
            self.is_unwinding = true;
            self.error = Some(ProgramRuntimeError::new(message, self.verbosity));
        }
        if self.verbosity.should_print_stacktrace() {
            let frame = StackFrame { function_name: function_name.clone(), source_ref: source_ref.clone() };
            match self.error.take() {
                Some(mut e) => {
                    e.stacktrace.push(frame);
                    assert(e.stacktrace@.take(kept.len() as int) =~= kept);
                    self.error = Some(e);
                },
                None => {},
            }
        }
    }

    /// Ends the unwinding and hands back the error, if there was one.
    pub fn reset_error(&mut self) -> (e: Option<ProgramRuntimeError>)
        ensures
            !final(self).unwinding(),
            final(self).pending_error() is None,
            e == old(self).pending_error(),
            final(self).verbosity() == old(self).verbosity(),
            final(self).env() == old(self).env(),
    {
        self.is_unwinding = false;
        self.error.take()
    }

    /// A random value between the two bounds, inclusive, in whichever order they are given.
    pub fn gen_range_inclusive_u64(&mut self, a: u64, b: u64) -> (r: u64)
        ensures
            (a <= b ==> a <= r <= b) && (b < a ==> b <= r <= a),
            final(self).verbosity() == old(self).verbosity(),
            final(self).env() == old(self).env(),
            final(self).unwinding() == old(self).unwinding(),
            final(self).pending_error() == old(self).pending_error(),
    {
        let lo = if a < b { a } else { b };
        let hi = if a > b { a } else { b };
        sample_u64(&mut self.rng, lo, hi)
    }

    /// A random value between the two bounds, inclusive, in whichever order they are given.
    pub fn gen_range_inclusive_i64(&mut self, a: i64, b: i64) -> (r: i64)
        ensures
            (a <= b ==> a <= r <= b) && (b < a ==> b <= r <= a),
            final(self).verbosity() == old(self).verbosity(),
            final(self).env() == old(self).env(),
            final(self).unwinding() == old(self).unwinding(),
            final(self).pending_error() == old(self).pending_error(),
    {
        let lo = if a < b { a } else { b };
        let hi = if a > b { a } else { b };
        sample_i64(&mut self.rng, lo, hi)
    }

    /// A random index below `n`.
    pub fn gen_index(&mut self, n: usize) -> (r: usize)
        requires
            n > 0,
        ensures
            r < n,
            final(self).verbosity() == old(self).verbosity(),
            final(self).env() == old(self).env(),
            final(self).unwinding() == old(self).unwinding(),
            final(self).pending_error() == old(self).pending_error(),
    {
        sample_usize(&mut self.rng, 0, n)
    }
}

} // verus!
