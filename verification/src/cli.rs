//! The options of the command line program, and what they mean for a run.

use vstd::prelude::*;
use crate::context::Verbosity;
use crate::source::UnreadSource;

verus! {

/// The command line options. Paths are given as strings.
#[derive(Debug)]
pub struct CliOptions {
    /// Each occurrence raises the verbosity by one.
    pub verbose: u32,
    /// Each occurrence lowers the verbosity by one.
    pub quiet: u32,
    /// Shortcut for libraries followed by a program file: all but the last are libraries.
    pub files: Vec<String>,
    /// The program, given on the command line.
    pub program: Option<String>,
    /// The file to read the program from.
    pub program_file: Option<String>,
    /// Read the program from standard input.
    pub stdin: bool,
    /// How many times to run the program.
    pub iteration_count: u64,
    /// Library files, in the order they are added.
    pub libraries: Vec<String>,
    /// Do not add the standard libraries.
    pub no_std_lib: bool,
    /// The seed of the random number generator.
    pub seed: Option<String>,
    pub subcommand: Option<SubCommand>,
}

/// Options of the `help` command.
#[derive(Debug)]
pub struct HelpOptions {
    /// Describe the functions whose name contains this.
    pub function_name: Option<String>,
    /// Describe this module.
    pub module_name: Option<String>,
}

/// The commands besides running a program.
#[derive(Debug)]
pub enum SubCommand {
    Help(HelpOptions),
}

/// The verbosity level that `verbose` and `quiet` ask for: two, the default, plus `verbose`,
/// minus `quiet`, and never below zero.
pub open spec fn verbosity_level(verbose: u32, quiet: u32) -> int {
    if verbose + 2 >= quiet {
        verbose + 2 - quiet
    } else {
        0
    }
}

/// `u` is the file at path `p`.
pub open spec fn is_file(u: UnreadSource, p: Seq<char>) -> bool {
    u matches UnreadSource::File(q) && q@ == p
}

/// Where the program comes from, if anywhere.
pub open spec fn program_source(o: CliOptions) -> Option<UnreadSource> {
    if o.stdin {
        Some(UnreadSource::Stdin)
    } else if o.files@.len() > 0 {
        Some(UnreadSource::File(o.files@.last()))
    } else if o.program is Some {
        Some(UnreadSource::String(o.program.unwrap()))
    } else {
        match o.program_file {
            Some(f) => Some(UnreadSource::File(f)),
            None => None,
        }
    }
}

/// The paths of the libraries: the `libraries`, then all `files` but the last.
pub open spec fn library_paths(o: CliOptions) -> Seq<Seq<char>> {
    let libs = o.libraries@.map_values(|l: String| l@);
    let files = o.files@.map_values(|f: String| f@);
    if files.len() > 1 {
        libs + files.drop_last()
    } else {
        libs
    }
}

impl CliOptions {
    /// The verbosity the options ask for. The level saturates at the largest `u32`.
    pub fn get_verbosity(&self) -> (v: Verbosity)
        ensures
            self.verbose + 2 <= u32::MAX ==> v.level == verbosity_level(self.verbose, self.quiet),
    {
        let start = self.verbose.saturating_add(2);
        Verbosity::from_level(start.saturating_sub(self.quiet))
    }

    /// Where the program comes from: standard input, the last of `files`, the program given on
    /// the command line, or the program file, in that order of preference.
    pub fn get_program_source(&self) -> (r: Option<UnreadSource>)
        ensures
            match program_source(*self) {
                Some(UnreadSource::File(p)) => r matches Some(UnreadSource::File(q)) && q@ == p@,
                Some(UnreadSource::String(p)) => r matches Some(UnreadSource::String(q)) && q@ == p@,
                Some(u) => r == Some(u),
                None => r is None,
            },
    {
        if self.stdin {
            Some(UnreadSource::stdin())
        } else if self.files.len() > 0 {
            Some(UnreadSource::file(self.files[self.files.len() - 1].clone()))
        } else if self.program.is_some() {
            match &self.program {
                Some(p) => Some(UnreadSource::string(p.clone())),
                None => None,
            }
        } else {
            match &self.program_file {
                Some(f) => Some(UnreadSource::file(f.clone())),
                None => None,
            }
        }
    }

    /// The libraries to add, in order: the `libraries`, then all `files` but the last.
    pub fn get_library_sources(&self) -> (libs: Vec<UnreadSource>)
        ensures
            libs@.len() == library_paths(*self).len(),
            forall|k: int| 0 <= k < libs@.len() ==> is_file(#[trigger] libs@[k], library_paths(*self)[k]),
    {
        let mut libs: Vec<UnreadSource> = Vec::new();
        let ghost paths = library_paths(*self);
        let ghost lib_views = self.libraries@.map_values(|l: String| l@);
        let ghost file_views = self.files@.map_values(|f: String| f@);
        let mut k: usize = 0;
        while k < self.libraries.len()
            invariant
                0 <= k <= self.libraries@.len(),
                lib_views == self.libraries@.map_values(|l: String| l@),
                libs@.len() == k,
                forall|j: int| 0 <= j < k ==> is_file(#[trigger] libs@[j], lib_views[j]),
            decreases self.libraries@.len() - k,
        {
            libs.push(UnreadSource::file(self.libraries[k].clone()));
            k = k + 1;
        }
        let num_files = self.files.len();
        if num_files > 1 {
            let mut j: usize = 0;
            while j < num_files - 1
                invariant
                    num_files == self.files@.len(),
                    num_files > 1,
                    0 <= j <= num_files - 1,
                    file_views == self.files@.map_values(|f: String| f@),
                    libs@.len() == lib_views.len() + j,
                    forall|x: int| 0 <= x < lib_views.len() ==> is_file(#[trigger] libs@[x], lib_views[x]),
                    forall|x: int| lib_views.len() <= x < libs@.len() ==> is_file(#[trigger] libs@[x], file_views[x - lib_views.len()]),
                decreases num_files - 1 - j,
            {
                libs.push(UnreadSource::file(self.files[j].clone()));
                j = j + 1;
            }
        }
        libs
    }
}


/// The seed a seed text stands for: its first 16 UTF-8 bytes, padded with zeros.
pub open spec fn seed_bytes(text: Seq<u8>) -> Seq<u8> {
    Seq::new(16, |k: int| if k < text.len() { text[k] } else { 0u8 })
}

/// The random seed given by a seed text.
pub fn seed_from_text(text: &str) -> (seed: [u8; 16])
    ensures
        seed@ == seed_bytes(vstd::utf8::encode_utf8(text@)),
{
    let bytes = text.as_bytes();
    let mut seed = [0u8; 16];
    let mut k: usize = 0;
    while k < 16
        invariant
            0 <= k <= 16,
            bytes@ == vstd::utf8::encode_utf8(text@),
            forall|j: int| 0 <= j < k ==> seed@[j] == seed_bytes(bytes@)[j],
            forall|j: int| k <= j < 16 ==> seed@[j] == 0,
        decreases 16 - k,
    {
        if k < bytes.len() {
            seed.set(k, bytes[k]);
        }
        k = k + 1;
    }
    assert(seed@ =~= seed_bytes(bytes@));
    seed
}

} // verus!
