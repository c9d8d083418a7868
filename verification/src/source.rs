//! Where program text comes from, and the text once it has been read.

use vstd::prelude::*;
use vstd::string::StringExecFns;
use crate::ast::IString;
use crate::text::{chars_of, copy_chars, string_from_chars};

verus! {

/// A source of program text that has not been read yet.
#[derive(Debug, PartialEq)]
pub enum UnreadSource {
    /// A file on the local filesystem, by path; its file stem becomes the module name.
    File(String),
    /// Text held in memory.
    String(String),
    /// A library shipped with the interpreter: its module name and its text.
    Builtin(&'static str, &'static str),
    /// Text that is read from standard input.
    Stdin,
}

/// The module name of sources that do not name one.
pub open spec fn default_module_name() -> Seq<char> {
    "default"@
}

/// `p` with trailing `/` and `/.` components removed.
pub open spec fn trim_path_end(p: Seq<char>) -> Seq<char>
    decreases p.len(),
{
    if p.len() > 1 && p.last() == '/' {
        trim_path_end(p.drop_last())
    } else if p.len() > 1 && p.last() == '.' && p[p.len() - 2] == '/' {
        trim_path_end(p.drop_last())
    } else {
        p
    }
}

/// Index just after the last `/` of `p`, or 0 when there is none.
pub open spec fn after_last_slash(p: Seq<char>, i: int) -> int
    decreases i,
{
    if i <= 0 {
        0
    } else if p[i - 1] == '/' {
        i
    } else {
        after_last_slash(p, i - 1)
    }
}

/// Index of the last `.` of `p` before position `i`, or -1 when there is none.
pub open spec fn last_dot(p: Seq<char>, i: int) -> int
    decreases i,
{
    if i <= 0 {
        -1
    } else if p[i - 1] == '.' {
        i - 1
    } else {
        last_dot(p, i - 1)
    }
}

/// The final component of a path, when it has one.
pub open spec fn path_file_name(path: Seq<char>) -> Option<Seq<char>> {
    let t = trim_path_end(path);
    let name = t.skip(after_last_slash(t, t.len() as int));
    if name.len() == 0 || name == ".."@ || name == "."@ {
        None
    } else {
        Some(name)
    }
}

/// The file name without its extension: all of it when it has no `.` other than a leading
/// one, else the part before the last `.`.
pub open spec fn stem_of(name: Seq<char>) -> Seq<char> {
    let d = last_dot(name, name.len() as int);
    if d <= 0 {
        name
    } else {
        name.take(d)
    }
}

/// The module name a source gets.
pub open spec fn module_name_of(u: UnreadSource) -> Seq<char> {
    match u {
        UnreadSource::File(p) => match path_file_name(p@) {
            Some(name) => stem_of(name),
            None => default_module_name(),
        },
        UnreadSource::String(_) => default_module_name(),
        UnreadSource::Builtin(name, _) => name@,
        UnreadSource::Stdin => default_module_name(),
    }
}

/// The text a source holds in memory; none for files and standard input, which have to be
/// read first.
pub open spec fn source_text_of(u: UnreadSource) -> Seq<char> {
    match u {
        UnreadSource::String(t) => t@,
        UnreadSource::Builtin(_, t) => t@,
        _ => Seq::empty(),
    }
}

/// How a source is described in messages.
pub open spec fn description_of(u: UnreadSource) -> Seq<char> {
    match u {
        UnreadSource::File(p) => p@,
        UnreadSource::String(_) => "<command line input>"@,
        UnreadSource::Builtin(name, _) => name@,
        UnreadSource::Stdin => "<stdin>"@,
    }
}

/// The final component of `path`, if any.
fn file_name_of(path: &Vec<char>) -> (r: Option<Vec<char>>)
    ensures
        r matches Some(n) ==> path_file_name(path@) == Some(n@),
        r is None ==> path_file_name(path@) is None,
{
    let mut end: usize = path.len();
    assert(path@.take(path@.len() as int) =~= path@);
    while end > 1 && (path[end - 1] == '/' || (path[end - 1] == '.' && path[end - 2] == '/'))
        invariant
            0 <= end <= path@.len(),
            trim_path_end(path@.take(end as int)) == trim_path_end(path@),
        decreases end,
    {
        proof {
            assert(path@.take(end as int).drop_last() =~= path@.take(end as int - 1));
        }
        end = end - 1;
    }
    proof {
        assert(path@.take(path@.len() as int) =~= path@);
    }
    let ghost t = path@.take(end as int);
    assert(trim_path_end(t) == t);
    let mut start: usize = end;
    while start > 0 && path[start - 1] != '/'
        invariant
            0 <= start <= end <= path@.len(),
            t == path@.take(end as int),
            after_last_slash(t, start as int) == after_last_slash(t, end as int),
        decreases start,
    {
        start = start - 1;
    }
    let name = copy_chars(path.as_slice(), start, end);
    assert(name@ =~= t.skip(after_last_slash(t, t.len() as int)));
    let is_dot = name.len() == 1 && name[0] == '.';
    let is_dotdot = name.len() == 2 && name[0] == '.' && name[1] == '.';
    proof {
        if name@.len() == 1 && name@[0] == '.' {
            assert(name@ =~= "."@) by {
                reveal_strlit(".");
            }
        }
        if name@ == "."@ {
            reveal_strlit(".");
        }
        if name@.len() == 2 && name@[0] == '.' && name@[1] == '.' {
            assert(name@ =~= ".."@) by {
                reveal_strlit("..");
            }
        }
        if name@ == ".."@ {
            reveal_strlit("..");
        }
    }
    if name.len() == 0 || is_dot || is_dotdot {
        None
    } else {
        Some(name)
    }
}

/// The file stem of a file name.
fn stem(name: &Vec<char>) -> (r: Vec<char>)
    ensures
        r@ == stem_of(name@),
{
    let mut i: usize = name.len();
    while i > 0 && name[i - 1] != '.'
        invariant
            0 <= i <= name@.len(),
            last_dot(name@, i as int) == last_dot(name@, name@.len() as int),
        decreases i,
    {
        i = i - 1;
    }
    if i <= 1 {
        copy_chars(name.as_slice(), 0, name.len())
    } else {
        copy_chars(name.as_slice(), 0, i - 1)
    }
}

impl UnreadSource {
    /// The name of the module that the source's definitions belong to.
    pub fn get_name(&self) -> (name: IString)
        ensures
            name@ == module_name_of(*self),
    {
        match self {
            UnreadSource::File(p) => {
                let cs = chars_of(p.as_str());
                match file_name_of(&cs) {
                    Some(n) => {
                        let st = stem(&n);
                        string_from_chars(st.as_slice())
                    },
                    None => String::from_str("default"),
                }
            },
            UnreadSource::String(_) => String::from_str("default"),
            UnreadSource::Builtin(name, _) => String::from_str(name),
            UnreadSource::Stdin => String::from_str("default"),
        }
    }

    /// How the source is described in messages.
    pub fn get_description(&self) -> (d: &str)
        ensures
            d@ == description_of(*self),
    {
        match self {
            UnreadSource::File(p) => p.as_str(),
            UnreadSource::String(_) => "<command line input>",
            UnreadSource::Builtin(name, _) => name,
            UnreadSource::Stdin => "<stdin>",
        }
    }

    pub fn file(path: String) -> (u: UnreadSource)
        ensures
            u == UnreadSource::File(path),
    {
        UnreadSource::File(path)
    }

    pub fn string(string: String) -> (u: UnreadSource)
        ensures
            u == UnreadSource::String(string),
    {
        UnreadSource::String(string)
    }

    pub fn stdin() -> (u: UnreadSource)
        ensures
            u == UnreadSource::Stdin,
    {
        UnreadSource::Stdin
    }
}

/// A source together with its text.
#[derive(Debug, PartialEq)]
pub struct Source {
    unread: UnreadSource,
    source_text: String,
}

impl Source {
    pub closed spec fn origin(&self) -> UnreadSource {
        self.unread
    }

    pub closed spec fn text_view(&self) -> Seq<char> {
        self.source_text@
    }

    /// A source whose text has been read by the caller.
    pub fn new(unread: UnreadSource, source_text: String) -> (s: Source)
        ensures
            s.origin() == unread,
            s.text_view() == source_text@,
    {
        Source { unread, source_text }
    }

    /// Reads a source whose text is held in memory (`String` and `Builtin`); the text of a
    /// `File` or of `Stdin` comes from outside and is given to [`Source::new`].
    pub fn read(unread: UnreadSource) -> (r: Result<Source, UnreadSource>)
        ensures
            match unread {
                UnreadSource::String(t) => r matches Ok(s) && (s.origin() matches UnreadSource::String(e) && e@.len()
                    == 0) && s.text_view() == t@,
                UnreadSource::Builtin(n, t) => r matches Ok(s) && s.origin() == unread
                    && s.text_view() == t@,
                _ => r == Err::<Source, UnreadSource>(unread),
            },
    {
        match unread {
            UnreadSource::String(t) => Ok(Source { unread: UnreadSource::String(String::new()), source_text: t }),
            UnreadSource::Builtin(n, t) => Ok(Source { unread: UnreadSource::Builtin(n, t), source_text: String::from_str(t) }),
            other => Err(other),
        }
    }

    pub fn text(&self) -> (t: &str)
        ensures
            t@ == self.text_view(),
    {
        self.source_text.as_str()
    }

    pub fn module_name(&self) -> (n: IString)
        ensures
            n@ == module_name_of(self.origin()),
    {
        self.unread.get_name()
    }

    pub fn description(&self) -> (d: &str)
        ensures
            d@ == description_of(self.origin()),
    {
        self.unread.get_description()
    }
}

} // verus!
