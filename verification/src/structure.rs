//! The structure of a program: its name, root directory, entry file and
//! source files, as found from the path given on the command line.

use vstd::prelude::*;
use crate::text::{chars_of, push_str, string_from_chars};

verus! {

/// The extension of source files.
pub open spec fn extension_text() -> Seq<char> {
    "lt"@
}

/// The edition of the language a program is written in.
#[derive(Debug, Clone, Copy, PartialEq, Eq, Hash, Structural)]
pub enum Edition {
    Lotus2026,
}

impl Default for Edition {
    fn default() -> (e: Edition)
        ensures
            e == Edition::Lotus2026,
    {
        Edition::Lotus2026
    }
}

/// A program to compile. Paths are held as their text.
#[derive(Debug)]
pub struct Program {
    pub name: String,
    pub root: String,
    /// The file given on the command line, when a single file was given.
    pub main: Option<String>,
    pub files: Vec<String>,
    pub edition: Edition,
}

/// Why a program could not be found.
#[derive(Debug)]
pub enum ProgramError {
    InvalidInput,
    InvalidExtension(String),
    InvalidPackageName,
    /// Reading the file system failed; the text is the system's message.
    Io(String),
}

impl ProgramError {
    /// The error's message.
    pub open spec fn spec_message(&self) -> Seq<char> {
        match self {
            ProgramError::InvalidInput => "Input path is not a file or directory"@,
            ProgramError::InvalidExtension(p) => "File has invalid extension: "@ + p@,
            ProgramError::InvalidPackageName => "Could not infer name for package from directory name"@,
            ProgramError::Io(e) => "IO error: "@ + e@,
        }
    }

    /// The error's message.
    pub fn message(&self) -> (r: String)
        ensures
            r@ == self.spec_message(),
    {
        let mut out: Vec<char> = Vec::new();
        match self {
            ProgramError::InvalidInput => push_str(&mut out, "Input path is not a file or directory"),
            ProgramError::InvalidExtension(p) => {
                push_str(&mut out, "File has invalid extension: ");
                push_str(&mut out, p.as_str());
            },
            ProgramError::InvalidPackageName => push_str(
                &mut out,
                "Could not infer name for package from directory name",
            ),
            ProgramError::Io(e) => {
                push_str(&mut out, "IO error: ");
                push_str(&mut out, e.as_str());
            },
        }
        string_from_chars(&out)
    }
}

/// The stem of the last component of a path, as `Path::file_stem` gives it.
pub uninterp spec fn stem_of(path: Seq<char>) -> Option<Seq<char>>;

/// The path without its last component, as `Path::parent` gives it.
pub uninterp spec fn parent_of(path: Seq<char>) -> Option<Seq<char>>;

/// The extension of the last component of a path, as `Path::extension` gives it.
pub uninterp spec fn extension_of(path: Seq<char>) -> Option<Seq<char>>;

/// The path relative to `base`, as `Path::strip_prefix` gives it.
pub uninterp spec fn relative_to(path: Seq<char>, base: Seq<char>) -> Option<Seq<char>>;

/// The components of a path, each as text, as `Path::components` lists them.
pub uninterp spec fn components_of(path: Seq<char>) -> Seq<Seq<char>>;

/// Whether `a` sorts before `b` as paths, component by component.
pub uninterp spec fn path_precedes(a: Seq<char>, b: Seq<char>) -> bool;

/// `Path::file_stem`, as text. Every stem of a `String` path is text, so the
/// conversion back to `str` does not fail.
#[verifier::external_body]
pub(crate) fn file_stem(path: &str) -> (r: Option<String>)
    ensures
        match stem_of(path@) {
            Some(t) => r matches Some(s) && s@ == t,
            None => r is None,
        },
{
    std::path::Path::new(path).file_stem().and_then(|s| s.to_str()).map(|s| s.to_string())
}

/// `Path::parent`, as text.
#[verifier::external_body]
pub(crate) fn parent(path: &str) -> (r: Option<String>)
    ensures
        match parent_of(path@) {
            Some(t) => r matches Some(s) && s@ == t,
            None => r is None,
        },
{
    std::path::Path::new(path).parent().and_then(|s| s.to_str()).map(|s| s.to_string())
}

/// `Path::strip_prefix`: `path` relative to `base`, as text. A path made from
/// text stays text, so the conversion back to `str` does not fail.
#[verifier::external_body]
pub(crate) fn strip_prefix(path: &str, base: &str) -> (r: Option<String>)
    ensures
        match relative_to(path@, base@) {
            Some(t) => r matches Some(s) && s@ == t,
            None => r is None,
        },
{
    std::path::Path::new(path).strip_prefix(base).ok().and_then(|p| p.to_str()).map(|p| p.to_string())
}

/// `Path::components`: the components of `path`, each as text.
#[verifier::external_body]
pub(crate) fn path_components(path: &str) -> (r: Vec<String>)
    ensures
        r@.len() == components_of(path@).len(),
        forall|k: int| 0 <= k < r@.len() ==> (#[trigger] r@[k])@ == components_of(path@)[k],
{
    std::path::Path::new(path).components().map(|c| c.as_os_str().to_string_lossy().into_owned()).collect()
}

/// `Path::extension`, as text.
#[verifier::external_body]
fn extension(path: &str) -> (r: Option<String>)
    ensures
        match extension_of(path@) {
            Some(t) => r matches Some(s) && s@ == t,
            None => r is None,
        },
{
    std::path::Path::new(path).extension().and_then(|s| s.to_str()).map(|s| s.to_string())
}

/// `Path::new(a) < Path::new(b)`: the order of `Ord` for paths, which is
/// asymmetric.
#[verifier::external_body]
fn path_less(a: &str, b: &str) -> (r: bool)
    ensures
        r == path_precedes(a@, b@),
        r ==> !path_precedes(b@, a@),
{
    std::path::Path::new(a) < std::path::Path::new(b)
}

/// Whether a path names a source file, by its extension.
pub fn has_extension(path: &str) -> (r: bool)
    ensures
        r == (extension_of(path@) == Some(extension_text())),
{
    match extension(path) {
        Some(e) => {
            let c = chars_of(e.as_str());
            let want = chars_of("lt");
            crate::lang_items::chars_eq(&c, &want)
        },
        None => false,
    }
}

/// The texts of some strings.
pub open spec fn path_texts(v: Seq<String>) -> Seq<Seq<char>> {
    v.map_values(|s: String| s@)
}

/// Each path is not after the next one.
pub open spec fn paths_sorted(v: Seq<Seq<char>>) -> bool {
    forall|i: int| 0 <= i < v.len() - 1 ==> !path_precedes(#[trigger] v[i + 1], v[i])
}

/// Sorts paths by inserting each in turn after those not after it, which
/// keeps paths that compare equal in their order.
pub fn sort_paths(files: Vec<String>) -> (r: Vec<String>)
    ensures
        path_texts(r@).to_multiset() == path_texts(files@).to_multiset(),
        paths_sorted(path_texts(r@)),
{
    let mut out: Vec<String> = Vec::new();
    let mut k: usize = 0;
    proof {
        assert(path_texts(out@) =~= path_texts(files@.take(0)));
    }
    while k < files.len()
        invariant
            k <= files@.len(),
            path_texts(out@).to_multiset() == path_texts(files@.take(k as int)).to_multiset(),
            paths_sorted(path_texts(out@)),
        decreases files.len() - k,
    {
        let x = files[k].clone();
        let mut p: usize = 0;
        let mut done = false;
        while p < out.len() && !done
            invariant
                p <= out@.len(),
                forall|j: int| 0 <= j < p ==> !path_precedes(x@, #[trigger] out@[j]@),
                done ==> p < out@.len() && !path_precedes(out@[p as int]@, x@),
            decreases out.len() - p, if done { 0int } else { 1int },
        {
            if path_less(x.as_str(), out[p].as_str()) {
                done = true;
            } else {
                p = p + 1;
            }
        }
        let ghost before = path_texts(out@);
        let ghost old_out = out@;
        out.insert(p, x);
        proof {
            let after = path_texts(out@);
            assert(after =~= before.insert(p as int, x@));
            assert forall|i: int| 0 <= i < after.len() - 1 implies !path_precedes(
                #[trigger] after[i + 1],
                after[i],
            ) by {
                if i + 1 < p {
                    assert(after[i] == before[i] && after[i + 1] == before[i + 1]);
                    assert(!path_precedes(before[i + 1], before[i]));
                } else if i + 1 == p {
                    assert(after[i + 1] == x@ && after[i] == before[i]);
                    assert(before[i] == old_out[i]@);
                } else if i == p {
                    assert(after[i] == x@ && after[i + 1] == before[i]);
                    assert(before[i] == old_out[i]@);
                } else {
                    let j = i - 1;
                    assert(after[i] == before[j] && after[i + 1] == before[j + 1]);
                    assert(0 <= j < before.len() - 1);
                    assert(!path_precedes(before[j + 1], before[j]));
                }
            }
            assert(after.remove(p as int) =~= before);
            after.to_multiset_ensures();
            before.to_multiset_ensures();
            assert(after[p as int] == x@);
            assert(after.contains(x@));
            assert(after.to_multiset() =~= before.to_multiset().insert(x@));
            assert(files@.take(k + 1) =~= files@.take(k as int).push(files@[k as int]));
            assert(path_texts(files@.take(k + 1)) =~= path_texts(files@.take(k as int)).push(x@));
            path_texts(files@.take(k as int)).to_multiset_ensures();
        }
        k = k + 1;
    }
    proof {
        assert(files@.take(files@.len() as int) =~= files@);
    }
    out
}

/// The program found at `path`: its name is `name`, else the stem of `path`.
/// A directory (`is_dir`) holds the sources `discovered` in it, sorted; a
/// file is the whole program and its entry point, its directory the root.
pub open spec fn spec_from_path_name(path: Seq<char>, name: Option<Seq<char>>) -> Option<Seq<char>> {
    match name {
        Some(n) => Some(n),
        None => stem_of(path),
    }
}

/// What the file system holds at a path.
#[derive(Debug, Clone, Copy, PartialEq, Eq, Structural)]
pub enum PathKind {
    Directory,
    File,
    /// Neither a file nor a directory, for example nothing at all.
    Neither,
}

impl Program {
    /// The program at `path`. Reading the file system is the caller's: it says
    /// what `path` is and, for a directory, which source files are under it.
    /// A path that is neither a file nor a directory is invalid input, and a
    /// single file must have the source extension.
    pub fn from_path(path: String, name: Option<String>, kind: PathKind, discovered: Vec<String>) -> (r: Result<
        Program,
        ProgramError,
    >)
        ensures
            match spec_from_path_name(
                path@,
                match name {
                    Some(n) => Some(n@),
                    None => None,
                },
            ) {
                None => r matches Err(e) && e is InvalidPackageName,
                Some(n) => if kind == PathKind::Neither {
                    r matches Err(e) && e is InvalidInput
                } else if kind == PathKind::File && extension_of(path@) != Some(extension_text()) {
                    r matches Err(e) && e == ProgramError::InvalidExtension(path)
                } else { r matches Ok(p) && {
                    &&& p.name@ == n
                    &&& p.edition == Edition::Lotus2026
                    &&& if kind == PathKind::Directory {
                        &&& p.root@ == path@
                        &&& p.main is None
                        &&& path_texts(p.files@).to_multiset() == path_texts(discovered@).to_multiset()
                        &&& paths_sorted(path_texts(p.files@))
                    } else {
                        &&& p.root@ == match parent_of(path@) {
                            Some(t) => t,
                            None => Seq::empty(),
                        }
                        &&& p.main matches Some(m) && m@ == path@
                        &&& path_texts(p.files@) == seq![path@]
                    }
                } },
            },
    {
        let name = match name {
            Some(n) => n,
            None => match file_stem(path.as_str()) {
                Some(s) => s,
                None => return Err(ProgramError::InvalidPackageName),
            },
        };
        let is_dir = match kind {
            PathKind::Directory => true,
            PathKind::File => {
                if !has_extension(path.as_str()) {
                    return Err(ProgramError::InvalidExtension(path));
                }
                false
            },
            PathKind::Neither => return Err(ProgramError::InvalidInput),
        };
        if is_dir {
            let files = sort_paths(discovered);
            Ok(Program { name, root: path, main: None, files, edition: Edition::default() })
        } else {
            let root = match parent(path.as_str()) {
                Some(p) => p,
                None => String::new(),
            };
            let main = path.clone();
            let mut files: Vec<String> = Vec::new();
            files.push(path);
            proof {
                assert(path_texts(files@) =~= seq![main@]);
            }
            Ok(Program { name, root, main: Some(main), files, edition: Edition::default() })
        }
    }
}

/// Why the driver could not read a program's source.
#[derive(Debug)]
pub enum IngestError {
    /// Reading `path` failed with the system's message `source`.
    Io { path: String, source: String },
}

impl IngestError {
    /// The error's message: `failed to read {path}: {source}`.
    pub fn message(&self) -> (r: String)
        ensures
            match self {
                IngestError::Io { path, source } => r@ == "failed to read "@ + path@ + ": "@ + source@,
            },
    {
        let mut out: Vec<char> = Vec::new();
        match self {
            IngestError::Io { path, source } => {
                push_str(&mut out, "failed to read ");
                push_str(&mut out, path.as_str());
                push_str(&mut out, ": ");
                push_str(&mut out, source.as_str());
            },
        }
        string_from_chars(&out)
    }
}

/// What the command line asks of the compiler.
#[derive(Debug)]
pub enum Commands {
    Parse { source: String },
    Elaborate { source: String },
    Lower { source: String },
}

/// The command line.
#[derive(Debug)]
pub struct Cli {
    pub command: Commands,
}

impl Cli {
    /// The source path the command works on.
    pub fn file(&self) -> (r: &String)
        ensures
            match self.command {
                Commands::Parse { source } => *r == source,
                Commands::Elaborate { source } => *r == source,
                Commands::Lower { source } => *r == source,
            },
    {
        match &self.command {
            Commands::Parse { source } => source,
            Commands::Elaborate { source } => source,
            Commands::Lower { source } => source,
        }
    }
}

} // verus!
