//! The source files of a compilation: each path interned once, with its
//! current text, and the program root they belong to.

use vstd::prelude::*;
use crate::lang_items::chars_eq;
use crate::text::chars_of;

verus! {

/// A source file, by its position in the database.
#[derive(Debug, Clone, Copy, PartialEq, Eq, Hash, Structural)]
pub struct SourceFile(pub u32);

/// The source files known to a compilation: a path and a text for each.
#[derive(Debug)]
pub struct SourceDb {
    pub paths: Vec<String>,
    pub texts: Vec<String>,
}

/// `path` is the path of some file of `paths`.
pub open spec fn has_path(paths: Seq<String>, path: Seq<char>) -> bool {
    exists|i: int| 0 <= i < paths.len() && (#[trigger] paths[i])@ == path
}

impl SourceDb {
    /// Paths and texts pair up, each path is there once, and every file
    /// fits a `u32`.
    pub open spec fn wf(&self) -> bool {
        &&& self.paths@.len() == self.texts@.len()
        &&& self.paths@.len() <= u32::MAX
        &&& forall|i: int, j: int|
            0 <= i < self.paths@.len() && 0 <= j < self.paths@.len() && i != j ==> (#[trigger] self.paths@[i])@
                != (#[trigger] self.paths@[j])@
    }

    /// The file at `path`, if there is one.
    pub open spec fn spec_source_file(&self, path: Seq<char>) -> Option<SourceFile> {
        if has_path(self.paths@, path) {
            Some(SourceFile((choose|i: int| 0 <= i < self.paths@.len() && (#[trigger] self.paths@[i])@ == path) as u32))
        } else {
            None
        }
    }

    /// The text of file `f`.
    pub open spec fn spec_text(&self, f: SourceFile) -> Seq<char> {
        self.texts@[f.0 as int]@
    }

    pub fn new() -> (db: SourceDb)
        ensures
            db.wf(),
            db.paths@.len() == 0,
    {
        SourceDb { paths: Vec::new(), texts: Vec::new() }
    }

    /// The file at `path`, if there is one.
    pub fn source_file(&self, path: &str) -> (r: Option<SourceFile>)
        requires
            self.wf(),
        ensures
            r == self.spec_source_file(path@),
    {
        let p = chars_of(path);
        let mut i: usize = 0;
        while i < self.paths.len()
            invariant
                i <= self.paths@.len(),
                self.wf(),
                p@ == path@,
                forall|k: int| 0 <= k < i ==> (#[trigger] self.paths@[k])@ != path@,
            decreases self.paths.len() - i,
        {
            let q = chars_of(self.paths[i].as_str());
            if chars_eq(q.as_slice(), p.as_slice()) {
                proof {
                    assert(self.paths@[i as int]@ == path@);
                    let j = choose|j: int| 0 <= j < self.paths@.len() && (#[trigger] self.paths@[j])@ == path@;
                    assert(j == i);
                }
                return Some(SourceFile(i as u32));
            }
            i = i + 1;
        }
        None
    }

    /// Interns the file at `path` with text `text`: the file already at that
    /// path gets the new text, else a new file is added.
    pub fn intern_file(&mut self, path: String, text: String) -> (f: SourceFile)
        requires
            old(self).wf(),
            old(self).paths@.len() < u32::MAX,
        ensures
            final(self).wf(),
            final(self).spec_source_file(path@) == Some(f),
            final(self).spec_text(f) == text@,
            (f.0 as int) < final(self).paths@.len(),
            final(self).paths@[f.0 as int]@ == path@,
            old(self).spec_source_file(path@) matches Some(g) ==> f == g && final(self).paths@ == old(self).paths@,
            old(self).spec_source_file(path@) is None ==> f.0 == old(self).paths@.len() && final(self).paths@
                == old(self).paths@.push(path),
            forall|q: Seq<char>| q != path@ ==> #[trigger] final(self).spec_source_file(q) == old(self).spec_source_file(q),
            forall|g: SourceFile| #![trigger final(self).spec_text(g)]
                (g.0 as int) < old(self).paths@.len() && g != f ==> final(self).spec_text(g) == old(self).spec_text(g),
    {
        match self.source_file(path.as_str()) {
            Some(f) => {
                proof {
                    let j = choose|j: int| 0 <= j < self.paths@.len() && (#[trigger] self.paths@[j])@ == path@;
                    assert(f.0 == j);
                }
                self.texts.set(f.0 as usize, text);
                f
            },
            None => {
                let n = self.paths.len();
                self.paths.push(path);
                self.texts.push(text);
                proof {
                    assert(self.paths@.drop_last() == old(self).paths@);
                    assert forall|i: int, j: int|
                        0 <= i < self.paths@.len() && 0 <= j < self.paths@.len() && i != j implies (#[trigger] self.paths@[i])@
                            != (#[trigger] self.paths@[j])@ by {
                        if i < n {
                            assert(self.paths@[i] == old(self).paths@[i]);
                        }
                        if j < n {
                            assert(self.paths@[j] == old(self).paths@[j]);
                        }
                    }
                    assert(self.paths@[n as int]@ == path@);
                    let j = choose|j: int| 0 <= j < self.paths@.len() && (#[trigger] self.paths@[j])@ == path@;
                    assert(j == n);
                    assert forall|q: Seq<char>| q != path@ implies #[trigger] self.spec_source_file(q) == old(self).spec_source_file(q) by {
                        if has_path(self.paths@, q) {
                            let k = choose|k: int| 0 <= k < self.paths@.len() && (#[trigger] self.paths@[k])@ == q;
                            assert(k < n);
                            assert(old(self).paths@[k] == self.paths@[k]);
                            assert(has_path(old(self).paths@, q));
                            let k2 = choose|k: int| 0 <= k < old(self).paths@.len() && (#[trigger] old(self).paths@[k])@ == q;
                            assert(self.paths@[k2] == old(self).paths@[k2]);
                        } else {
                            if has_path(old(self).paths@, q) {
                                let k = choose|k: int| 0 <= k < old(self).paths@.len() && (#[trigger] old(self).paths@[k])@ == q;
                                assert(self.paths@[k] == old(self).paths@[k]);
                            }
                        }
                    }
                }
                SourceFile(n as u32)
            },
        }
    }

    /// The text of file `f`.
    pub fn text(&self, f: SourceFile) -> (r: &str)
        requires
            (f.0 as int) < self.texts@.len(),
        ensures
            r@ == self.spec_text(f),
    {
        self.texts[f.0 as usize].as_str()
    }

    /// Every file, in the order they were added.
    pub fn all_files(&self) -> (r: Vec<SourceFile>)
        requires
            self.wf(),
        ensures
            r@.len() == self.paths@.len(),
            forall|k: int| 0 <= k < r@.len() ==> (#[trigger] r@[k]).0 == k,
    {
        let mut r: Vec<SourceFile> = Vec::new();
        let mut i: usize = 0;
        while i < self.paths.len()
            invariant
                i <= self.paths@.len(),
                self.wf(),
                r@.len() == i,
                forall|k: int| 0 <= k < i ==> (#[trigger] r@[k]).0 == k,
            decreases self.paths.len() - i,
        {
            r.push(SourceFile(i as u32));
            i = i + 1;
        }
        r
    }
}

/// The root of a program: its name and directory, its files, and the file
/// it was started from, if any.
#[derive(Debug)]
pub struct SourceRoot {
    pub name: String,
    pub path: String,
    pub files: Vec<SourceFile>,
    pub entrypoint: Option<SourceFile>,
}

/// A compilation: the files it knows, and the program root once one was ingested.
#[derive(Debug)]
pub struct Compiler {
    pub db: SourceDb,
    pub root: Option<SourceRoot>,
}

impl Compiler {
    pub fn new() -> (c: Compiler)
        ensures
            c.db.wf(),
            c.db.paths@.len() == 0,
            c.root is None,
    {
        Compiler { db: SourceDb::new(), root: None }
    }

    /// The files of the program root, or every known file before a root
    /// was ingested.
    pub fn files(&self) -> (r: Vec<SourceFile>)
        requires
            self.db.wf(),
        ensures
            self.root matches Some(root) ==> r@ == root.files@,
            self.root is None ==> r@.len() == self.db.paths@.len() && forall|k: int| 0 <= k < r@.len() ==> (#[trigger] r@[k]).0 == k,
    {
        match &self.root {
            Some(root) => {
                let mut r: Vec<SourceFile> = Vec::new();
                let mut i: usize = 0;
                while i < root.files.len()
                    invariant
                        i <= root.files@.len(),
                        r@ == root.files@.take(i as int),
                    decreases root.files.len() - i,
                {
                    r.push(root.files[i]);
                    proof {
                        assert(root.files@.take(i + 1) =~= root.files@.take(i as int).push(root.files@[i as int]));
                    }
                    i = i + 1;
                }
                proof {
                    assert(root.files@.take(root.files@.len() as int) =~= root.files@);
                }
                r
            },
            None => self.db.all_files(),
        }
    }

    /// Interns a file read from `path`, as `update_file` does for an edit.
    pub fn update_file(&mut self, path: String, text: String) -> (f: SourceFile)
        requires
            old(self).db.wf(),
            old(self).db.paths@.len() < u32::MAX,
        ensures
            final(self).db.wf(),
            final(self).db.spec_source_file(path@) == Some(f),
            final(self).db.spec_text(f) == text@,
            final(self).root == old(self).root,
    {
        self.db.intern_file(path, text)
    }

    /// Makes `files` the program's root, named `name` at directory `path`,
    /// started from `main`.
    pub fn set_root(&mut self, name: String, path: String, files: Vec<SourceFile>, main: Option<SourceFile>)
        ensures
            final(self).root == Some(SourceRoot { name, path, files, entrypoint: main }),
            final(self).db == old(self).db,
    {
        self.root = Some(SourceRoot { name, path, files, entrypoint: main });
    }
}

} // verus!
