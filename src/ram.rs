//! In-memory file storage.
use vstd::prelude::*;
use crate::entry::{entry_views, Entry, EntryKind};
use crate::error::Error;
use crate::file::File;
use crate::index::{lists, strict_prefix, Index};
use crate::path::{normalize, normalize_path, Path};

verus! {

/// In-memory file storage: a directory index whose files hold their bytes.
pub struct RamFs {
    index: Index<Vec<u8>>,
}

impl RamFs {
    /// The bytes of the file at the normalized path `p`.
    pub closed spec fn file(&self, p: Seq<Seq<u8>>) -> Option<Seq<u8>> {
        match self.index.file(p) {
            Some(d) => Some(d@),
            None => None,
        }
    }

    /// The normalized path `p` names a directory.
    pub closed spec fn is_dir(&self, p: Seq<Seq<u8>>) -> bool {
        self.index.is_dir(p)
    }

    /// The entries of the directory at the normalized path `p`.
    pub closed spec fn listing(&self, p: Seq<Seq<u8>>) -> Seq<(Seq<u8>, EntryKind)> {
        self.index.listing(p)
    }

    /// Names of the files directly inside the directory `p`.
    pub open spec fn child_files(&self, p: Seq<Seq<u8>>) -> Set<Seq<u8>> {
        Set::new(|n: Seq<u8>| self.file(p.push(n)) is Some)
    }

    /// Names of the directories directly inside the directory `p`.
    pub open spec fn child_dirs(&self, p: Seq<Seq<u8>>) -> Set<Seq<u8>> {
        Set::new(|n: Seq<u8>| self.is_dir(p.push(n)))
    }

    /// What opening `p` gives: the file's bytes, or `FileNotFound`.
    pub open spec fn open_spec(&self, p: Seq<Seq<u8>>) -> Result<Seq<u8>, Error> {
        match self.file(normalize(p)) {
            Some(d) => Ok(d),
            None => Err(Error::FileNotFound),
        }
    }

    /// An empty store.
    pub fn new() -> (r: RamFs)
        ensures
            forall|p: Seq<Seq<u8>>| #[trigger] r.file(p) is None,
            forall|p: Seq<Seq<u8>>| #[trigger] r.is_dir(p) == (p.len() == 0),
    {
        RamFs { index: Index::new() }
    }

    /// Removes every file and directory.
    pub fn clear(&mut self)
        ensures
            forall|p: Seq<Seq<u8>>| #[trigger] final(self).file(p) is None,
            forall|p: Seq<Seq<u8>>| #[trigger] final(self).is_dir(p) == (p.len() == 0),
    {
        self.index.clear();
    }

    /// Stores `data` as the file at `path` (see [`Index::insert`]).
    pub fn touch(&mut self, path: &str, data: Vec<u8>)
        ensures
            ({
                let q = normalize(Path::spec_new(path));
                &&& forall|x: Seq<Seq<u8>>| #[trigger] final(self).is_dir(x) == (old(self).is_dir(x) || strict_prefix(x, q))
                &&& forall|x: Seq<Seq<u8>>| #[trigger] final(self).file(x) == if q.len() > 0 && x == q && !old(self).is_dir(q) {
                    Some(data@)
                } else if strict_prefix(x, q) {
                    None
                } else {
                    old(self).file(x)
                }
            }),
    {
        let p = Path::new(path);
        self.touch_path(&p, data);
    }

    /// Stores `data` as the file at `path` (see [`Index::insert`]).
    pub fn touch_path(&mut self, path: &Path, data: Vec<u8>)
        ensures
            ({
                let q = normalize(path@);
                &&& forall|x: Seq<Seq<u8>>| #[trigger] final(self).is_dir(x) == (old(self).is_dir(x) || strict_prefix(x, q))
                &&& forall|x: Seq<Seq<u8>>| #[trigger] final(self).file(x) == if q.len() > 0 && x == q && !old(self).is_dir(q) {
                    Some(data@)
                } else if strict_prefix(x, q) {
                    None
                } else {
                    old(self).file(x)
                }
            }),
    {
        self.index.insert(path, data);
    }

    /// Removes the file at `path`, normalized, and hands back its bytes.
    pub fn rm(&mut self, path: &str) -> (r: Option<Vec<u8>>)
        ensures
            r is Some == old(self).file(normalize(Path::spec_new(path))) is Some,
            r is Some ==> r->0@ == old(self).file(normalize(Path::spec_new(path)))->0,
            forall|x: Seq<Seq<u8>>| #[trigger] final(self).is_dir(x) == old(self).is_dir(x),
            forall|x: Seq<Seq<u8>>| #[trigger] final(self).file(x) == if x == normalize(Path::spec_new(path)) {
                None
            } else {
                old(self).file(x)
            },
    {
        self.index.remove(&Path::new(path))
    }

    /// Hands the store back; kept for builder-style chains.
    pub fn index(self) -> (r: RamFs)
        ensures
            r == self,
    {
        self
    }

    /// Opens the file at `path`, reading the store's buffer in place.
    pub fn open_path(&self, path: &Path) -> (r: Result<File<'_>, Error>)
        ensures
            match r {
                Ok(f) => self.open_spec(path@) == Ok::<Seq<u8>, Error>(f.contents()) && f.position() == 0,
                Err(e) => self.open_spec(path@) == Err::<Seq<u8>, Error>(e),
            },
    {
        match self.index.get(path) {
            Some(d) => Ok(File::ram(d)),
            None => Err(Error::FileNotFound),
        }
    }

    /// The entries of the directory at `path`: files, then directories, each
    /// in name order; none where `path` names no directory.
    pub fn entries_path(&self, path: &Path) -> (r: Vec<Entry>)
        ensures
            entry_views(r@) == self.listing(normalize(path@)),
            lists(entry_views(r@), self.child_files(normalize(path@)), self.child_dirs(normalize(path@))),
    {
        let r = self.index.entries(path);
        proof {
            let q = normalize(path@);
            assert(self.child_files(q) =~= self.index.child_files(q));
            assert(self.child_dirs(q) =~= self.index.child_dirs(q));
        }
        r
    }

    /// Opens the file at `path`, after normalizing it.
    pub fn open(&self, path: &str) -> (r: Result<File<'_>, Error>)
        ensures
            match r {
                Ok(f) => self.open_spec(Path::spec_new(path)) == Ok::<Seq<u8>, Error>(f.contents()) && f.position() == 0,
                Err(e) => self.open_spec(Path::spec_new(path)) == Err::<Seq<u8>, Error>(e),
            },
    {
        self.open_path(&Path::new(path))
    }

    /// The entries of the directory at `path`, after normalizing it.
    pub fn entries(&self, path: &str) -> (r: Vec<Entry>)
        ensures
            entry_views(r@) == self.listing(normalize(Path::spec_new(path))),
            lists(
                entry_views(r@),
                self.child_files(normalize(Path::spec_new(path))),
                self.child_dirs(normalize(Path::spec_new(path))),
            ),
    {
        self.entries_path(&Path::new(path))
    }
}

} // verus!
