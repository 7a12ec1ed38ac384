//! Stores over tar and zip archives held in memory.
use vstd::prelude::*;
use std::io::Read;
use vstd::string::StringSliceAdditionalSpecFns;
use crate::entry::{Entry, EntryKind};
use crate::error::Error;
use crate::file::File;
use crate::index::{lists, strict_prefix, Index};
use crate::path::{as_utf8, components, normalize, normalize_path, render, seqs_of, Path};

verus! {

/// What reading the tar archive `archive` yields: its members in order, each
/// as its path bytes and data, up to the first read error, and whether such
/// an error stopped the reading.
pub uninterp spec fn tar_scan(archive: Seq<u8>) -> (Seq<(Seq<u8>, Seq<u8>)>, bool);

/// The bytes that the gzip stream `data` decodes to; `None` where it does not.
pub uninterp spec fn gunzip_of(data: Seq<u8>) -> Option<Seq<u8>>;

/// The sanitized names of the files of the zip archive `archive`, in order.
pub uninterp spec fn zip_listing(archive: Seq<u8>) -> Result<Seq<Seq<u8>>, Error>;

/// The bytes of the file named `name` in the zip archive `archive`.
pub uninterp spec fn zip_entry(archive: Seq<u8>, name: Seq<u8>) -> Result<Seq<u8>, Error>;

/// Views of tar members.
pub open spec fn member_views(v: Seq<(Vec<u8>, Vec<u8>)>) -> Seq<(Seq<u8>, Seq<u8>)> {
    Seq::new(v.len(), |i: int| (v[i].0@, v[i].1@))
}

/// Relies on `tar::Archive::entries`, `tar::Entry::path_bytes` and reading
/// each entry (tar 0.4): the members in order, with their data.
#[verifier::external_body]
fn tar_members(archive: &[u8]) -> (r: (Vec<(Vec<u8>, Vec<u8>)>, bool))
    ensures
        member_views(r.0@) == tar_scan(archive@).0,
        r.1 == tar_scan(archive@).1,
{
    let mut out = Vec::new();
    let mut ar = tar::Archive::new(archive);
    let entries = match ar.entries() { Ok(e) => e, Err(_) => return (out, true) };
    for entry in entries {
        let mut data = Vec::new();
        let mut e = match entry { Ok(e) => e, Err(_) => return (out, true) };
        if e.read_to_end(&mut data).is_err() { return (out, true); }
        out.push((e.path_bytes().into_owned(), data));
    }
    (out, false)
}

/// Relies on `flate2::read::GzDecoder`: the decoded bytes of a gzip stream.
#[verifier::external_body]
fn gunzip(data: &[u8]) -> (r: Option<Vec<u8>>)
    ensures
        r is Some == gunzip_of(data@) is Some,
        r is Some ==> r->0@ == gunzip_of(data@)->0,
{
    let mut out = Vec::new();
    match flate2::read::GzDecoder::new(data).read_to_end(&mut out) {
        Ok(_) => Some(out),
        Err(_) => None,
    }
}

/// Relies on `zip::ZipArchive::new`, `ZipArchive::by_index` and
/// `ZipFile::mangled_name` (zip 9): the sanitized file names, in order.
#[verifier::external_body]
fn zip_names(archive: &[u8]) -> (r: Result<Vec<Vec<u8>>, Error>)
    ensures
        match r {
            Ok(v) => zip_listing(archive@) == Ok::<Seq<Seq<u8>>, Error>(seqs_of(v@)),
            Err(e) => zip_listing(archive@) == Err::<Seq<Seq<u8>>, Error>(e),
        },
{
    let mut ar = zip::ZipArchive::new(std::io::Cursor::new(archive))?;
    let mut names = Vec::new();
    for i in 0..ar.len() {
        names.push(ar.by_index(i)?.mangled_name()?.to_string_lossy().into_owned().into_bytes());
    }
    Ok(names)
}

/// Relies on `zip::ZipArchive::new`, `ZipArchive::by_name` and reading the
/// file (zip 9): the bytes of the file named `name`.
#[verifier::external_body]
fn zip_read(archive: &[u8], name: &str) -> (r: Result<Vec<u8>, Error>)
    ensures
        match r {
            Ok(v) => zip_entry(archive@, name.spec_bytes()) == Ok::<Seq<u8>, Error>(v@),
            Err(e) => zip_entry(archive@, name.spec_bytes()) == Err::<Seq<u8>, Error>(e),
        },
{
    let mut ar = zip::ZipArchive::new(std::io::Cursor::new(archive))?;
    let mut file = ar.by_name(name)?;
    let mut v = Vec::new();
    match file.read_to_end(&mut v) {
        Ok(_) => Ok(v),
        Err(_) => Err(Error::Io),
    }
}

#[verifier::external_type_specification]
#[verifier::external_body]
pub struct ExZipError(zip::result::ZipError);

impl From<zip::result::ZipError> for Error {
    /// Relies on the variants of `zip::result::ZipError` (zip 9): input/output,
    /// not found and invalid archive map one for one; an unsupported archive,
    /// compression method or password is unsupported; the enum is
    /// non-exhaustive, and any later variant counts as input/output.
    #[verifier::external_body]
    fn from(e: zip::result::ZipError) -> Error {
        match e {
            zip::result::ZipError::Io(_) => Error::Io,
            zip::result::ZipError::FileNotFound => Error::FileNotFound,
            zip::result::ZipError::InvalidArchive(_) => Error::InvalidZip,
            zip::result::ZipError::UnsupportedArchive(_) => Error::UnsupportedZip,
            zip::result::ZipError::InvalidPassword => Error::UnsupportedZip,
            zip::result::ZipError::CompressionMethodNotSupported(_) => Error::UnsupportedZip,
            _ => Error::Io,
        }
    }
}

/// The data of the first member from `i` on whose path has the components `p`.
pub open spec fn find_member(ms: Seq<(Seq<u8>, Seq<u8>)>, p: Seq<Seq<u8>>, i: int) -> Option<Seq<u8>>
    decreases ms.len() - i,
{
    if i < 0 || i >= ms.len() {
        None
    } else if components(ms[i].0) == p {
        Some(ms[i].1)
    } else {
        find_member(ms, p, i + 1)
    }
}

/// Opening `p` in a tar archive: the first member at `p`. Where the archive
/// does not read as plain tar, it is read again as gzip-compressed tar.
pub open spec fn tar_open(archive: Seq<u8>, p: Seq<Seq<u8>>) -> Result<Seq<u8>, Error> {
    let (ms, failed) = tar_scan(archive);
    match find_member(ms, p, 0) {
        Some(d) => Ok(d),
        None => if !failed {
            Err(Error::FileNotFound)
        } else {
            match gunzip_of(archive) {
                None => Err(Error::Io),
                Some(raw) => {
                    let (ms2, failed2) = tar_scan(raw);
                    match find_member(ms2, p, 0) {
                        Some(d) => Ok(d),
                        None => if failed2 {
                            Err(Error::Io)
                        } else {
                            Err(Error::FileNotFound)
                        },
                    }
                },
            }
        },
    }
}

/// Tar archive store, plain or gzip-compressed.
pub struct TarFs {
    archive: Vec<u8>,
}

/// The first member at `p`, taken out of `ms`.
fn take_member(members: Vec<(Vec<u8>, Vec<u8>)>, p: &Path) -> (r: Option<Vec<u8>>)
    ensures
        r is Some == find_member(member_views(members@), p@, 0) is Some,
        r is Some ==> r->0@ == find_member(member_views(members@), p@, 0)->0,
{
    let ghost mv = member_views(members@);
    let mut ms = members;
    let mut i: usize = 0;
    while i < ms.len()
        invariant
            0 <= i <= ms.len(),
            mv == member_views(members@),
            member_views(ms@) == mv,
            find_member(mv, p@, 0) == find_member(mv, p@, i as int),
        decreases ms.len() - i,
    {
        let ghost here = ms@[i as int];
        proof {
            assert(mv[i as int] == (here.0@, here.1@));
        }
        if Path::from_bytes(ms[i].0.as_slice()).eq(p) {
            let m = ms.swap_remove(i);
            proof {
                assert(m == here);
                assert(find_member(mv, p@, i as int) == Some(mv[i as int].1));
            }
            return Some(m.1);
        }
        proof {
            assert(mv[i as int].0 == ms@[i as int].0@);
        }
        i += 1;
    }
    None
}

impl TarFs {
    /// The archive's bytes.
    pub closed spec fn archive(&self) -> Seq<u8> {
        self.archive@
    }

    /// A store over the bytes of a tar archive, plain or gzip-compressed.
    pub fn new(archive: Vec<u8>) -> (r: TarFs)
        ensures
            r.archive() == archive@,
    {
        TarFs { archive }
    }

    /// Opens the member at `path` (see [`tar_open`]).
    pub fn open_path(&self, path: &Path) -> (r: Result<File<'static>, Error>)
        ensures
            match r {
                Ok(f) => tar_open(self.archive(), path@) == Ok::<Seq<u8>, Error>(f.contents()) && f.position() == 0,
                Err(e) => tar_open(self.archive(), path@) == Err::<Seq<u8>, Error>(e),
            },
    {
        let (ms, failed) = tar_members(self.archive.as_slice());
        if let Some(d) = take_member(ms, path) {
            return Ok(File::tar(d));
        }
        if !failed {
            return Err(Error::FileNotFound);
        }
        match gunzip(self.archive.as_slice()) {
            None => Err(Error::Io),
            Some(raw) => {
                let (ms2, failed2) = tar_members(raw.as_slice());
                match take_member(ms2, path) {
                    Some(d) => Ok(File::tar(d)),
                    None => if failed2 {
                        Err(Error::Io)
                    } else {
                        Err(Error::FileNotFound)
                    },
                }
            },
        }
    }

    /// Opens the member at `path`, after normalizing it.
    pub fn open(&self, path: &str) -> (r: Result<File<'static>, Error>)
        ensures
            match r {
                Ok(f) => tar_open(self.archive(), normalize(Path::spec_new(path))) == Ok::<Seq<u8>, Error>(f.contents()) && f.position() == 0,
                Err(e) => tar_open(self.archive(), normalize(Path::spec_new(path))) == Err::<Seq<u8>, Error>(e),
            },
    {
        self.open_path(&normalize_path(&Path::new(path)))
    }

    /// A tar archive has no listing: every directory reads as empty.
    pub fn entries_path(&self, path: &Path) -> (r: Vec<Entry>)
        ensures
            r.len() == 0,
    {
        Vec::new()
    }
}

/// Opening `p` in a zip archive: the file named by the text of `p`, which
/// must be UTF-8.
pub open spec fn zip_open(archive: Seq<u8>, p: Seq<Seq<u8>>) -> Result<Seq<u8>, Error> {
    if vstd::utf8::valid_utf8(render(p)) {
        zip_entry(archive, render(p))
    } else {
        Err(Error::Utf8)
    }
}

/// `x` is a file after inserting the paths `names`, in order, into an empty
/// index (see [`Index::insert`]).
pub open spec fn file_after_all(names: Seq<Seq<u8>>, x: Seq<Seq<u8>>) -> bool
    decreases names.len(),
{
    if names.len() == 0 {
        false
    } else {
        let prev = names.drop_last();
        let q = normalize(components(names.last()));
        if q.len() > 0 && x == q && !dir_after_all(prev, q) {
            true
        } else if strict_prefix(x, q) {
            false
        } else {
            file_after_all(prev, x)
        }
    }
}

/// `x` is a directory after inserting the paths `names`, in order, into an
/// empty index.
pub open spec fn dir_after_all(names: Seq<Seq<u8>>, x: Seq<Seq<u8>>) -> bool
    decreases names.len(),
{
    if names.len() == 0 {
        x.len() == 0
    } else {
        dir_after_all(names.drop_last(), x) || strict_prefix(x, normalize(components(names.last())))
    }
}

/// Zip archive store; listings need an index, made by [`ZipFs::index`].
pub struct ZipFs {
    archive: Vec<u8>,
    index: Option<Index<()>>,
}

impl ZipFs {
    /// The archive's bytes.
    pub closed spec fn archive(&self) -> Seq<u8> {
        self.archive@
    }

    /// The store has an index of its names.
    pub closed spec fn indexed(&self) -> bool {
        self.index is Some
    }

    /// The index has a file at `x`.
    pub closed spec fn has_file(&self, x: Seq<Seq<u8>>) -> bool {
        match self.index {
            Some(idx) => idx.file(x) is Some,
            None => false,
        }
    }

    /// The index has a directory at `x`.
    pub closed spec fn has_dir(&self, x: Seq<Seq<u8>>) -> bool {
        match self.index {
            Some(idx) => idx.is_dir(x),
            None => false,
        }
    }

    /// Names of the files directly inside the directory `p`, by the index.
    pub open spec fn child_files(&self, p: Seq<Seq<u8>>) -> Set<Seq<u8>> {
        Set::new(|n: Seq<u8>| self.has_file(p.push(n)))
    }

    /// Names of the directories directly inside the directory `p`, by the index.
    pub open spec fn child_dirs(&self, p: Seq<Seq<u8>>) -> Set<Seq<u8>> {
        Set::new(|n: Seq<u8>| self.has_dir(p.push(n)))
    }

    /// The entries of the directory `p`: those of the index, or none without one.
    pub closed spec fn listing(&self, p: Seq<Seq<u8>>) -> Seq<(Seq<u8>, EntryKind)> {
        match self.index {
            Some(idx) => idx.listing(p),
            None => Seq::empty(),
        }
    }

    /// A store over the bytes of a zip archive, without an index.
    pub fn new(archive: Vec<u8>) -> (r: ZipFs)
        ensures
            r.archive() == archive@,
            !r.indexed(),
    {
        ZipFs { archive, index: None }
    }

    /// Indexes the names of the archive, so that its directories can be listed.
    pub fn index(self) -> (r: Result<ZipFs, Error>)
        ensures
            r is Ok == zip_listing(self.archive()) is Ok,
            r is Err ==> r == Err::<ZipFs, Error>(zip_listing(self.archive())->Err_0),
            r is Ok ==> ({
                let z = r->Ok_0;
                let names = zip_listing(self.archive())->Ok_0;
                &&& z.archive() == self.archive()
                &&& z.indexed()
                &&& forall|x: Seq<Seq<u8>>| #[trigger] z.has_file(x) == file_after_all(names, x)
                &&& forall|x: Seq<Seq<u8>>| #[trigger] z.has_dir(x) == dir_after_all(names, x)
            }),
    {
        let names = match zip_names(self.archive.as_slice()) {
            Ok(n) => n,
            Err(e) => return Err(e),
        };
        let ghost ns = seqs_of(names@);
        let mut idx: Index<()> = Index::new();
        let mut i: usize = 0;
        proof {
            assert(ns.take(0) =~= Seq::<Seq<u8>>::empty());
        }
        while i < names.len()
            invariant
                0 <= i <= names.len(),
                ns == seqs_of(names@),
                forall|x: Seq<Seq<u8>>| #[trigger] idx.file(x) is Some == file_after_all(ns.take(i as int), x),
                forall|x: Seq<Seq<u8>>| #[trigger] idx.is_dir(x) == dir_after_all(ns.take(i as int), x),
            decreases names.len() - i,
        {
            let p = Path::from_bytes(names[i].as_slice());
            idx.insert(&p, ());
            proof {
                assert(ns.take(i + 1).drop_last() =~= ns.take(i as int));
                assert(ns.take(i + 1).last() == names@[i as int]@);
            }
            i += 1;
        }
        proof {
            assert(ns.take(names.len() as int) =~= ns);
        }
        Ok(ZipFs { archive: self.archive, index: Some(idx) })
    }

    /// Opens the file at `path` (see [`zip_open`]).
    pub fn open_path(&self, path: &Path) -> (r: Result<File<'static>, Error>)
        ensures
            match r {
                Ok(f) => zip_open(self.archive(), path@) == Ok::<Seq<u8>, Error>(f.contents()) && f.position() == 0,
                Err(e) => zip_open(self.archive(), path@) == Err::<Seq<u8>, Error>(e),
            },
    {
        let name = path.to_bytes();
        match as_utf8(name.as_slice()) {
            None => Err(Error::Utf8),
            Some(s) => match zip_read(self.archive.as_slice(), s) {
                Ok(d) => Ok(File::zip(d)),
                Err(e) => Err(e),
            },
        }
    }

    /// Opens the file at `path`, after normalizing it.
    pub fn open(&self, path: &str) -> (r: Result<File<'static>, Error>)
        ensures
            match r {
                Ok(f) => zip_open(self.archive(), normalize(Path::spec_new(path))) == Ok::<Seq<u8>, Error>(f.contents()) && f.position() == 0,
                Err(e) => zip_open(self.archive(), normalize(Path::spec_new(path))) == Err::<Seq<u8>, Error>(e),
            },
    {
        self.open_path(&normalize_path(&Path::new(path)))
    }

    /// The entries of the directory at `path`, after normalizing it.
    pub fn entries(&self, path: &str) -> (r: Vec<Entry>)
        ensures
            crate::entry::entry_views(r@) == self.listing(normalize(Path::spec_new(path))),
            lists(
                crate::entry::entry_views(r@),
                self.child_files(normalize(Path::spec_new(path))),
                self.child_dirs(normalize(Path::spec_new(path))),
            ),
    {
        self.entries_path(&Path::new(path))
    }

    /// The entries of the directory at `path`, from the index; none without one.
    pub fn entries_path(&self, path: &Path) -> (r: Vec<Entry>)
        ensures
            crate::entry::entry_views(r@) == self.listing(normalize(path@)),
            lists(crate::entry::entry_views(r@), self.child_files(normalize(path@)), self.child_dirs(normalize(path@))),
    {
        let ghost q = normalize(path@);
        match &self.index {
            Some(idx) => {
                let r = idx.entries(path);
                proof {
                    assert(self.child_files(q) =~= idx.child_files(q));
                    assert(self.child_dirs(q) =~= idx.child_dirs(q));
                }
                r
            },
            None => {
                let r: Vec<Entry> = Vec::new();
                proof {
                    assert(crate::entry::entry_views(r@) =~= Seq::empty());
                    assert(self.child_files(q) =~= Set::empty());
                    assert(self.child_dirs(q) =~= Set::empty());
                }
                r
            },
        }
    }
}

} // verus!
