//! Stores and their compositions: overlays, the caseless resolver and the
//! mount table.
use vstd::prelude::*;
use crate::archive::{tar_open, zip_open, TarFs, ZipFs};
use crate::entry::{entry_views, Entry, EntryKind};
use crate::error::Error;
use crate::file::File;
use crate::path::{as_utf8, bytes_eq, copy_bytes, copy_comps, is_prefix, normalize, normalize_path, root_comp, seqs_of, Path};
use crate::ram::RamFs;

verus! {

/// A listing: names with their kinds.
pub type Listing = Seq<(Seq<u8>, EntryKind)>;

/// Generic file storage: every kind of store, and their compositions.
pub enum Store {
    /// In-memory files.
    Ram(RamFs),
    /// A tar archive, plain or gzip-compressed.
    Tar(TarFs),
    /// A zip archive.
    Zip(ZipFs),
    /// Stores tried in order: earlier ones win.
    Overlay(Vec<Store>),
    /// Case-insensitive lookups over a store.
    Caseless(Box<CaselessFs>),
    /// A mount table.
    Mounts(MiniFs),
}

/// Caseless filesystem wrapping an inner filesystem.
pub struct CaselessFs {
    inner: Store,
}

/// A store bound to a path prefix.
pub struct Mount {
    path: Path,
    store: Store,
}

/// Virtual filesystem: stores mounted under path prefixes, newest first.
pub struct MiniFs {
    mounts: Vec<Mount>,
}

impl Mount {
    /// The normalized prefix the store is bound at.
    pub closed spec fn prefix(&self) -> Seq<Seq<u8>> {
        self.path@
    }

    /// The bound store.
    pub closed spec fn store(&self) -> Store {
        self.store
    }
}

impl MiniFs {
    /// The mounts, oldest first.
    pub closed spec fn mounts(&self) -> Seq<Mount> {
        self.mounts@
    }
}

/// Some entry of `acc` is named `n`.
pub open spec fn has_name(acc: Listing, n: Seq<u8>) -> bool {
    exists|i: int| 0 <= i < acc.len() && #[trigger] acc[i].0 == n
}

/// `acc` followed by the entries of `es` from `j` on whose names are not
/// listed yet: the first entry of each name wins.
pub open spec fn merge(acc: Listing, es: Listing, j: int) -> Listing
    decreases es.len() - j,
{
    if 0 <= j < es.len() {
        if has_name(acc, es[j].0) {
            merge(acc, es, j + 1)
        } else {
            merge(acc.push(es[j]), es, j + 1)
        }
    } else {
        acc
    }
}

/// ASCII case folding of one byte.
pub open spec fn fold_byte(b: u8) -> u8 {
    if 65 <= b <= 90 {
        (b + 32) as u8
    } else {
        b
    }
}

/// ASCII case folding of a byte string.
pub open spec fn fold(s: Seq<u8>) -> Seq<u8> {
    s.map_values(|b: u8| fold_byte(b))
}

/// The entry name `e` matches the target name `t` regardless of case: text
/// names are compared after ASCII case folding, other names byte for byte.
pub open spec fn caseless_eq(t: Seq<u8>, e: Seq<u8>) -> bool {
    if vstd::utf8::valid_utf8(t) {
        vstd::utf8::valid_utf8(e) && fold(t) == fold(e)
    } else {
        e == t
    }
}

/// `acc` followed by `c` extended with each name of `es`, from `j` on, that
/// matches `comp`.
pub open spec fn matches(
    c: Seq<Seq<u8>>,
    es: Listing,
    comp: Seq<u8>,
    j: int,
    acc: Seq<Seq<Seq<u8>>>,
) -> Seq<Seq<Seq<u8>>>
    decreases es.len() - j,
{
    if 0 <= j < es.len() {
        if caseless_eq(comp, es[j].0) {
            matches(c, es, comp, j + 1, acc.push(c.push(es[j].0)))
        } else {
            matches(c, es, comp, j + 1, acc)
        }
    } else {
        acc
    }
}

/// What opening `p` in `s` gives: the file's bytes or an error.
pub open spec fn open_spec(s: Store, p: Seq<Seq<u8>>) -> Result<Seq<u8>, Error>
    decreases s, 0int, 0int,
{
    match s {
        Store::Ram(r) => r.open_spec(p),
        Store::Tar(t) => tar_open(t.archive(), p),
        Store::Zip(z) => zip_open(z.archive(), p),
        Store::Overlay(v) => overlay_open(v@, p, 0),
        Store::Caseless(c) => caseless_open(c.inner(), p),
        Store::Mounts(m) => mounts_open(m.mounts(), p, m.mounts().len() as int),
    }
}

/// What listing `p` in `s` gives: the entries directly inside it, or an error.
pub open spec fn entries_spec(s: Store, p: Seq<Seq<u8>>) -> Result<Listing, Error>
    decreases s, 0int, 0int,
{
    match s {
        Store::Ram(r) => Ok(r.listing(normalize(p))),
        Store::Tar(_) => Ok(Seq::empty()),
        Store::Zip(z) => Ok(z.listing(normalize(p))),
        Store::Overlay(v) => overlay_entries(v@, p, 0, Seq::empty()),
        Store::Caseless(c) => entries_spec(c.inner(), p),
        Store::Mounts(m) => mounts_entries(m.mounts(), p, m.mounts().len() as int, Seq::empty()),
    }
}

/// Opening `p` in the overlay `v` from member `i` on: the first result that
/// is not `FileNotFound`, else `FileNotFound`.
pub open spec fn overlay_open(v: Seq<Store>, p: Seq<Seq<u8>>, i: int) -> Result<Seq<u8>, Error>
    decreases v, 0int, v.len() - i,
{
    if 0 <= i < v.len() {
        match open_spec(v[i], p) {
            Err(Error::FileNotFound) => overlay_open(v, p, i + 1),
            r => r,
        }
    } else {
        Err(Error::FileNotFound)
    }
}

/// Listing `p` in the overlay `v` from member `i` on, after `acc`: the
/// members' entries in member order, each name once; the first error wins.
pub open spec fn overlay_entries(v: Seq<Store>, p: Seq<Seq<u8>>, i: int, acc: Listing) -> Result<Listing, Error>
    decreases v, 0int, v.len() - i,
{
    if 0 <= i < v.len() {
        match entries_spec(v[i], p) {
            Err(e) => Err(e),
            Ok(es) => overlay_entries(v, p, i + 1, merge(acc, es, 0)),
        }
    } else {
        Ok(acc)
    }
}

/// Opening `p` through the mounts `ms[..n]`, newest first: the newest mount
/// whose prefix `p` starts with is asked for the rest of `p`.
pub open spec fn mounts_open(ms: Seq<Mount>, p: Seq<Seq<u8>>, n: int) -> Result<Seq<u8>, Error>
    decreases ms, 0int, n,
{
    if 0 < n <= ms.len() {
        let pre = ms[n - 1].prefix();
        if is_prefix(pre, p) {
            open_spec(ms[n - 1].store(), p.skip(pre.len() as int))
        } else {
            mounts_open(ms, p, n - 1)
        }
    } else {
        Err(Error::FileNotFound)
    }
}

/// Listing `p` through the mounts `ms[..n]`, newest first, after `acc`:
/// every mount whose prefix `p` starts with adds its entries, each name once.
pub open spec fn mounts_entries(ms: Seq<Mount>, p: Seq<Seq<u8>>, n: int, acc: Listing) -> Result<Listing, Error>
    decreases ms, 0int, n,
{
    if 0 < n <= ms.len() {
        let pre = ms[n - 1].prefix();
        if is_prefix(pre, p) {
            match entries_spec(ms[n - 1].store(), p.skip(pre.len() as int)) {
                Err(e) => Err(e),
                Ok(es) => mounts_entries(ms, p, n - 1, merge(acc, es, 0)),
            }
        } else {
            mounts_entries(ms, p, n - 1, acc)
        }
    } else {
        Ok(acc)
    }
}

/// One step of the caseless search: the candidates in `frontier`, from `i`
/// on, extended by each entry matching `comp`, after `acc`. A root component
/// starts over at the root.
pub open spec fn find_step(
    inner: Store,
    frontier: Seq<Seq<Seq<u8>>>,
    comp: Seq<u8>,
    i: int,
    acc: Seq<Seq<Seq<u8>>>,
) -> Seq<Seq<Seq<u8>>>
    decreases inner, 0int, frontier.len() - i + 1,
{
    if comp == root_comp() {
        seq![seq![root_comp()]]
    } else if 0 <= i < frontier.len() {
        let next = match entries_spec(inner, frontier[i]) {
            Ok(es) => matches(frontier[i], es, comp, 0, acc),
            Err(_) => acc,
        };
        find_step(inner, frontier, comp, i + 1, next)
    } else {
        acc
    }
}

/// The caseless search over the components `comps`, from `frontier`; it
/// stops as soon as no candidate is left.
pub open spec fn find_from(inner: Store, comps: Seq<Seq<u8>>, frontier: Seq<Seq<Seq<u8>>>) -> Seq<Seq<Seq<u8>>>
    decreases inner, 1int, comps.len(),
{
    if comps.len() == 0 {
        frontier
    } else {
        let f = find_step(inner, frontier, comps[0], 0, Seq::empty());
        if f.len() == 0 {
            f
        } else {
            find_from(inner, comps.drop_first(), f)
        }
    }
}

/// The real paths of `inner` that match `p` regardless of case.
pub open spec fn find_spec(inner: Store, p: Seq<Seq<u8>>) -> Seq<Seq<Seq<u8>>> {
    find_from(inner, normalize(p), seq![Seq::empty()])
}

/// The first of the candidates from `i` on that opens.
pub open spec fn first_open(inner: Store, cands: Seq<Seq<Seq<u8>>>, i: int) -> Result<Seq<u8>, Error>
    decreases inner, 0int, cands.len() - i + 1,
{
    if 0 <= i < cands.len() {
        match open_spec(inner, cands[i]) {
            Ok(d) => Ok(d),
            Err(_) => first_open(inner, cands, i + 1),
        }
    } else {
        Err(Error::FileNotFound)
    }
}

/// Opening `p` regardless of case: the exact path first; where it is not
/// found, the first candidate of the caseless search that opens.
pub open spec fn caseless_open(inner: Store, p: Seq<Seq<u8>>) -> Result<Seq<u8>, Error>
    decreases inner, 2int, 0int,
{
    match open_spec(inner, p) {
        Err(Error::FileNotFound) => first_open(inner, find_spec(inner, p), 0),
        r => r,
    }
}


/// An open's outcome as bytes.
pub open spec fn opened<'a>(r: Result<File<'a>, Error>) -> Result<Seq<u8>, Error> {
    match r {
        Ok(f) => Ok(f.contents()),
        Err(e) => Err(e),
    }
}

/// An opened file starts at position 0.
pub open spec fn fresh<'a>(r: Result<File<'a>, Error>) -> bool {
    r is Ok ==> r->Ok_0.position() == 0
}

/// A listing's outcome as views.
pub open spec fn listed(r: Result<Vec<Entry>, Error>) -> Result<Listing, Error> {
    match r {
        Ok(v) => Ok(entry_views(v@)),
        Err(e) => Err(e),
    }
}

/// Candidate paths as component sequences.
pub open spec fn cands_of(v: Seq<Vec<Vec<u8>>>) -> Seq<Seq<Seq<u8>>> {
    Seq::new(v.len(), |i: int| seqs_of(v[i]@))
}

/// Views of paths.
pub open spec fn paths_of(v: Seq<Path>) -> Seq<Seq<Seq<u8>>> {
    Seq::new(v.len(), |i: int| v[i]@)
}

/// Whether some entry of `acc` is named `n`.
fn has_name_in(acc: &Vec<Entry>, n: &Vec<u8>) -> (r: bool)
    ensures
        r == has_name(entry_views(acc@), n@),
{
    let mut i: usize = 0;
    while i < acc.len()
        invariant
            0 <= i <= acc.len(),
            forall|j: int| 0 <= j < i ==> acc@[j].name@ != n@,
        decreases acc.len() - i,
    {
        if bytes_eq(&acc[i].name, n) {
            proof {
                assert(entry_views(acc@)[i as int].0 == n@);
            }
            return true;
        }
        i += 1;
    }
    proof {
        assert forall|j: int| 0 <= j < entry_views(acc@).len() implies #[trigger] entry_views(acc@)[j].0 != n@ by {
            assert(entry_views(acc@)[j].0 == acc@[j].name@);
        }
    }
    false
}

/// Appends to `acc` the entries of `es` whose names it does not list yet.
fn merge_into(acc: &mut Vec<Entry>, es: Vec<Entry>)
    ensures
        entry_views(final(acc)@) == merge(entry_views(old(acc)@), entry_views(es@), 0),
{
    let ghost ev = entry_views(es@);
    let mut j: usize = 0;
    while j < es.len()
        invariant
            0 <= j <= es.len(),
            ev == entry_views(es@),
            merge(entry_views(old(acc)@), ev, 0) == merge(entry_views(acc@), ev, j as int),
        decreases es.len() - j,
    {
        let ghost before = entry_views(acc@);
        proof {
            assert(ev[j as int] == (es@[j as int].name@, es@[j as int].kind));
        }
        if !has_name_in(acc, &es[j].name) {
            acc.push(Entry { name: copy_bytes(&es[j].name), kind: es[j].kind });
            proof {
                assert(entry_views(acc@) =~= before.push(ev[j as int]));
            }
        }
        j += 1;
    }
}

/// Folds one ASCII letter to lower case.
fn fold_one(b: u8) -> (r: u8)
    ensures
        r == fold_byte(b),
{
    if 65 <= b && b <= 90 {
        b + 32
    } else {
        b
    }
}

/// Whether `a` and `b` are equal after ASCII case folding.
fn folded_eq(a: &Vec<u8>, b: &Vec<u8>) -> (r: bool)
    ensures
        r == (fold(a@) == fold(b@)),
{
    if a.len() != b.len() {
        proof {
            assert(fold(a@).len() != fold(b@).len());
        }
        return false;
    }
    let mut i: usize = 0;
    while i < a.len()
        invariant
            0 <= i <= a.len(),
            a.len() == b.len(),
            forall|j: int| 0 <= j < i ==> fold_byte(a@[j]) == fold_byte(b@[j]),
        decreases a.len() - i,
    {
        if fold_one(a[i]) != fold_one(b[i]) {
            proof {
                assert(fold(a@)[i as int] != fold(b@)[i as int]);
            }
            return false;
        }
        i += 1;
    }
    proof {
        assert(fold(a@) =~= fold(b@));
    }
    true
}

/// Whether the entry name `e` matches the target `t` regardless of case.
fn names_match(t: &Vec<u8>, e: &Vec<u8>) -> (r: bool)
    ensures
        r == caseless_eq(t@, e@),
{
    if as_utf8(t.as_slice()).is_some() {
        as_utf8(e.as_slice()).is_some() && folded_eq(t, e)
    } else {
        bytes_eq(e, t)
    }
}

impl Store {
    /// Opens the file at `path`, taken as normalized.
    pub fn open_path(&self, path: &Path) -> (r: Result<File<'_>, Error>)
        ensures
            opened(r) == open_spec(*self, path@),
            fresh(r),
        decreases self, 0int, 0int,
    {
        match self {
            Store::Ram(r) => r.open_path(path),
            Store::Tar(t) => t.open_path(path),
            Store::Zip(z) => z.open_path(path),
            Store::Overlay(v) => {
                let mut i: usize = 0;
                while i < v.len()
                    invariant
                        0 <= i <= v.len(),
                        *self == Store::Overlay(*v),
                        overlay_open(v@, path@, 0) == overlay_open(v@, path@, i as int),
                    decreases v.len() - i,
                {
                    let r = v[i].open_path(path);
                    match r {
                        Err(Error::FileNotFound) => {},
                        _ => {
                            return r;
                        },
                    }
                    i += 1;
                }
                Err(Error::FileNotFound)
            },
            Store::Caseless(c) => c.open_path(path),
            Store::Mounts(m) => m.open_path(path),
        }
    }

    /// The entries directly inside the directory at `path`, taken as
    /// normalized.
    pub fn entries_path(&self, path: &Path) -> (r: Result<Vec<Entry>, Error>)
        ensures
            listed(r) == entries_spec(*self, path@),
        decreases self, 0int, 0int,
    {
        match self {
            Store::Ram(r) => Ok(r.entries_path(path)),
            Store::Tar(t) => {
                let es = t.entries_path(path);
                proof {
                    assert(entry_views(es@) =~= Seq::empty());
                }
                Ok(es)
            },
            Store::Zip(z) => Ok(z.entries_path(path)),
            Store::Overlay(v) => {
                let mut acc: Vec<Entry> = Vec::new();
                let mut i: usize = 0;
                proof {
                    assert(entry_views(acc@) =~= Seq::empty());
                }
                while i < v.len()
                    invariant
                        0 <= i <= v.len(),
                        *self == Store::Overlay(*v),
                        overlay_entries(v@, path@, 0, Seq::empty()) == overlay_entries(v@, path@, i as int, entry_views(acc@)),
                    decreases v.len() - i,
                {
                    match v[i].entries_path(path) {
                        Err(e) => {
                            return Err(e);
                        },
                        Ok(es) => merge_into(&mut acc, es),
                    }
                    i += 1;
                }
                Ok(acc)
            },
            Store::Caseless(c) => c.entries_path(path),
            Store::Mounts(m) => m.entries_path(path),
        }
    }

    /// Opens the file at `path`, after normalizing it.
    pub fn open(&self, path: &str) -> (r: Result<File<'_>, Error>)
        ensures
            opened(r) == open_spec(*self, normalize(Path::spec_new(path))),
            fresh(r),
    {
        let p = normalize_path(&Path::new(path));
        self.open_path(&p)
    }

    /// The entries of the directory at `path`, after normalizing it.
    pub fn entries(&self, path: &str) -> (r: Result<Vec<Entry>, Error>)
        ensures
            listed(r) == entries_spec(*self, normalize(Path::spec_new(path))),
    {
        let p = normalize_path(&Path::new(path));
        self.entries_path(&p)
    }
}

impl CaselessFs {
    /// The wrapped store.
    pub closed spec fn inner(&self) -> Store {
        self.inner
    }

    /// Creates a new caseless filesystem with the provided inner filesystem.
    pub fn new(inner: Store) -> (r: CaselessFs)
        ensures
            r.inner() == inner,
    {
        CaselessFs { inner }
    }

    /// Moves the inner filesystem out of the caseless filesystem.
    pub fn into_inner(self) -> (r: Store)
        ensures
            r == self.inner(),
    {
        self.inner
    }

    /// Gets a reference to the inner filesystem.
    pub fn get_ref(&self) -> (r: &Store)
        ensures
            *r == self.inner(),
    {
        &self.inner
    }

    /// Gets a mutable reference to the inner filesystem.
    pub fn get_mut(&mut self) -> (r: &mut Store)
        ensures
            *r == old(self).inner(),
            final(self).inner() == *final(r),
    {
        &mut self.inner
    }

    /// The candidates of `frontier`, each extended by the entries that match
    /// `comp` (see [`find_step`]).
    fn step(&self, frontier: &Vec<Vec<Vec<u8>>>, comp: &Vec<u8>) -> (r: Vec<Vec<Vec<u8>>>)
        ensures
            cands_of(r@) == find_step(self.inner, cands_of(frontier@), comp@, 0, Seq::empty()),
        decreases self.inner(), 0int, 1int,
    {
        let ghost f = cands_of(frontier@);
        let mut acc: Vec<Vec<Vec<u8>>> = Vec::new();
        if is_root_name(comp) {
            let mut root: Vec<u8> = Vec::new();
            root.push(47u8);
            let mut c: Vec<Vec<u8>> = Vec::new();
            c.push(root);
            acc.push(c);
            proof {
                assert(acc@[0]@[0]@ =~= root_comp());
                assert(seqs_of(acc@[0]@) =~= seq![root_comp()]);
                assert(cands_of(acc@) =~= seq![seq![root_comp()]]);
            }
            return acc;
        }
        let mut i: usize = 0;
        proof {
            assert(cands_of(acc@) =~= Seq::empty());
        }
        while i < frontier.len()
            invariant
                0 <= i <= frontier.len(),
                f == cands_of(frontier@),
                comp@ != root_comp(),
                find_step(self.inner, f, comp@, 0, Seq::empty()) == find_step(self.inner, f, comp@, i as int, cands_of(acc@)),
            decreases frontier.len() - i,
        {
            let c = &frontier[i];
            let cp = Path::from_components(copy_comps(c));
            proof {
                assert(f[i as int] == seqs_of(c@));
            }
            match self.inner.entries_path(&cp) {
                Ok(es) => {
                    let ghost ev = entry_views(es@);
                    let ghost acc0 = cands_of(acc@);
                    let mut j: usize = 0;
                    while j < es.len()
                        invariant
                            0 <= j <= es.len(),
                            ev == entry_views(es@),
                            f == cands_of(frontier@),
                            i < frontier.len(),
                            c == frontier@[i as int],
                            matches(f[i as int], ev, comp@, 0, acc0) == matches(f[i as int], ev, comp@, j as int, cands_of(acc@)),
                        decreases es.len() - j,
                    {
                        proof {
                            assert(ev[j as int].0 == es@[j as int].name@);
                        }
                        if names_match(comp, &es[j].name) {
                            let mut nc = copy_comps(c);
                            nc.push(copy_bytes(&es[j].name));
                            let ghost before = cands_of(acc@);
                            acc.push(nc);
                            proof {
                                assert(seqs_of(nc@) =~= seqs_of(c@).push(es@[j as int].name@));
                                assert(cands_of(acc@) =~= before.push(f[i as int].push(ev[j as int].0)));
                            }
                        }
                        j += 1;
                    }
                },
                Err(_) => {},
            }
            i += 1;
        }
        acc
    }

    /// Finds the real paths that match the caseless path `path`.
    pub fn find(&self, path: &Path) -> (r: Vec<Path>)
        ensures
            paths_of(r@) == find_spec(self.inner(), path@),
        decreases self.inner(), 1int, 0int,
    {
        let np = normalize_path(path);
        let comps = np.components();
        let ghost q = normalize(path@);
        let mut frontier: Vec<Vec<Vec<u8>>> = Vec::new();
        frontier.push(Vec::new());
        proof {
            assert(seqs_of(frontier@[0]@) =~= Seq::<Seq<u8>>::empty());
            assert(cands_of(frontier@) =~= seq![Seq::<Seq<u8>>::empty()]);
            assert(q.skip(0) =~= q);
        }
        let mut k: usize = 0;
        while k < comps.len()
            invariant
                q == normalize(path@),
                seqs_of(comps@) == q,
                comps.len() == q.len(),
                0 <= k <= q.len(),
                find_spec(self.inner, path@) == find_from(self.inner, q.skip(k as int), cands_of(frontier@)),
            decreases q.len() - k,
        {
            let next = self.step(&frontier, &comps[k]);
            proof {
                assert(q.skip(k as int)[0] == comps@[k as int]@);
                assert(q.skip(k as int).drop_first() =~= q.skip(k + 1));
            }
            if next.len() == 0 {
                proof {
                    assert(paths_of(Seq::<Path>::empty()) =~= cands_of(next@));
                }
                return Vec::new();
            }
            frontier = next;
            k += 1;
        }
        proof {
            assert(q.skip(k as int).len() == 0);
        }
        let mut r: Vec<Path> = Vec::new();
        let mut i: usize = 0;
        while i < frontier.len()
            invariant
                0 <= i <= frontier.len(),
                paths_of(r@) == cands_of(frontier@).take(i as int),
            decreases frontier.len() - i,
        {
            let ghost before = paths_of(r@);
            r.push(Path::from_components(copy_comps(&frontier[i])));
            proof {
                assert(paths_of(r@) =~= before.push(cands_of(frontier@)[i as int]));
                assert(cands_of(frontier@).take(i + 1) =~= cands_of(frontier@).take(i as int).push(cands_of(frontier@)[i as int]));
            }
            i += 1;
        }
        proof {
            assert(cands_of(frontier@).take(frontier.len() as int) =~= cands_of(frontier@));
        }
        r
    }

    /// Opens `path` regardless of case (see [`caseless_open`]).
    pub fn open_path(&self, path: &Path) -> (r: Result<File<'_>, Error>)
        ensures
            opened(r) == caseless_open(self.inner(), path@),
            fresh(r),
        decreases self.inner(), 2int, 0int,
    {
        let exact = self.inner.open_path(path);
        match exact {
            Err(Error::FileNotFound) => {},
            _ => {
                return exact;
            },
        }
        let cands = self.find(path);
        let ghost cs = paths_of(cands@);
        let mut i: usize = 0;
        while i < cands.len()
            invariant
                0 <= i <= cands.len(),
                cs == paths_of(cands@),
                cs == find_spec(self.inner, path@),
                open_spec(self.inner, path@) == Err::<Seq<u8>, Error>(Error::FileNotFound),
                first_open(self.inner, cs, 0) == first_open(self.inner, cs, i as int),
            decreases cands.len() - i,
        {
            let r = self.inner.open_path(&cands[i]);
            if r.is_ok() {
                return r;
            }
            i += 1;
        }
        Err(Error::FileNotFound)
    }

    /// The entries of the inner filesystem.
    pub fn entries_path(&self, path: &Path) -> (r: Result<Vec<Entry>, Error>)
        ensures
            listed(r) == entries_spec(self.inner(), path@),
        decreases self.inner(), 0int, 1int,
    {
        self.inner.entries_path(path)
    }

    /// Opens `path`, normalized, regardless of case.
    pub fn open(&self, path: &str) -> (r: Result<File<'_>, Error>)
        ensures
            opened(r) == caseless_open(self.inner(), normalize(Path::spec_new(path))),
            fresh(r),
    {
        let p = normalize_path(&Path::new(path));
        self.open_path(&p)
    }

    /// The entries of the inner filesystem at `path`, normalized.
    pub fn entries(&self, path: &str) -> (r: Result<Vec<Entry>, Error>)
        ensures
            listed(r) == entries_spec(self.inner(), normalize(Path::spec_new(path))),
    {
        let p = normalize_path(&Path::new(path));
        self.entries_path(&p)
    }
}

/// Whether `c` is the root component.
fn is_root_name(c: &Vec<u8>) -> (r: bool)
    ensures
        r == (c@ == root_comp()),
{
    let r = c.len() == 1 && c[0] == 47u8;
    proof {
        if r {
            assert(c@ =~= root_comp());
        }
    }
    r
}

/// The newest of the mounts `ms[..n]` bound exactly at `q`; -1 where none is.
pub open spec fn last_mount(ms: Seq<(Seq<Seq<u8>>, Store)>, q: Seq<Seq<u8>>, n: int) -> int
    decreases n,
{
    if n <= 0 || n > ms.len() {
        -1
    } else if ms[n - 1].0 == q {
        n - 1
    } else {
        last_mount(ms, q, n - 1)
    }
}

impl MiniFs {
    /// The mounts, oldest first, as (normalized prefix, store).
    pub open spec fn mount_list(&self) -> Seq<(Seq<Seq<u8>>, Store)> {
        Seq::new(self.mounts().len(), |i: int| (self.mounts()[i].prefix(), self.mounts()[i].store()))
    }

    /// An empty mount table.
    pub fn new() -> (r: MiniFs)
        ensures
            r.mount_list() == Seq::<(Seq<Seq<u8>>, Store)>::empty(),
    {
        let r = MiniFs { mounts: Vec::new() };
        proof {
            assert(r.mount_list() =~= Seq::<(Seq<Seq<u8>>, Store)>::empty());
        }
        r
    }

    /// Mounts `store` at `path`, normalized, after all current mounts: it
    /// takes precedence over them.
    pub fn mount(self, path: &str, store: Store) -> (r: MiniFs)
        ensures
            r.mount_list() == self.mount_list().push((normalize(Path::spec_new(path)), store)),
    {
        let ghost before = self.mount_list();
        let mut mounts = self.mounts;
        mounts.push(Mount { path: normalize_path(&Path::new(path)), store });
        let r = MiniFs { mounts };
        proof {
            assert(r.mount_list() =~= before.push((normalize(Path::spec_new(path)), store)));
        }
        r
    }

    /// Removes the newest mount bound exactly at `path`, normalized, and
    /// hands back its store; the other mounts keep their order.
    pub fn umount(&mut self, path: &str) -> (r: Option<Store>)
        ensures
            ({
                let q = normalize(Path::spec_new(path));
                let k = last_mount(old(self).mount_list(), q, old(self).mount_list().len() as int);
                &&& k < 0 ==> r is None && final(self).mount_list() == old(self).mount_list()
                &&& k >= 0 ==> r == Some(old(self).mount_list()[k].1) && final(self).mount_list()
                    == old(self).mount_list().remove(k)
            }),
    {
        let q = normalize_path(&Path::new(path));
        let ghost ls = self.mount_list();
        let mut n: usize = self.mounts.len();
        while n > 0
            invariant
                0 <= n <= self.mounts.len(),
                ls == self.mount_list(),
                ls == old(self).mount_list(),
                q@ == normalize(Path::spec_new(path)),
                ls.len() == self.mounts.len(),
                last_mount(ls, q@, ls.len() as int) == last_mount(ls, q@, n as int),
            decreases n,
        {
            if self.mounts[n - 1].path.eq(&q) {
                let ghost here = self.mounts@[n - 1];
                proof {
                    assert(ls[n - 1] == (here.path@, here.store));
                }
                let m = self.mounts.remove(n - 1);
                proof {
                    assert(m == here);
                    assert(self.mount_list() =~= ls.remove(n - 1));
                }
                return Some(m.store);
            }
            n -= 1;
        }
        None
    }

    /// Opens `path`, taken as normalized, in the newest mount whose prefix
    /// it starts with; `FileNotFound` where no mount matches.
    pub fn open_path(&self, path: &Path) -> (r: Result<File<'_>, Error>)
        ensures
            opened(r) == open_spec(Store::Mounts(*self), path@),
            fresh(r),
        decreases self, 0int, 0int,
    {
        let mut n: usize = self.mounts.len();
        while n > 0
            invariant
                0 <= n <= self.mounts.len(),
                mounts_open(self.mounts@, path@, self.mounts@.len() as int) == mounts_open(self.mounts@, path@, n as int),
            decreases n,
        {
            let m = &self.mounts[n - 1];
            match path.strip_prefix(&m.path) {
                Some(rest) => {
                    return m.store.open_path(&rest);
                },
                None => {},
            }
            n -= 1;
        }
        Err(Error::FileNotFound)
    }

    /// The entries at `path`, taken as normalized, from every mount whose
    /// prefix it starts with, newest first, each name once.
    pub fn entries_path(&self, path: &Path) -> (r: Result<Vec<Entry>, Error>)
        ensures
            listed(r) == entries_spec(Store::Mounts(*self), path@),
        decreases self, 0int, 0int,
    {
        let mut acc: Vec<Entry> = Vec::new();
        let mut n: usize = self.mounts.len();
        proof {
            assert(entry_views(acc@) =~= Seq::empty());
        }
        while n > 0
            invariant
                0 <= n <= self.mounts.len(),
                mounts_entries(self.mounts@, path@, self.mounts@.len() as int, Seq::empty()) == mounts_entries(
                    self.mounts@,
                    path@,
                    n as int,
                    entry_views(acc@),
                ),
            decreases n,
        {
            let m = &self.mounts[n - 1];
            match path.strip_prefix(&m.path) {
                Some(rest) => {
                    match m.store.entries_path(&rest) {
                        Err(e) => {
                            return Err(e);
                        },
                        Ok(es) => merge_into(&mut acc, es),
                    }
                },
                None => {},
            }
            n -= 1;
        }
        Ok(acc)
    }

    /// Opens `path`, normalized, through the mounts.
    pub fn open(&self, path: &str) -> (r: Result<File<'_>, Error>)
        ensures
            opened(r) == open_spec(Store::Mounts(*self), normalize(Path::spec_new(path))),
            fresh(r),
    {
        let p = normalize_path(&Path::new(path));
        self.open_path(&p)
    }

    /// The entries at `path`, normalized, through the mounts.
    pub fn entries(&self, path: &str) -> (r: Result<Vec<Entry>, Error>)
        ensures
            listed(r) == entries_spec(Store::Mounts(*self), normalize(Path::spec_new(path))),
    {
        let p = normalize_path(&Path::new(path));
        self.entries_path(&p)
    }
}


/// Every name of `l` appears once.
pub open spec fn names_unique(l: Listing) -> bool {
    forall|i: int, j: int| 0 <= i < j < l.len() ==> (#[trigger] l[i]).0 != (#[trigger] l[j]).0
}

proof fn lemma_merge_unique(acc: Listing, es: Listing, j: int)
    requires
        names_unique(acc),
    ensures
        names_unique(merge(acc, es, j)),
        forall|n: Seq<u8>| has_name(acc, n) ==> has_name(merge(acc, es, j), n),
        forall|k: int| 0 <= j <= k < es.len() ==> has_name(merge(acc, es, j), (#[trigger] es[k]).0),
    decreases es.len() - j,
{
    if 0 <= j < es.len() {
        if has_name(acc, es[j].0) {
            lemma_merge_unique(acc, es, j + 1);
        } else {
            let a2 = acc.push(es[j]);
            assert forall|x: int, y: int| 0 <= x < y < a2.len() implies (#[trigger] a2[x]).0 != (#[trigger] a2[y]).0 by {
                if y == acc.len() {
                    assert(a2[x] == acc[x]);
                }
            }
            assert forall|n: Seq<u8>| has_name(acc, n) implies has_name(a2, n) by {
                let i = choose|i: int| 0 <= i < acc.len() && #[trigger] acc[i].0 == n;
                assert(a2[i] == acc[i]);
            }
            assert(a2[acc.len() as int] == es[j]);
            assert(has_name(a2, es[j].0));
            lemma_merge_unique(a2, es, j + 1);
        }
        assert forall|k: int| 0 <= j <= k < es.len() implies has_name(merge(acc, es, j), (#[trigger] es[k]).0) by {
            if k == j {
                if has_name(acc, es[j].0) {
                    assert(has_name(merge(acc, es, j + 1), es[j].0));
                } else {
                    assert(has_name(acc.push(es[j]), es[j].0));
                    assert(has_name(merge(acc.push(es[j]), es, j + 1), es[j].0));
                }
            }
        }
    }
}

proof fn lemma_overlay_entries_unique(v: Seq<Store>, p: Seq<Seq<u8>>, i: int, acc: Listing)
    requires
        names_unique(acc),
    ensures
        overlay_entries(v, p, i, acc) is Ok ==> names_unique(overlay_entries(v, p, i, acc)->Ok_0),
    decreases v.len() - i,
{
    if 0 <= i < v.len() {
        if let Ok(es) = entries_spec(v[i], p) {
            lemma_merge_unique(acc, es, 0);
            lemma_overlay_entries_unique(v, p, i + 1, merge(acc, es, 0));
        }
    }
}

proof fn lemma_mounts_entries_unique(ms: Seq<Mount>, p: Seq<Seq<u8>>, n: int, acc: Listing)
    requires
        names_unique(acc),
    ensures
        mounts_entries(ms, p, n, acc) is Ok ==> names_unique(mounts_entries(ms, p, n, acc)->Ok_0),
    decreases n,
{
    if 0 < n <= ms.len() {
        let pre = ms[n - 1].path@;
        if is_prefix(pre, p) {
            if let Ok(es) = entries_spec(ms[n - 1].store, p.skip(pre.len() as int)) {
                lemma_merge_unique(acc, es, 0);
                lemma_mounts_entries_unique(ms, p, n - 1, merge(acc, es, 0));
            }
        } else {
            lemma_mounts_entries_unique(ms, p, n - 1, acc);
        }
    }
}

/// Merged listings hold each name once: an overlay's listing and a mount
/// table's listing never repeat a name.
pub proof fn law_listing_names_unique(s: Store, p: Seq<Seq<u8>>)
    requires
        s is Overlay || s is Mounts,
    ensures
        entries_spec(s, p) is Ok ==> names_unique(entries_spec(s, p)->Ok_0),
{
    match s {
        Store::Overlay(v) => lemma_overlay_entries_unique(v@, p, 0, Seq::empty()),
        Store::Mounts(m) => lemma_mounts_entries_unique(m.mounts@, p, m.mounts@.len() as int, Seq::empty()),
        _ => {},
    }
}

proof fn lemma_overlay_entries_cover(v: Seq<Store>, p: Seq<Seq<u8>>, i: int, acc: Listing)
    requires
        names_unique(acc),
        overlay_entries(v, p, i, acc) is Ok,
    ensures
        forall|n: Seq<u8>| has_name(acc, n) ==> has_name(overlay_entries(v, p, i, acc)->Ok_0, n),
        forall|k: int, t: int|
            #![trigger entries_spec(v[k], p)->Ok_0[t]]
            0 <= i <= k < v.len() && 0 <= t < entries_spec(v[k], p)->Ok_0.len() ==> has_name(
                overlay_entries(v, p, i, acc)->Ok_0,
                entries_spec(v[k], p)->Ok_0[t].0,
            ),
    decreases v.len() - i,
{
    if 0 <= i < v.len() {
        let es = entries_spec(v[i], p)->Ok_0;
        lemma_merge_unique(acc, es, 0);
        lemma_overlay_entries_cover(v, p, i + 1, merge(acc, es, 0));
    }
}

/// Overlay listings: where the overlay of `v` lists `p`, every name that a
/// member lists there appears in the overlay's listing, exactly once.
pub proof fn law_overlay_listing(v: Vec<Store>, p: Seq<Seq<u8>>, k: int, t: int)
    requires
        0 <= k < v.len(),
        entries_spec(Store::Overlay(v), p) is Ok,
        0 <= t < entries_spec(v@[k], p)->Ok_0.len(),
    ensures
        has_name(entries_spec(Store::Overlay(v), p)->Ok_0, entries_spec(v@[k], p)->Ok_0[t].0),
        names_unique(entries_spec(Store::Overlay(v), p)->Ok_0),
{
    lemma_overlay_entries_cover(v@, p, 0, Seq::empty());
    lemma_overlay_entries_unique(v@, p, 0, Seq::empty());
}

proof fn lemma_overlay_skip(v: Seq<Store>, p: Seq<Seq<u8>>, j: int, i: int)
    requires
        0 <= j <= i < v.len(),
        forall|k: int| j <= k < i ==> open_spec(#[trigger] v[k], p) == Err::<Seq<u8>, Error>(Error::FileNotFound),
    ensures
        overlay_open(v, p, j) == overlay_open(v, p, i),
    decreases i - j,
{
    if j < i {
        lemma_overlay_skip(v, p, j + 1, i);
    }
}

/// Overlay priority: member `i` answers an open exactly when every earlier
/// member reports `FileNotFound`; its answer, when it is not `FileNotFound`
/// itself, is the overlay's. In particular the first member wins wherever it
/// has the file.
pub proof fn law_overlay_priority(v: Vec<Store>, p: Seq<Seq<u8>>, i: int)
    requires
        0 <= i < v.len(),
        forall|k: int| 0 <= k < i ==> open_spec(#[trigger] v@[k], p) == Err::<Seq<u8>, Error>(Error::FileNotFound),
        open_spec(v@[i], p) != Err::<Seq<u8>, Error>(Error::FileNotFound),
    ensures
        open_spec(Store::Overlay(v), p) == open_spec(v@[i], p),
{
    lemma_overlay_skip(v@, p, 0, i);
}

/// Mount precedence: with `a` and then `b` mounted at the same prefix `q`,
/// opening below `q` reaches `b`; `umount(q)` removes `b` (the newest mount
/// at `q`), after which the same path reaches `a` again.
pub proof fn law_mount_precedence(
    m: MiniFs,
    earlier: Seq<(Seq<Seq<u8>>, Store)>,
    q: Seq<Seq<u8>>,
    a: Store,
    b: Store,
    x: Seq<Seq<u8>>,
)
    requires
        m.mount_list() == earlier.push((q, a)).push((q, b)),
    ensures
        open_spec(Store::Mounts(m), q + x) == open_spec(b, x),
        last_mount(m.mount_list(), q, m.mount_list().len() as int) == earlier.len() + 1,
        m.mount_list().remove(earlier.len() as int + 1) == earlier.push((q, a)),
        forall|after: MiniFs|
            #[trigger] after.mount_list() == earlier.push((q, a)) ==> open_spec(Store::Mounts(after), q + x)
                == open_spec(a, x),
{
    let n = m.mounts@.len() as int;
    assert(m.mount_list().len() == n);
    assert(n == earlier.len() + 2);
    assert(m.mount_list()[n - 1] == (m.mounts@[n - 1].path@, m.mounts@[n - 1].store));
    assert(m.mount_list()[n - 1] == (q, b));
    assert((q + x).take(q.len() as int) =~= q);
    assert((q + x).skip(q.len() as int) =~= x);
    assert(m.mount_list().remove(earlier.len() as int + 1) =~= earlier.push((q, a)));
    assert forall|after: MiniFs|
        #[trigger] after.mount_list() == earlier.push((q, a)) implies open_spec(Store::Mounts(after), q + x)
            == open_spec(a, x) by {
        let k = after.mounts@.len() as int;
        assert(after.mount_list().len() == k);
        assert(after.mount_list()[k - 1] == (after.mounts@[k - 1].path@, after.mounts@[k - 1].store));
        assert(after.mount_list()[k - 1] == (q, a));
    }
}

proof fn lemma_first_open(inner: Store, cands: Seq<Seq<Seq<u8>>>, j: int, k: int)
    requires
        0 <= j <= k < cands.len(),
        open_spec(inner, cands[k]) is Ok,
    ensures
        first_open(inner, cands, j) is Ok,
        exists|i: int| j <= i < cands.len() && #[trigger] open_spec(inner, cands[i]) == first_open(inner, cands, j),
    decreases k - j,
{
    if open_spec(inner, cands[j]) is Ok {
        assert(open_spec(inner, cands[j]) == first_open(inner, cands, j));
    } else {
        lemma_first_open(inner, cands, j + 1, k);
        let i = choose|i: int| j + 1 <= i < cands.len() && #[trigger] open_spec(inner, cands[i]) == first_open(inner, cands, j + 1);
        assert(open_spec(inner, cands[i]) == first_open(inner, cands, j));
    }
}

/// Caseless resolution: where `p` is not found as spelled but some real path
/// that matches it regardless of case opens, opening `p` succeeds, with the
/// contents of one of the matches.
pub proof fn law_caseless_open(inner: Store, p: Seq<Seq<u8>>, k: int)
    requires
        open_spec(inner, p) == Err::<Seq<u8>, Error>(Error::FileNotFound),
        0 <= k < find_spec(inner, p).len(),
        open_spec(inner, find_spec(inner, p)[k]) is Ok,
    ensures
        caseless_open(inner, p) is Ok,
        exists|i: int|
            0 <= i < find_spec(inner, p).len() && #[trigger] open_spec(inner, find_spec(inner, p)[i])
                == caseless_open(inner, p),
{
    lemma_first_open(inner, find_spec(inner, p), 0, k);
}

/// A mount table lists nothing, without error, at a path that no mount's
/// prefix begins.
pub proof fn law_unmounted_listing(m: MiniFs, p: Seq<Seq<u8>>)
    requires
        forall|i: int| 0 <= i < m.mount_list().len() ==> !is_prefix(#[trigger] m.mount_list()[i].0, p),
    ensures
        entries_spec(Store::Mounts(m), p) == Ok::<Listing, Error>(Seq::empty()),
{
    lemma_no_mount_matches(m, p, m.mounts@.len() as int);
}

proof fn lemma_no_mount_matches(m: MiniFs, p: Seq<Seq<u8>>, n: int)
    requires
        0 <= n <= m.mounts@.len(),
        forall|i: int| 0 <= i < m.mount_list().len() ==> !is_prefix(#[trigger] m.mount_list()[i].0, p),
    ensures
        mounts_entries(m.mounts@, p, n, Seq::empty()) == Ok::<Listing, Error>(Seq::empty()),
    decreases n,
{
    if n > 0 {
        assert(m.mount_list().len() == m.mounts@.len());
        assert(m.mount_list()[n - 1] == (m.mounts@[n - 1].path@, m.mounts@[n - 1].store));
        assert(!is_prefix(m.mount_list()[n - 1].0, p));
        assert(!is_prefix(m.mounts@[n - 1].path@, p));
        lemma_no_mount_matches(m, p, n - 1);
        assert(mounts_entries(m.mounts@, p, n, Seq::empty()) == mounts_entries(m.mounts@, p, n - 1, Seq::empty()));
    }
}


proof fn lemma_merge_keeps(acc: Listing, es: Listing, j: int)
    ensures
        forall|x: (Seq<u8>, EntryKind)| acc.contains(x) ==> #[trigger] merge(acc, es, j).contains(x),
    decreases es.len() - j,
{
    if 0 <= j < es.len() {
        if has_name(acc, es[j].0) {
            assert(merge(acc, es, j) == merge(acc, es, j + 1));
            lemma_merge_keeps(acc, es, j + 1);
        } else {
            let a2 = acc.push(es[j]);
            assert(merge(acc, es, j) == merge(a2, es, j + 1));
            lemma_merge_keeps(a2, es, j + 1);
            assert forall|x: (Seq<u8>, EntryKind)| acc.contains(x) implies #[trigger] merge(acc, es, j).contains(x) by {
                let i = choose|i: int| 0 <= i < acc.len() && acc[i] == x;
                assert(a2[i] == x);
                assert(a2.contains(x));
            }
        }
    } else {
        assert(merge(acc, es, j) == acc);
    }
}

proof fn lemma_merge_first(acc: Listing, es: Listing, j: int, t: int)
    requires
        0 <= j <= t < es.len(),
        !has_name(acc, es[t].0),
        forall|u: int| j <= u < t ==> (#[trigger] es[u]).0 != es[t].0,
    ensures
        merge(acc, es, j).contains(es[t]),
    decreases t - j,
{
    if j == t {
        let a2 = acc.push(es[t]);
        assert(a2[acc.len() as int] == es[t]);
        assert(a2.contains(es[t]));
        assert(merge(acc, es, j) == merge(a2, es, t + 1));
        lemma_merge_keeps(a2, es, t + 1);
    } else if has_name(acc, es[j].0) {
        assert(merge(acc, es, j) == merge(acc, es, j + 1));
        lemma_merge_first(acc, es, j + 1, t);
    } else {
        let a2 = acc.push(es[j]);
        assert(merge(acc, es, j) == merge(a2, es, j + 1));
        assert(es[j].0 != es[t].0);
        assert(!has_name(a2, es[t].0)) by {
            if has_name(a2, es[t].0) {
                let i = choose|i: int| 0 <= i < a2.len() && #[trigger] a2[i].0 == es[t].0;
                if i < acc.len() {
                    assert(acc[i].0 == es[t].0);
                }
            }
        }
        lemma_merge_first(a2, es, j + 1, t);
    }
}

proof fn lemma_overlay_keeps(v: Seq<Store>, p: Seq<Seq<u8>>, i: int, acc: Listing)
    requires
        overlay_entries(v, p, i, acc) is Ok,
    ensures
        forall|x: (Seq<u8>, EntryKind)| acc.contains(x) ==> #[trigger] overlay_entries(v, p, i, acc)->Ok_0.contains(x),
    decreases v.len() - i,
{
    if 0 <= i < v.len() {
        let es = entries_spec(v[i], p)->Ok_0;
        lemma_merge_keeps(acc, es, 0);
        lemma_overlay_keeps(v, p, i + 1, merge(acc, es, 0));
    }
}

/// The first member's entry wins: where the overlay of `v` lists `p`, each
/// entry of the first member's listing (the first of its name there) is in
/// the overlay's listing as it is, kind included, and no other entry there
/// has its name.
pub proof fn law_overlay_first_member_entry(v: Vec<Store>, p: Seq<Seq<u8>>, t: int)
    requires
        v.len() > 0,
        entries_spec(Store::Overlay(v), p) is Ok,
        0 <= t < entries_spec(v@[0], p)->Ok_0.len(),
        forall|u: int|
            0 <= u < t ==> (#[trigger] entries_spec(v@[0], p)->Ok_0[u]).0 != entries_spec(v@[0], p)->Ok_0[t].0,
    ensures
        entries_spec(v@[0], p) is Ok,
        entries_spec(Store::Overlay(v), p)->Ok_0.contains(entries_spec(v@[0], p)->Ok_0[t]),
        names_unique(entries_spec(Store::Overlay(v), p)->Ok_0),
{
    let es = entries_spec(v@[0], p)->Ok_0;
    let e: Listing = Seq::empty();
    assert(entries_spec(Store::Overlay(v), p) == overlay_entries(v@, p, 0, e));
    assert(entries_spec(v@[0], p) is Ok);
    assert(overlay_entries(v@, p, 0, e) == overlay_entries(v@, p, 1, merge(e, es, 0)));
    lemma_merge_first(e, es, 0, t);
    lemma_overlay_keeps(v@, p, 1, merge(e, es, 0));
    lemma_overlay_entries_unique(v@, p, 0, e);
}

proof fn lemma_merge_identity(es: Listing, j: int)
    requires
        0 <= j <= es.len(),
        names_unique(es),
    ensures
        merge(es.take(j), es, j) == es,
    decreases es.len() - j,
{
    if j < es.len() {
        assert(!has_name(es.take(j), es[j].0)) by {
            if has_name(es.take(j), es[j].0) {
                let i = choose|i: int| 0 <= i < es.take(j).len() && #[trigger] es.take(j)[i].0 == es[j].0;
                assert(es[i].0 == es[j].0);
            }
        }
        assert(es.take(j).push(es[j]) =~= es.take(j + 1));
        lemma_merge_identity(es, j + 1);
    } else {
        assert(es.take(j) =~= es);
    }
}

/// Merging into an empty listing changes nothing where names are distinct.
pub proof fn law_merge_distinct(es: Listing)
    requires
        names_unique(es),
    ensures
        merge(Seq::empty(), es, 0) == es,
{
    assert(es.take(0) =~= Seq::<(Seq<u8>, EntryKind)>::empty());
    lemma_merge_identity(es, 0);
}

/// A table with one mount, of `s` at `q`: opening or listing `q` followed by
/// `x` is opening or listing `x` in `s` (a listing with its repeated names
/// dropped, see [`law_merge_distinct`]).
pub proof fn law_single_mount(m: MiniFs, q: Seq<Seq<u8>>, s: Store, x: Seq<Seq<u8>>)
    requires
        m.mount_list() == seq![(q, s)],
    ensures
        open_spec(Store::Mounts(m), q + x) == open_spec(s, x),
        entries_spec(Store::Mounts(m), q + x) == match entries_spec(s, x) {
            Ok(es) => Ok(merge(Seq::empty(), es, 0)),
            Err(e) => Err::<Listing, Error>(e),
        },
{
    assert(m.mount_list().len() == m.mounts().len());
    assert(m.mount_list()[0] == (m.mounts()[0].prefix(), m.mounts()[0].store()));
    assert((q + x).take(q.len() as int) =~= q);
    assert((q + x).skip(q.len() as int) =~= x);
    let ms = m.mounts();
    assert(ms.len() == 1);
    assert(ms[0].prefix() == q && ms[0].store() == s);
    assert(is_prefix(q, q + x));
    if let Ok(es) = entries_spec(s, x) {
        let acc = merge(Seq::empty(), es, 0);
        assert(mounts_entries(ms, q + x, 0, acc) == Ok::<Listing, Error>(acc));
        assert(mounts_entries(ms, q + x, 1, Seq::empty()) == mounts_entries(ms, q + x, 0, acc));
    }
}

/// How many entries of `es`, from `j` on, match `comp` regardless of case.
pub open spec fn count_matches(es: Listing, comp: Seq<u8>, j: int) -> int
    decreases es.len() - j,
{
    if 0 <= j < es.len() {
        count_matches(es, comp, j + 1) + if caseless_eq(comp, es[j].0) {
            1int
        } else {
            0int
        }
    } else {
        0
    }
}

proof fn lemma_matches(c: Seq<Seq<u8>>, es: Listing, comp: Seq<u8>, j: int, acc: Seq<Seq<Seq<u8>>>)
    requires
        0 <= j <= es.len(),
    ensures
        matches(c, es, comp, j, acc).len() == acc.len() + count_matches(es, comp, j),
        forall|y: Seq<Seq<u8>>| acc.contains(y) ==> #[trigger] matches(c, es, comp, j, acc).contains(y),
        forall|k: int|
            j <= k < es.len() && caseless_eq(comp, (#[trigger] es[k]).0) ==> matches(c, es, comp, j, acc).contains(
                c.push(es[k].0),
            ),
        forall|y: Seq<Seq<u8>>|
            #[trigger] matches(c, es, comp, j, acc).contains(y) ==> acc.contains(y) || exists|k: int|
                j <= k < es.len() && caseless_eq(comp, (#[trigger] es[k]).0) && y == c.push(es[k].0),
    decreases es.len() - j,
{
    if j < es.len() {
        if caseless_eq(comp, es[j].0) {
            let a2 = acc.push(c.push(es[j].0));
            lemma_matches(c, es, comp, j + 1, a2);
            assert(a2[acc.len() as int] == c.push(es[j].0));
            assert forall|y: Seq<Seq<u8>>| acc.contains(y) implies #[trigger] matches(c, es, comp, j, acc).contains(y) by {
                let i = choose|i: int| 0 <= i < acc.len() && acc[i] == y;
                assert(a2[i] == y);
            }
            assert forall|y: Seq<Seq<u8>>| #[trigger] matches(c, es, comp, j, acc).contains(y) implies acc.contains(y)
                || exists|k: int| j <= k < es.len() && caseless_eq(comp, (#[trigger] es[k]).0) && y == c.push(es[k].0) by {
                if a2.contains(y) && !acc.contains(y) {
                    let i = choose|i: int| 0 <= i < a2.len() && a2[i] == y;
                    if i < acc.len() {
                        assert(acc[i] == y);
                    }
                }
            }
        } else {
            lemma_matches(c, es, comp, j + 1, acc);
        }
    }
}

/// What the caseless search gives for a path of one name `t`: the entries of
/// the top directory that match `t` regardless of case, in listing order,
/// one candidate per matching entry.
pub proof fn law_find_one_name(inner: Store, t: Seq<u8>)
    requires
        t != root_comp(),
        t != crate::path::cur_comp(),
        t != crate::path::parent_comp(),
    ensures
        find_spec(inner, seq![t]) == match entries_spec(inner, Seq::empty()) {
            Ok(es) => matches(Seq::empty(), es, t, 0, Seq::empty()),
            Err(_) => Seq::<Seq<Seq<u8>>>::empty(),
        },
        entries_spec(inner, Seq::empty()) is Ok ==> ({
            let es = entries_spec(inner, Seq::empty())->Ok_0;
            let found = find_spec(inner, seq![t]);
            &&& found.len() == count_matches(es, t, 0)
            &&& forall|k: int|
                0 <= k < es.len() && caseless_eq(t, (#[trigger] es[k]).0) ==> found.contains(seq![es[k].0])
            &&& forall|y: Seq<Seq<u8>>|
                #[trigger] found.contains(y) ==> exists|k: int|
                    0 <= k < es.len() && caseless_eq(t, (#[trigger] es[k]).0) && y == seq![es[k].0]
        }),
{
    let cs = seq![t];
    assert(cs.drop_last() =~= Seq::<Seq<u8>>::empty());
    assert(normalize(cs) =~= seq![t]);
    let frontier = seq![Seq::<Seq<u8>>::empty()];
    let f = find_step(inner, frontier, t, 0, Seq::empty());
    assert(seq![t].drop_first() =~= Seq::<Seq<u8>>::empty());
    let next = match entries_spec(inner, Seq::empty()) {
        Ok(es) => matches(Seq::empty(), es, t, 0, Seq::empty()),
        Err(_) => Seq::<Seq<Seq<u8>>>::empty(),
    };
    assert(frontier[0] == Seq::<Seq<u8>>::empty());
    assert(f == find_step(inner, frontier, t, 1, next));
    assert(find_step(inner, frontier, t, 1, next) == next);
    assert(find_from(inner, Seq::<Seq<u8>>::empty(), f) == f);
    assert(find_spec(inner, seq![t]) == find_from(inner, seq![t], frontier));
    assert(find_from(inner, seq![t], frontier) == f);
    if let Ok(es) = entries_spec(inner, Seq::empty()) {
        let e: Seq<Seq<Seq<u8>>> = Seq::empty();
        lemma_matches(Seq::empty(), es, t, 0, e);
        assert forall|k: int| 0 <= k < es.len() implies Seq::<Seq<u8>>::empty().push((#[trigger] es[k]).0) == seq![es[k].0] by {
            assert(Seq::<Seq<u8>>::empty().push(es[k].0) =~= seq![es[k].0]);
        }
    }
}

} // verus!
