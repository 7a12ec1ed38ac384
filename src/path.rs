//! Paths as sequences of components, and their normalization.
use vstd::prelude::*;
use vstd::string::StringSliceAdditionalSpecFns;

verus! {

/// Byte of the separator between components.
pub const SEP: u8 = 47;

/// Byte of the dot in `.` and `..`.
pub const DOT: u8 = 46;

/// The root component, spelled `/`.
pub open spec fn root_comp() -> Seq<u8> {
    seq![SEP]
}

/// The current-directory component, spelled `.`.
pub open spec fn cur_comp() -> Seq<u8> {
    seq![DOT]
}

/// The parent-directory component, spelled `..`.
pub open spec fn parent_comp() -> Seq<u8> {
    seq![DOT, DOT]
}

/// The pieces of `s` between separators, empty pieces included.
pub open spec fn split(s: Seq<u8>) -> Seq<Seq<u8>>
    decreases s.len(),
{
    if s.len() == 0 {
        seq![Seq::empty()]
    } else {
        let init = split(s.drop_last());
        if s.last() == SEP {
            init.push(Seq::empty())
        } else {
            init.update(init.len() - 1, init.last().push(s.last()))
        }
    }
}

/// The pieces that name something: empty pieces and `.` are dropped.
pub open spec fn kept(pieces: Seq<Seq<u8>>) -> Seq<Seq<u8>>
    decreases pieces.len(),
{
    if pieces.len() == 0 {
        Seq::empty()
    } else {
        let k = kept(pieces.drop_last());
        let x = pieces.last();
        if x.len() == 0 || x == cur_comp() {
            k
        } else {
            k.push(x)
        }
    }
}

/// The components of the text `s`: a leading root, or a leading `.` of a
/// relative path, then every non-empty piece other than `.`.
pub open spec fn components(s: Seq<u8>) -> Seq<Seq<u8>> {
    let head = if s.len() > 0 && s[0] == SEP {
        seq![root_comp()]
    } else if s.len() > 0 && s[0] == DOT && (s.len() == 1 || s[1] == SEP) {
        seq![cur_comp()]
    } else {
        Seq::empty()
    };
    head + kept(split(s))
}

/// Drops the last component unless there is none or it is the root.
pub open spec fn pop_comp(n: Seq<Seq<u8>>) -> Seq<Seq<u8>> {
    if n.len() > 0 && n.last() != root_comp() {
        n.drop_last()
    } else {
        n
    }
}

/// The normal form of a component sequence: `.` is dropped, `..` removes
/// the component before it (never the root, and nothing at the start of a
/// relative path), a root starts the path anew, and any other component is
/// kept as it is.
pub open spec fn normalize(cs: Seq<Seq<u8>>) -> Seq<Seq<u8>>
    decreases cs.len(),
{
    if cs.len() == 0 {
        Seq::empty()
    } else {
        let n = normalize(cs.drop_last());
        let c = cs.last();
        if c == cur_comp() {
            n
        } else if c == parent_comp() {
            pop_comp(n)
        } else if c == root_comp() {
            seq![root_comp()]
        } else {
            n.push(c)
        }
    }
}

/// A sequence in normal form: no `.` or `..`, and a root only at the start.
pub open spec fn is_normal(cs: Seq<Seq<u8>>) -> bool {
    forall|i: int|
        0 <= i < cs.len() ==> #[trigger] cs[i] != cur_comp() && cs[i] != parent_comp() && (cs[i]
            == root_comp() ==> i == 0)
}

/// Views of a vector of byte strings.
pub open spec fn seqs_of(v: Seq<Vec<u8>>) -> Seq<Seq<u8>> {
    Seq::new(v.len(), |i: int| v[i]@)
}

proof fn lemma_normalize_is_normal(cs: Seq<Seq<u8>>)
    ensures
        is_normal(normalize(cs)),
    decreases cs.len(),
{
    if cs.len() > 0 {
        lemma_normalize_is_normal(cs.drop_last());
        let n = normalize(cs.drop_last());
        let c = cs.last();
        if c != cur_comp() && c != parent_comp() && c != root_comp() {
            assert forall|i: int| 0 <= i < n.push(c).len() implies #[trigger] n.push(c)[i]
                != cur_comp() && n.push(c)[i] != parent_comp() && (n.push(c)[i] == root_comp()
                ==> i == 0) by {
                if i < n.len() {
                    assert(n.push(c)[i] == n[i]);
                }
            }
        } else if c == parent_comp() {
            if n.len() > 0 && n.last() != root_comp() {
                assert forall|i: int| 0 <= i < n.drop_last().len() implies
                    #[trigger] n.drop_last()[i] != cur_comp() && n.drop_last()[i] != parent_comp()
                    && (n.drop_last()[i] == root_comp() ==> i == 0) by {
                    assert(n.drop_last()[i] == n[i]);
                }
            }
        }
    }
}

proof fn lemma_normal_fixed(cs: Seq<Seq<u8>>)
    requires
        is_normal(cs),
    ensures
        normalize(cs) == cs,
    decreases cs.len(),
{
    if cs.len() > 0 {
        let init = cs.drop_last();
        assert forall|i: int| 0 <= i < init.len() implies #[trigger] init[i] != cur_comp()
            && init[i] != parent_comp() && (init[i] == root_comp() ==> i == 0) by {
            assert(init[i] == cs[i]);
        }
        lemma_normal_fixed(init);
        let c = cs.last();
        assert(c == cs[cs.len() - 1]);
        if c == root_comp() {
            assert(cs.len() == 1);
            assert(cs =~= seq![root_comp()]);
        } else {
            assert(cs =~= init.push(c));
        }
    }
}

/// Normalizing a second time changes nothing.
pub proof fn lemma_normalize_idempotent(cs: Seq<Seq<u8>>)
    ensures
        normalize(normalize(cs)) == normalize(cs),
{
    lemma_normalize_is_normal(cs);
    lemma_normal_fixed(normalize(cs));
}

/// A path: a sequence of components, each a byte string. The root is the
/// component `/`, the current directory `.` and the parent `..`.
#[derive(Debug, Clone)]
pub struct Path {
    comps: Vec<Vec<u8>>,
}

impl View for Path {
    type V = Seq<Seq<u8>>;

    closed spec fn view(&self) -> Seq<Seq<u8>> {
        seqs_of(self.comps@)
    }
}


/// Whether `c` is the component `.`.
fn is_cur(c: &Vec<u8>) -> (r: bool)
    ensures
        r == (c@ == cur_comp()),
{
    let r = c.len() == 1 && c[0] == DOT;
    proof {
        if r {
            assert(c@ =~= cur_comp());
        }
    }
    r
}

/// Whether `c` is the component `..`.
fn is_parent(c: &Vec<u8>) -> (r: bool)
    ensures
        r == (c@ == parent_comp()),
{
    let r = c.len() == 2 && c[0] == DOT && c[1] == DOT;
    proof {
        if r {
            assert(c@ =~= parent_comp());
        }
    }
    r
}

/// Whether `c` is the root component.
pub(crate) fn is_root(c: &Vec<u8>) -> (r: bool)
    ensures
        r == (c@ == root_comp()),
{
    let r = c.len() == 1 && c[0] == SEP;
    proof {
        if r {
            assert(c@ =~= root_comp());
        }
    }
    r
}

/// A copy of a byte string.
pub(crate) fn copy_bytes(b: &Vec<u8>) -> (r: Vec<u8>)
    ensures
        r@ == b@,
{
    let mut r: Vec<u8> = Vec::new();
    let mut i: usize = 0;
    while i < b.len()
        invariant
            0 <= i <= b.len(),
            r@ == b@.take(i as int),
        decreases b.len() - i,
    {
        r.push(b[i]);
        i += 1;
        proof {
            assert(r@ =~= b@.take(i as int));
        }
    }
    proof {
        assert(b@.take(b.len() as int) =~= b@);
    }
    r
}

proof fn lemma_split_nonempty(s: Seq<u8>)
    ensures
        split(s).len() >= 1,
    decreases s.len(),
{
    if s.len() > 0 {
        lemma_split_nonempty(s.drop_last());
    }
}

/// The components of the text whose bytes are `s`.
fn parse(s: &[u8]) -> (r: Vec<Vec<u8>>)
    ensures
        seqs_of(r@) == components(s@),
{
    let mut out: Vec<Vec<u8>> = Vec::new();
    let ghost head: Seq<Seq<u8>> = Seq::empty();
    if s.len() > 0 && s[0] == SEP {
        let mut c: Vec<u8> = Vec::new();
        c.push(SEP);
        out.push(c);
        proof {
            head = seq![root_comp()];
            assert(out@[0]@ =~= root_comp());
            assert(seqs_of(out@) =~= head);
        }
    } else if s.len() > 0 && s[0] == DOT && (s.len() == 1 || s[1] == SEP) {
        let mut c: Vec<u8> = Vec::new();
        c.push(DOT);
        out.push(c);
        proof {
            head = seq![cur_comp()];
            assert(out@[0]@ =~= cur_comp());
            assert(seqs_of(out@) =~= head);
        }
    } else {
        proof {
            assert(seqs_of(out@) =~= head);
        }
    }
    let mut cur: Vec<u8> = Vec::new();
    let mut i: usize = 0;
    proof {
        assert(s@.take(0) =~= Seq::<u8>::empty());
    }
    while i < s.len()
        invariant
            0 <= i <= s.len(),
            split(s@.take(i as int)).len() >= 1,
            cur@ == split(s@.take(i as int)).last(),
            seqs_of(out@) == head + kept(split(s@.take(i as int)).drop_last()),
        decreases s.len() - i,
    {
        let ghost pieces = split(s@.take(i as int));
        let b = s[i];
        proof {
            assert(s@.take(i + 1).drop_last() =~= s@.take(i as int));
            assert(s@.take(i + 1).last() == b);
        }
        if b == SEP {
            let keep = cur.len() != 0 && !is_cur(&cur);
            let ghost before = seqs_of(out@);
            if keep {
                out.push(cur);
                proof {
                    assert(seqs_of(out@) =~= before.push(pieces.last()));
                }
            }
            cur = Vec::new();
            proof {
                let np = split(s@.take(i + 1));
                assert(np == pieces.push(Seq::empty()));
                assert(np.drop_last() =~= pieces);
                assert(cur@ =~= np.last());
            }
        } else {
            cur.push(b);
            proof {
                let np = split(s@.take(i + 1));
                assert(np == pieces.update(pieces.len() - 1, pieces.last().push(b)));
                assert(np.drop_last() =~= pieces.drop_last());
            }
        }
        i += 1;
    }
    proof {
        assert(s@.take(s.len() as int) =~= s@);
    }
    let ghost before = seqs_of(out@);
    if cur.len() != 0 && !is_cur(&cur) {
        out.push(cur);
        proof {
            assert(seqs_of(out@) =~= before.push(split(s@).last()));
        }
    }
    proof {
        assert(seqs_of(out@) =~= head + kept(split(s@)));
    }
    out
}

impl Path {
    /// The components that the text `s` spells.
    pub open spec fn spec_new(s: &str) -> Seq<Seq<u8>> {
        components(s.spec_bytes())
    }

    /// The path that the text `s` spells.
    pub fn new(s: &str) -> (r: Path)
        ensures
            r@ == Path::spec_new(s),
    {
        Path { comps: parse(s.as_bytes()) }
    }

    /// The path that the bytes `s` spell.
    pub fn from_bytes(s: &[u8]) -> (r: Path)
        ensures
            r@ == components(s@),
    {
        Path { comps: parse(s) }
    }

    /// The path with the given components.
    pub fn from_components(comps: Vec<Vec<u8>>) -> (r: Path)
        ensures
            r@ == seqs_of(comps@),
    {
        Path { comps }
    }

    /// The components of the path.
    pub fn components(&self) -> (r: &Vec<Vec<u8>>)
        ensures
            seqs_of(r@) == self@,
    {
        &self.comps
    }

    /// Whether `self` and `other` have the same components.
    pub fn eq(&self, other: &Path) -> (r: bool)
        ensures
            r == (self@ == other@),
    {
        if self.comps.len() != other.comps.len() {
            proof {
                assert(self@.len() != other@.len());
            }
            return false;
        }
        let mut i: usize = 0;
        while i < self.comps.len()
            invariant
                0 <= i <= self.comps.len(),
                self.comps.len() == other.comps.len(),
                forall|j: int| 0 <= j < i ==> self@[j] == other@[j],
            decreases self.comps.len() - i,
        {
            if !bytes_eq(&self.comps[i], &other.comps[i]) {
                proof {
                    assert(self@[i as int] != other@[i as int]);
                }
                return false;
            }
            i += 1;
        }
        proof {
            assert(self@ =~= other@);
        }
        true
    }
}

/// Whether two byte strings are equal.
pub(crate) fn bytes_eq(a: &Vec<u8>, b: &Vec<u8>) -> (r: bool)
    ensures
        r == (a@ == b@),
{
    if a.len() != b.len() {
        return false;
    }
    let mut i: usize = 0;
    while i < a.len()
        invariant
            0 <= i <= a.len(),
            a.len() == b.len(),
            forall|j: int| 0 <= j < i ==> a@[j] == b@[j],
        decreases a.len() - i,
    {
        if a[i] != b[i] {
            return false;
        }
        i += 1;
    }
    proof {
        assert(a@ =~= b@);
    }
    true
}

/// The normal form of `path` (see [`normalize`]): the same components with
/// `.` and `..` resolved, without touching any store.
pub fn normalize_path(path: &Path) -> (r: Path)
    ensures
        r@ == normalize(path@),
{
    let mut out: Vec<Vec<u8>> = Vec::new();
    let mut i: usize = 0;
    proof {
        assert(path@.take(0) =~= Seq::<Seq<u8>>::empty());
        assert(seqs_of(out@) =~= Seq::<Seq<u8>>::empty());
    }
    while i < path.comps.len()
        invariant
            0 <= i <= path.comps.len(),
            seqs_of(out@) == normalize(path@.take(i as int)),
        decreases path.comps.len() - i,
    {
        let c = &path.comps[i];
        let ghost n = seqs_of(out@);
        proof {
            assert(path@.take(i + 1).drop_last() =~= path@.take(i as int));
            assert(path@.take(i + 1).last() == c@);
        }
        if is_cur(c) {
        } else if is_parent(c) {
            if out.len() > 0 && !is_root(&out[out.len() - 1]) {
                out.pop();
                proof {
                    assert(seqs_of(out@) =~= n.drop_last());
                }
            }
        } else if is_root(c) {
            out = Vec::new();
            out.push(copy_bytes(c));
            proof {
                assert(seqs_of(out@) =~= seq![root_comp()]);
            }
        } else {
            out.push(copy_bytes(c));
            proof {
                assert(seqs_of(out@) =~= n.push(c@));
            }
        }
        i += 1;
    }
    proof {
        assert(path@.take(path.comps.len() as int) =~= path@);
    }
    Path { comps: out }
}

} // verus!

verus! {

/// Relies on `core::str::from_utf8`: the bytes are read as text exactly when
/// they are valid UTF-8, and the text then has the same bytes.
#[verifier::external_body]
pub(crate) fn as_utf8(b: &[u8]) -> (r: Option<&str>)
    ensures
        r is Some == vstd::utf8::valid_utf8(b@),
        r is Some ==> r->0.spec_bytes() == b@,
{
    core::str::from_utf8(b).ok()
}

/// The text of a component sequence: components joined by `/`, with no
/// separator after the root.
pub open spec fn render(cs: Seq<Seq<u8>>) -> Seq<u8>
    decreases cs.len(),
{
    if cs.len() == 0 {
        Seq::empty()
    } else {
        let init = cs.drop_last();
        if init.len() == 0 || init.last() == root_comp() {
            render(init) + cs.last()
        } else {
            render(init) + seq![SEP] + cs.last()
        }
    }
}

impl Path {
    /// The text of the path (see [`render`]).
    pub fn to_bytes(&self) -> (r: Vec<u8>)
        ensures
            r@ == render(self@),
    {
        let mut r: Vec<u8> = Vec::new();
        let mut i: usize = 0;
        proof {
            assert(self@.take(0) =~= Seq::<Seq<u8>>::empty());
        }
        while i < self.comps.len()
            invariant
                0 <= i <= self.comps.len(),
                self@.len() == self.comps.len(),
                r@ == render(self@.take(i as int)),
            decreases self.comps.len() - i,
        {
            proof {
                assert(self@.take(i + 1).drop_last() =~= self@.take(i as int));
                assert(self@[i as int] == self.comps@[i as int]@);
            }
            if i > 0 && !is_root(&self.comps[i - 1]) {
                r.push(SEP);
            }
            proof {
                if i > 0 {
                    assert(self@[i - 1] == self.comps@[i - 1]@);
                    assert(self@.take(i as int).last() == self@[i - 1]);
                }
            }
            let c = &self.comps[i];
            let mut j: usize = 0;
            let ghost before = r@;
            while j < c.len()
                invariant
                    0 <= j <= c.len(),
                    r@ == before + c@.take(j as int),
                decreases c.len() - j,
            {
                r.push(c[j]);
                j += 1;
                proof {
                    assert(r@ =~= before + c@.take(j as int));
                }
            }
            proof {
                assert(c@.take(c.len() as int) =~= c@);
                if i > 0 && self@[i - 1] != root_comp() {
                    assert(r@ =~= render(self@.take(i as int)) + seq![SEP] + self@[i as int]);
                } else {
                    assert(r@ =~= render(self@.take(i as int)) + self@[i as int]);
                }
            }
            i += 1;
        }
        proof {
            assert(self@.take(self.comps.len() as int) =~= self@);
        }
        r
    }
}


/// `pre` is a prefix of `p`, component by component.
pub open spec fn is_prefix(pre: Seq<Seq<u8>>, p: Seq<Seq<u8>>) -> bool {
    pre.len() <= p.len() && p.take(pre.len() as int) == pre
}

/// A copy of a sequence of components.
pub(crate) fn copy_comps(c: &Vec<Vec<u8>>) -> (r: Vec<Vec<u8>>)
    ensures
        seqs_of(r@) == seqs_of(c@),
{
    let mut r: Vec<Vec<u8>> = Vec::new();
    let mut i: usize = 0;
    while i < c.len()
        invariant
            0 <= i <= c.len(),
            seqs_of(r@) == seqs_of(c@).take(i as int),
        decreases c.len() - i,
    {
        let ghost before = seqs_of(r@);
        r.push(copy_bytes(&c[i]));
        proof {
            assert(seqs_of(r@) =~= before.push(c@[i as int]@));
            assert(seqs_of(c@).take(i + 1) =~= seqs_of(c@).take(i as int).push(c@[i as int]@));
        }
        i += 1;
    }
    proof {
        assert(seqs_of(c@).take(c.len() as int) =~= seqs_of(c@));
    }
    r
}

impl Path {
    /// The rest of `self` after the prefix `pre`, where `pre` is one.
    pub fn strip_prefix(&self, pre: &Path) -> (r: Option<Path>)
        ensures
            r is Some == is_prefix(pre@, self@),
            r is Some ==> r->0@ == self@.skip(pre@.len() as int),
    {
        if pre.comps.len() > self.comps.len() {
            return None;
        }
        let mut i: usize = 0;
        while i < pre.comps.len()
            invariant
                0 <= i <= pre.comps.len(),
                pre.comps.len() <= self.comps.len(),
                forall|j: int| 0 <= j < i ==> self@[j] == pre@[j],
            decreases pre.comps.len() - i,
        {
            if !bytes_eq(&self.comps[i], &pre.comps[i]) {
                proof {
                    assert(self@.take(pre@.len() as int)[i as int] == self@[i as int]);
                }
                return None;
            }
            i += 1;
        }
        let mut rest: Vec<Vec<u8>> = Vec::new();
        let mut k: usize = pre.comps.len();
        while k < self.comps.len()
            invariant
                pre.comps.len() <= k <= self.comps.len(),
                seqs_of(rest@) == self@.subrange(pre.comps.len() as int, k as int),
            decreases self.comps.len() - k,
        {
            let ghost before = seqs_of(rest@);
            rest.push(copy_bytes(&self.comps[k]));
            proof {
                assert(seqs_of(rest@) =~= before.push(self.comps@[k as int]@));
                assert(self@[k as int] == self.comps@[k as int]@);
                assert(self@.subrange(pre.comps.len() as int, k + 1) =~= self@.subrange(pre.comps.len() as int, k as int).push(self@[k as int]));
            }
            k += 1;
        }
        proof {
            assert(self@.take(pre@.len() as int) =~= pre@);
            assert(self@.subrange(pre.comps.len() as int, self.comps.len() as int) =~= self@.skip(pre@.len() as int));
        }
        Some(Path { comps: rest })
    }
}


impl PartialEq for Path {
    fn eq(&self, other: &Path) -> (r: bool) {
        Path::eq(self, other)
    }
}

impl vstd::std_specs::cmp::PartialEqSpecImpl for Path {
    open spec fn obeys_eq_spec() -> bool {
        true
    }

    open spec fn eq_spec(&self, other: &Path) -> bool {
        self@ == other@
    }
}

} // verus!
