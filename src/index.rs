//! Directory index: a trie from paths to metadata, with directory listings.
use vstd::prelude::*;
use crate::entry::{entry_views, Entry, EntryKind};
use crate::order::{lemma_lex_irreflexive, lemma_lex_transitive, lex_cmp, lex_lt, sorted};
use crate::path::{copy_bytes, normalize, normalize_path, seqs_of, Path};

verus! {

/// Some name in `names` is `n`.
pub open spec fn named(names: Seq<Vec<u8>>, n: Seq<u8>) -> bool {
    exists|i: int| 0 <= i < names.len() && #[trigger] names[i]@ == n
}

/// The position of `n` in `names`.
pub open spec fn slot(names: Seq<Vec<u8>>, n: Seq<u8>) -> int {
    choose|i: int| 0 <= i < names.len() && #[trigger] names[i]@ == n
}

/// The map from each name to the value beside it.
pub open spec fn as_map<V>(names: Seq<Vec<u8>>, vals: Seq<V>) -> Map<Seq<u8>, V> {
    Map::new(|n: Seq<u8>| named(names, n), |n: Seq<u8>| vals[slot(names, n)])
}

/// `x` is a strict prefix of `s`.
pub open spec fn strict_prefix(x: Seq<Seq<u8>>, s: Seq<Seq<u8>>) -> bool {
    x.len() < s.len() && s.take(x.len() as int) == x
}

/// Directory tree node: the files of one directory, with their metadata, and
/// its subdirectories. Both lists are kept sorted by name.
pub struct Node<M> {
    file_names: Vec<Vec<u8>>,
    file_metas: Vec<M>,
    dir_names: Vec<Vec<u8>>,
    dirs: Vec<Node<M>>,
}

impl<M> Node<M> {
    /// The files of this directory, by name.
    pub closed spec fn files(self) -> Map<Seq<u8>, M> {
        as_map(self.file_names@, self.file_metas@)
    }

    /// The subdirectories of this directory, by name.
    pub closed spec fn subdirs(self) -> Map<Seq<u8>, Node<M>> {
        as_map(self.dir_names@, self.dirs@)
    }

    /// The node that the relative path `p` leads to.
    pub closed spec fn node_at(self, p: Seq<Seq<u8>>) -> Option<Node<M>>
        decreases p.len(),
    {
        if p.len() == 0 {
            Some(self)
        } else if self.subdirs().contains_key(p[0]) {
            self.subdirs()[p[0]].node_at(p.drop_first())
        } else {
            None
        }
    }

    /// The metadata of the file at the relative path `p`.
    pub closed spec fn file_at(self, p: Seq<Seq<u8>>) -> Option<M>
        decreases p.len(),
    {
        if p.len() == 0 {
            None
        } else if p.len() == 1 {
            if self.files().contains_key(p[0]) {
                Some(self.files()[p[0]])
            } else {
                None
            }
        } else if self.subdirs().contains_key(p[0]) {
            self.subdirs()[p[0]].file_at(p.drop_first())
        } else {
            None
        }
    }

    /// This node alone is well formed: the lists are sorted, and no name is
    /// both a file and a directory.
    pub closed spec fn local_wf(self) -> bool {
        &&& self.file_names.len() == self.file_metas.len()
        &&& self.dir_names.len() == self.dirs.len()
        &&& sorted(self.file_names@)
        &&& sorted(self.dir_names@)
        &&& forall|n: Seq<u8>| !(#[trigger] self.files().contains_key(n) && self.subdirs().contains_key(n))
    }

    /// Every node under this one is well formed.
    pub closed spec fn wf(self) -> bool {
        forall|p: Seq<Seq<u8>>| #[trigger] self.node_at(p) is Some ==> self.node_at(p)->0.local_wf()
    }
}

proof fn lemma_slot(names: Seq<Vec<u8>>, i: int)
    requires
        sorted(names),
        0 <= i < names.len(),
    ensures
        named(names, names[i]@),
        slot(names, names[i]@) == i,
{
    assert(names[i]@ == names[i]@);
    let j = slot(names, names[i]@);
    if j != i {
        if j < i {
            assert(lex_lt(names[j]@, names[i]@));
        } else {
            assert(lex_lt(names[i]@, names[j]@));
        }
        lemma_lex_irreflexive(names[i]@);
    }
}

proof fn lemma_wf_child<M>(node: Node<M>, n: Seq<u8>)
    requires
        node.wf(),
        node.subdirs().contains_key(n),
    ensures
        node.subdirs()[n].wf(),
{
    let c = node.subdirs()[n];
    assert forall|p: Seq<Seq<u8>>| #[trigger] c.node_at(p) is Some implies c.node_at(p)->0.local_wf() by {
        let q = seq![n] + p;
        assert(q.drop_first() =~= p);
        assert(node.node_at(q) == c.node_at(p));
    }
}

/// The file at `q` followed by the name `n` is the file `n` of the node at `q`.
proof fn lemma_file_in_node<M>(node: Node<M>, q: Seq<Seq<u8>>, n: Seq<u8>)
    ensures
        node.file_at(q.push(n)) == (match node.node_at(q) {
            Some(d) => if d.files().contains_key(n) {
                Some(d.files()[n])
            } else {
                None
            },
            None => None,
        }),
    decreases q.len(),
{
    if q.len() > 0 {
        assert(q.push(n).drop_first() =~= q.drop_first().push(n));
        assert(q.push(n)[0] == q[0]);
        if node.subdirs().contains_key(q[0]) {
            lemma_file_in_node(node.subdirs()[q[0]], q.drop_first(), n);
        }
    } else {
        assert(q.push(n) =~= seq![n]);
    }
}


/// Where `n` stands or would stand in the sorted list `names`.
fn find_pos(names: &Vec<Vec<u8>>, n: &Vec<u8>) -> (r: (usize, bool))
    requires
        sorted(names@),
    ensures
        r.0 <= names.len(),
        r.1 ==> r.0 < names.len() && names@[r.0 as int]@ == n@,
        r.1 == named(names@, n@),
        !r.1 ==> forall|j: int| 0 <= j < r.0 ==> lex_lt(#[trigger] names@[j]@, n@),
        !r.1 ==> forall|j: int| r.0 <= j < names.len() ==> lex_lt(n@, #[trigger] names@[j]@),
{
    let mut i: usize = 0;
    while i < names.len()
        invariant
            0 <= i <= names.len(),
            sorted(names@),
            forall|j: int| 0 <= j < i ==> lex_lt(#[trigger] names@[j]@, n@),
        decreases names.len() - i,
    {
        let c = lex_cmp(&names[i], n);
        if c == 0 {
            return (i, true);
        }
        if c > 0 {
            proof {
                assert forall|j: int| i <= j < names.len() implies lex_lt(n@, #[trigger] names@[j]@) by {
                    if j > i {
                        lemma_lex_transitive(n@, names@[i as int]@, names@[j]@);
                    }
                }
                assert forall|j: int| 0 <= j < names.len() implies #[trigger] names@[j]@ != n@ by {
                    if j < i {
                        lemma_lex_irreflexive(n@);
                    } else {
                        lemma_lex_irreflexive(n@);
                    }
                }
            }
            return (i, false);
        }
        i += 1;
    }
    proof {
        assert forall|j: int| 0 <= j < names.len() implies #[trigger] names@[j]@ != n@ by {
            lemma_lex_irreflexive(n@);
        }
    }
    (i, false)
}

proof fn lemma_map_insert<V>(names: Seq<Vec<u8>>, vals: Seq<V>, pos: int, nv: Vec<u8>, v: V)
    requires
        sorted(names),
        names.len() == vals.len(),
        0 <= pos <= names.len(),
        forall|j: int| 0 <= j < pos ==> lex_lt(#[trigger] names[j]@, nv@),
        forall|j: int| pos <= j < names.len() ==> lex_lt(nv@, #[trigger] names[j]@),
    ensures
        sorted(names.insert(pos, nv)),
        as_map(names.insert(pos, nv), vals.insert(pos, v)) == as_map(names, vals).insert(nv@, v),
{
    let nn = names.insert(pos, nv);
    let nvs = vals.insert(pos, v);
    assert forall|i: int, j: int| 0 <= i < j < nn.len() implies lex_lt(#[trigger] nn[i]@, #[trigger] nn[j]@) by {
        if i < pos && j < pos {
        } else if i < pos && j == pos {
        } else if i < pos {
            assert(nn[j] == names[j - 1]);
            lemma_lex_transitive(names[i]@, nv@, names[j - 1]@);
        } else if i == pos {
            assert(nn[j] == names[j - 1]);
        } else {
            assert(nn[i] == names[i - 1]);
            assert(nn[j] == names[j - 1]);
        }
    }
    let a = as_map(nn, nvs);
    let b = as_map(names, vals).insert(nv@, v);
    assert forall|k: Seq<u8>| a.contains_key(k) <==> b.contains_key(k) by {
        if named(nn, k) {
            let i = choose|i: int| 0 <= i < nn.len() && #[trigger] nn[i]@ == k;
            if i < pos {
                assert(names[i]@ == k);
            } else if i > pos {
                assert(names[i - 1]@ == k);
            }
        }
        if named(names, k) {
            let i = choose|i: int| 0 <= i < names.len() && #[trigger] names[i]@ == k;
            if i < pos {
                assert(nn[i]@ == k);
            } else {
                assert(nn[i + 1]@ == k);
            }
        }
        if k == nv@ {
            assert(nn[pos]@ == k);
        }
    }
    assert forall|k: Seq<u8>| a.contains_key(k) implies a[k] == b[k] by {
        if k == nv@ {
            lemma_slot(nn, pos);
        } else {
            let i = choose|i: int| 0 <= i < names.len() && #[trigger] names[i]@ == k;
            lemma_slot(names, i);
            if i < pos {
                lemma_slot(nn, i);
            } else {
                assert(nn[i + 1] == names[i]);
                lemma_slot(nn, i + 1);
            }
        }
    }
    assert(a =~= b);
}

proof fn lemma_map_update<V>(names: Seq<Vec<u8>>, vals: Seq<V>, pos: int, v: V)
    requires
        sorted(names),
        names.len() == vals.len(),
        0 <= pos < names.len(),
    ensures
        as_map(names, vals.update(pos, v)) == as_map(names, vals).insert(names[pos]@, v),
{
    let a = as_map(names, vals.update(pos, v));
    let b = as_map(names, vals).insert(names[pos]@, v);
    lemma_slot(names, pos);
    assert forall|k: Seq<u8>| a.contains_key(k) implies a[k] == b[k] by {
        let i = choose|i: int| 0 <= i < names.len() && #[trigger] names[i]@ == k;
        lemma_slot(names, i);
    }
    assert(a =~= b);
}

proof fn lemma_map_remove<V>(names: Seq<Vec<u8>>, vals: Seq<V>, pos: int)
    requires
        sorted(names),
        names.len() == vals.len(),
        0 <= pos < names.len(),
    ensures
        sorted(names.remove(pos)),
        as_map(names.remove(pos), vals.remove(pos)) == as_map(names, vals).remove(names[pos]@),
{
    let nn = names.remove(pos);
    let nvs = vals.remove(pos);
    assert forall|i: int, j: int| 0 <= i < j < nn.len() implies lex_lt(#[trigger] nn[i]@, #[trigger] nn[j]@) by {
        if j < pos {
        } else if i < pos {
            assert(nn[j] == names[j + 1]);
        } else {
            assert(nn[i] == names[i + 1]);
            assert(nn[j] == names[j + 1]);
        }
    }
    let a = as_map(nn, nvs);
    let b = as_map(names, vals).remove(names[pos]@);
    lemma_slot(names, pos);
    assert forall|k: Seq<u8>| a.contains_key(k) <==> b.contains_key(k) by {
        if named(nn, k) {
            let i = choose|i: int| 0 <= i < nn.len() && #[trigger] nn[i]@ == k;
            if i < pos {
                assert(names[i]@ == k);
                lemma_slot(names, i);
            } else {
                assert(names[i + 1]@ == k);
                lemma_slot(names, i + 1);
            }
        }
        if named(names, k) && k != names[pos]@ {
            let i = choose|i: int| 0 <= i < names.len() && #[trigger] names[i]@ == k;
            if i < pos {
                assert(nn[i]@ == k);
            } else {
                assert(i != pos);
                assert(nn[i - 1]@ == k);
            }
        }
    }
    assert forall|k: Seq<u8>| a.contains_key(k) implies a[k] == b[k] by {
        let i = choose|i: int| 0 <= i < names.len() && #[trigger] names[i]@ == k;
        lemma_slot(names, i);
        if i < pos {
            lemma_slot(nn, i);
        } else {
            assert(nn[i - 1] == names[i]);
            lemma_slot(nn, i - 1);
        }
    }
    assert(a =~= b);
}


/// Whether `x` names a directory after a file is inserted at `s` into `old`.
pub open spec fn dir_after<M>(old: Node<M>, s: Seq<Seq<u8>>, x: Seq<Seq<u8>>) -> bool {
    old.node_at(x) is Some || strict_prefix(x, s)
}

/// The file at `x` after `meta` is inserted at `s` into `old`: a directory at
/// `s` blocks the insert, and files on the way to `s` give way to directories.
pub open spec fn file_after<M>(old: Node<M>, s: Seq<Seq<u8>>, meta: M, x: Seq<Seq<u8>>) -> Option<M> {
    if x == s && old.node_at(s) is None {
        Some(meta)
    } else if strict_prefix(x, s) {
        None
    } else {
        old.file_at(x)
    }
}

impl<M> Node<M> {
    /// An empty directory.
    fn new() -> (r: Node<M>)
        ensures
            r.wf(),
            r.files() == Map::<Seq<u8>, M>::empty(),
            r.subdirs() == Map::<Seq<u8>, Node<M>>::empty(),
    {
        let r = Node { file_names: Vec::new(), file_metas: Vec::new(), dir_names: Vec::new(), dirs: Vec::new() };
        proof {
            assert(r.files() =~= Map::<Seq<u8>, M>::empty());
            assert(r.subdirs() =~= Map::<Seq<u8>, Node<M>>::empty());
            assert forall|p: Seq<Seq<u8>>| #[trigger] r.node_at(p) is Some implies r.node_at(p)->0.local_wf() by {
                if p.len() > 0 {
                    assert(!r.subdirs().contains_key(p[0]));
                }
            }
        }
        r
    }
}

proof fn lemma_prefix_cons(x: Seq<Seq<u8>>, s: Seq<Seq<u8>>)
    requires
        x.len() > 0,
        s.len() > 0,
    ensures
        x[0] == s[0] ==> (strict_prefix(x, s) == strict_prefix(x.drop_first(), s.drop_first())),
        x[0] == s[0] ==> ((x == s) == (x.drop_first() == s.drop_first())),
        x[0] != s[0] ==> !strict_prefix(x, s) && x != s,
{
    if x[0] == s[0] {
        if strict_prefix(x, s) {
            assert(s.drop_first().take(x.len() - 1) =~= s.take(x.len() as int).drop_first());
        }
        if strict_prefix(x.drop_first(), s.drop_first()) {
            assert forall|i: int| 0 <= i < x.len() implies #[trigger] s.take(x.len() as int)[i] == x[i] by {
                if i > 0 {
                    assert(s.drop_first().take(x.len() - 1)[i - 1] == x.drop_first()[i - 1]);
                }
            }
            assert(s.take(x.len() as int) =~= x);
        }
        if x.drop_first() == s.drop_first() {
            assert(x.drop_first().len() == s.drop_first().len());
            assert forall|i: int| 0 <= i < x.len() implies #[trigger] s[i] == x[i] by {
                if i > 0 {
                    assert(s.drop_first()[i - 1] == x.drop_first()[i - 1]);
                }
            }
            assert(x =~= s);
        }
    } else {
        if x.len() < s.len() {
            assert(s.take(x.len() as int)[0] == s[0]);
        }
    }
}

/// One level of an insert along `s` (at least two components long): the file
/// named `s[0]` gives way, and the subdirectory `s[0]`, formerly `oc` (or
/// missing), becomes `c2`, into which the rest of `s` was inserted.
proof fn lemma_insert_step<M>(o: Node<M>, nw: Node<M>, s: Seq<Seq<u8>>, oc: Node<M>, c2: Node<M>, meta: M)
    requires
        o.wf(),
        s.len() >= 2,
        nw.file_names.len() == nw.file_metas.len(),
        nw.dir_names.len() == nw.dirs.len(),
        sorted(nw.file_names@),
        sorted(nw.dir_names@),
        nw.files() == o.files().remove(s[0]),
        nw.subdirs() == o.subdirs().insert(s[0], c2),
        o.subdirs().contains_key(s[0]) ==> oc == o.subdirs()[s[0]],
        !o.subdirs().contains_key(s[0]) ==> oc.files() == Map::<Seq<u8>, M>::empty() && oc.subdirs()
            == Map::<Seq<u8>, Node<M>>::empty(),
        c2.wf(),
        forall|x: Seq<Seq<u8>>| (#[trigger] c2.node_at(x) is Some) == dir_after(oc, s.drop_first(), x),
        forall|x: Seq<Seq<u8>>| #[trigger] c2.file_at(x) == file_after(oc, s.drop_first(), meta, x),
    ensures
        nw.wf(),
        forall|x: Seq<Seq<u8>>| (#[trigger] nw.node_at(x) is Some) == dir_after(o, s, x),
        forall|x: Seq<Seq<u8>>| #[trigger] nw.file_at(x) == file_after(o, s, meta, x),
{
    let n = s[0];
    let s2 = s.drop_first();
    assert(o.node_at(Seq::empty()) == Some(o));
    assert(nw.subdirs().contains_key(n));
    assert(nw.subdirs()[n] == c2);
    assert forall|x: Seq<Seq<u8>>|
        #![trigger nw.node_at(x)]
        #![trigger nw.file_at(x)]
        (nw.node_at(x) is Some) == dir_after(o, s, x) && nw.file_at(x) == file_after(o, s, meta, x) by {
        if x.len() == 0 {
            assert(!strict_prefix(x, s) ==> s.take(0) != x);
            assert(s.take(0) =~= x);
        } else {
            lemma_prefix_cons(x, s);
            let x2 = x.drop_first();
            if x[0] == n {
                assert(nw.node_at(x) == c2.node_at(x2));
                if o.subdirs().contains_key(n) {
                    assert(o.node_at(s) == oc.node_at(s2));
                    assert(o.node_at(x) == oc.node_at(x2));
                    if x.len() >= 2 {
                        assert(o.file_at(x) == oc.file_at(x2));
                    }
                } else {
                    assert(o.node_at(s) is None);
                    assert(o.node_at(x) is None);
                    if x.len() >= 2 {
                        assert(o.file_at(x) is None);
                    }
                }
                if x.len() == 1 {
                    assert(!nw.files().contains_key(n));
                    assert(nw.file_at(x) is None);
                }
                if x.len() >= 2 {
                    assert(nw.file_at(x) == c2.file_at(x2));
                    assert(c2.file_at(x2) == file_after(oc, s2, meta, x2));
                    if !o.subdirs().contains_key(n) {
                        assert(!oc.subdirs().contains_key(x2[0]));
                        assert(!oc.subdirs().contains_key(s2[0]));
                        assert(oc.node_at(s2) is None);
                        if x2.len() == 1 {
                            assert(!oc.files().contains_key(x2[0]));
                        }
                        assert(oc.file_at(x2) is None);
                    }
                } else {
                    assert(x2.len() == 0);
                    assert(s.take(1) =~= x);
                    if !o.subdirs().contains_key(n) {
                        assert(oc.node_at(x2) == Some(oc));
                    }
                }
                if !o.subdirs().contains_key(n) && x2.len() > 0 {
                    assert(!oc.subdirs().contains_key(x2[0]));
                }
                assert(nw.file_at(x) == file_after(o, s, meta, x));
            } else {
                if x.len() == 1 {
                    assert(nw.files().contains_key(x[0]) == o.files().contains_key(x[0]));
                    if o.files().contains_key(x[0]) {
                        assert(nw.files()[x[0]] == o.files()[x[0]]);
                    }
                } else if o.subdirs().contains_key(x[0]) {
                    assert(nw.subdirs()[x[0]] == o.subdirs()[x[0]]);
                    assert(nw.file_at(x) == o.file_at(x));
                } else {
                    assert(!nw.subdirs().contains_key(x[0]));
                }
                if o.subdirs().contains_key(x[0]) {
                    assert(nw.subdirs()[x[0]] == o.subdirs()[x[0]]);
                }
                assert(nw.file_at(x) == file_after(o, s, meta, x));
            }
        }
    }
    assert(nw.local_wf()) by {
        assert forall|k: Seq<u8>| !(#[trigger] nw.files().contains_key(k) && nw.subdirs().contains_key(k)) by {
            if nw.files().contains_key(k) && nw.subdirs().contains_key(k) {
                assert(o.files().contains_key(k));
                assert(o.subdirs().contains_key(k));
            }
        }
    }
    assert forall|x: Seq<Seq<u8>>| #[trigger] nw.node_at(x) is Some implies nw.node_at(x)->0.local_wf() by {
        if x.len() > 0 {
            let x2 = x.drop_first();
            if x[0] == n {
                assert(nw.node_at(x) == c2.node_at(x2));
            } else {
                assert(nw.subdirs()[x[0]] == o.subdirs()[x[0]]);
                assert(o.node_at(x) == nw.node_at(x));
            }
        }
    }
}

/// Inserts `meta` at the components of `p` from `k` on, below `node`.
fn insert_node<M>(node: &mut Node<M>, p: &Vec<Vec<u8>>, k: usize, meta: M)
    requires
        old(node).wf(),
        k < p.len(),
    ensures
        final(node).wf(),
        forall|x: Seq<Seq<u8>>| (#[trigger] final(node).node_at(x) is Some) == dir_after(*old(node), seqs_of(p@).skip(k as int), x),
        forall|x: Seq<Seq<u8>>| #[trigger] final(node).file_at(x) == file_after(*old(node), seqs_of(p@).skip(k as int), meta, x),
    decreases p.len() - k,
{
    let ghost s = seqs_of(p@).skip(k as int);
    let ghost o = *node;
    proof {
        assert(o.node_at(Seq::empty()) == Some(o));
    }
    let n = &p[k];
    assert(s[0] == n@);
    let (pos, found) = find_pos(&node.dir_names, n);
    let (fpos, ffound) = find_pos(&node.file_names, n);
    if k + 1 == p.len() {
        if !found {
            if ffound {
                node.file_metas.set(fpos, meta);
                proof {
                    lemma_map_update(o.file_names@, o.file_metas@, fpos as int, meta);
                }
            } else {
                node.file_names.insert(fpos, copy_bytes(n));
                node.file_metas.insert(fpos, meta);
                proof {
                    lemma_map_insert(o.file_names@, o.file_metas@, fpos as int, node.file_names@[fpos as int], meta);
                }
            }
            proof {
                assert(node.files() == o.files().insert(n@, meta));
                assert(node.subdirs() == o.subdirs());
                assert(s =~= seq![n@]);
                assert(node.local_wf()) by {
                    assert forall|q: Seq<u8>| !(#[trigger] node.files().contains_key(q) && node.subdirs().contains_key(q)) by {
                        if q != n@ {
                            assert(node.files().contains_key(q) == o.files().contains_key(q));
                        }
                    }
                }
                assert forall|x: Seq<Seq<u8>>|
                    #![trigger node.node_at(x)]
                    #![trigger node.file_at(x)]
                    (node.node_at(x) is Some) == dir_after(o, s, x) && node.file_at(x) == file_after(o, s, meta, x) by {
                    if x.len() == 0 {
                        assert(s.take(0) =~= x);
                    } else {
                        lemma_prefix_cons(x, s);
                        assert(o.node_at(x) == node.node_at(x));
                        if x.len() == 1 {
                            if x[0] == n@ {
                                assert(x =~= s);
                                assert(!o.subdirs().contains_key(n@));
                            }
                        }
                    }
                }
                assert forall|x: Seq<Seq<u8>>| #[trigger] node.node_at(x) is Some implies node.node_at(x)->0.local_wf() by {
                    if x.len() > 0 {
                        assert(o.node_at(x) == node.node_at(x));
                    }
                }
            }
        } else {
            proof {
                assert(s =~= seq![n@]);
                assert(o.subdirs().contains_key(n@));
                assert(s.drop_first().len() == 0);
                assert(o.subdirs()[n@].node_at(s.drop_first()) is Some);
                assert(o.node_at(s) is Some);
                assert forall|x: Seq<Seq<u8>>|
                    #![trigger node.node_at(x)]
                    #![trigger node.file_at(x)]
                    (node.node_at(x) is Some) == dir_after(o, s, x) && node.file_at(x) == file_after(o, s, meta, x) by {
                    if x.len() == 0 {
                        assert(s.take(0) =~= x);
                    } else {
                        lemma_prefix_cons(x, s);
                    }
                }
            }
        }
    } else {
        if ffound {
            node.file_names.remove(fpos);
            node.file_metas.remove(fpos);
            proof {
                lemma_map_remove(o.file_names@, o.file_metas@, fpos as int);
            }
        }
        proof {
            assert(node.files() == o.files().remove(n@));
        }
        if found {
            let mut child = node.dirs.remove(pos);
            proof {
                lemma_slot(o.dir_names@, pos as int);
                lemma_wf_child(o, n@);
            }
            insert_node(&mut child, p, k + 1, meta);
            node.dirs.insert(pos, child);
            proof {
                assert(node.dirs@ == o.dirs@.update(pos as int, child));
                lemma_map_update(o.dir_names@, o.dirs@, pos as int, child);
                assert(seqs_of(p@).skip(k + 1) =~= s.drop_first());
                lemma_insert_step(o, *node, s, o.subdirs()[n@], child, meta);
            }
        } else {
            let mut child = Node::new();
            let ghost fresh = child;
            insert_node(&mut child, p, k + 1, meta);
            node.dir_names.insert(pos, copy_bytes(n));
            node.dirs.insert(pos, child);
            proof {
                lemma_map_insert(o.dir_names@, o.dirs@, pos as int, node.dir_names@[pos as int], child);
                assert(seqs_of(p@).skip(k + 1) =~= s.drop_first());
                lemma_insert_step(o, *node, s, fresh, child, meta);
            }
        }
    }
}


proof fn lemma_node_at_push<M>(node: Node<M>, q: Seq<Seq<u8>>, n: Seq<u8>)
    ensures
        node.node_at(q.push(n)) == (match node.node_at(q) {
            Some(d) => if d.subdirs().contains_key(n) {
                d.subdirs()[n].node_at(Seq::empty())
            } else {
                None
            },
            None => None,
        }),
    decreases q.len(),
{
    if q.len() > 0 {
        assert(q.push(n).drop_first() =~= q.drop_first().push(n));
        assert(q.push(n)[0] == q[0]);
        if node.subdirs().contains_key(q[0]) {
            lemma_node_at_push(node.subdirs()[q[0]], q.drop_first(), n);
        }
    } else {
        assert(q.push(n) =~= seq![n]);
        assert(seq![n].drop_first() =~= Seq::<Seq<u8>>::empty());
    }
}

/// `r` lists the files `files` and then the directories `dirs`, each group in
/// lexicographic order of names, every name once.
pub open spec fn lists(r: Seq<(Seq<u8>, EntryKind)>, files: Set<Seq<u8>>, dirs: Set<Seq<u8>>) -> bool {
    &&& forall|i: int, j: int|
        0 <= i < j < r.len() ==> ((#[trigger] r[i]).1 == EntryKind::File && (#[trigger] r[j]).1
            == EntryKind::Dir) || (r[i].1 == r[j].1 && lex_lt(r[i].0, r[j].0))
    &&& forall|n: Seq<u8>| files.contains(n) <==> exists|i: int| 0 <= i < r.len() && #[trigger] r[i] == (n, EntryKind::File)
    &&& forall|n: Seq<u8>| dirs.contains(n) <==> exists|i: int| 0 <= i < r.len() && #[trigger] r[i] == (n, EntryKind::Dir)
}

/// Directory index, implemented as a trie: maps paths to metadata and lists
/// directories. Paths are normalized before use.
pub struct Index<M> {
    root: Node<M>,
}

/// The entries of the node `d`: its files, then its subdirectories.
pub closed spec fn node_listing<M>(d: Node<M>) -> Seq<(Seq<u8>, EntryKind)> {
    Seq::new(d.file_names@.len(), |j: int| (d.file_names@[j]@, EntryKind::File)) + Seq::new(
        d.dir_names@.len(),
        |j: int| (d.dir_names@[j]@, EntryKind::Dir),
    )
}

impl<M> Index<M> {
    /// The index is well formed.
    #[verifier::type_invariant]
    spec fn wf(&self) -> bool {
        self.root.wf()
    }

    /// The entries of the directory `p`: empty where `p` names no directory.
    pub closed spec fn listing(&self, p: Seq<Seq<u8>>) -> Seq<(Seq<u8>, EntryKind)> {
        match self.root.node_at(p) {
            Some(d) => node_listing(d),
            None => Seq::empty(),
        }
    }

    /// The metadata of the file at the normalized path `p`.
    pub closed spec fn file(&self, p: Seq<Seq<u8>>) -> Option<M> {
        self.root.file_at(p)
    }

    /// The normalized path `p` names a directory (the empty path is the top).
    pub closed spec fn is_dir(&self, p: Seq<Seq<u8>>) -> bool {
        self.root.node_at(p) is Some
    }

    /// Names of the files directly inside the directory `p`.
    pub open spec fn child_files(&self, p: Seq<Seq<u8>>) -> Set<Seq<u8>> {
        Set::new(|n: Seq<u8>| self.file(p.push(n)) is Some)
    }

    /// Names of the directories directly inside the directory `p`.
    pub open spec fn child_dirs(&self, p: Seq<Seq<u8>>) -> Set<Seq<u8>> {
        Set::new(|n: Seq<u8>| self.is_dir(p.push(n)))
    }

    /// An empty index.
    pub fn new() -> (r: Index<M>)
        ensures
            forall|p: Seq<Seq<u8>>| #[trigger] r.file(p) is None,
            forall|p: Seq<Seq<u8>>| #[trigger] r.is_dir(p) == (p.len() == 0),
    {
        let r = Index { root: Node::new() };
        proof {
            assert forall|p: Seq<Seq<u8>>| #[trigger] r.file(p) is None && r.is_dir(p) == (p.len() == 0) by {
                if p.len() > 0 {
                    assert(!r.root.subdirs().contains_key(p[0]));
                    assert(!r.root.files().contains_key(p[0]));
                }
            }
        }
        r
    }

    /// Records `meta` as the file at `path`, normalized. Directories are made
    /// along the way, replacing files of their names; a directory at `path`
    /// itself wins, and the insert is then dropped. The empty path is ignored.
    pub fn insert(&mut self, path: &Path, meta: M)
        ensures
            ({
                let q = normalize(path@);
                &&& forall|x: Seq<Seq<u8>>| #[trigger] final(self).is_dir(x) == (old(self).is_dir(x) || strict_prefix(x, q))
                &&& forall|x: Seq<Seq<u8>>| #[trigger] final(self).file(x) == if q.len() > 0 && x == q && !old(self).is_dir(q) {
                    Some(meta)
                } else if strict_prefix(x, q) {
                    None
                } else {
                    old(self).file(x)
                }
            }),
    {
        proof {
            use_type_invariant(&*self);
        }
        let np = normalize_path(path);
        let comps = np.components();
        if comps.len() == 0 {
            proof {
                assert forall|x: Seq<Seq<u8>>| !strict_prefix(x, normalize(path@)) by {}
            }
            return;
        }
        let mut taken = Index::new();
        core::mem::swap(self, &mut taken);
        proof {
            use_type_invariant(&taken);
        }
        let Index { mut root } = taken;
        insert_node(&mut root, comps, 0, meta);
        *self = Index { root };
        proof {
            assert(seqs_of(comps@).skip(0) =~= normalize(path@));
        }
    }

    /// The metadata of the file at `path`, normalized; `None` where no file is.
    pub fn get(&self, path: &Path) -> (r: Option<&M>)
        ensures
            r is Some == self.file(normalize(path@)) is Some,
            r is Some ==> *r->0 == self.file(normalize(path@))->0,
    {
        proof {
            use_type_invariant(self);
        }
        let np = normalize_path(path);
        let comps = np.components();
        let ghost q = normalize(path@);
        if comps.len() == 0 {
            return None;
        }
        let mut cur: &Node<M> = &self.root;
        let mut i: usize = 0;
        while i + 1 < comps.len()
            invariant
                q == normalize(path@),
                seqs_of(comps@) == q,
                comps.len() == q.len(),
                q.len() > 0,
                0 <= i < q.len(),
                self.root.node_at(q.take(i as int)) == Some(*cur),
                self.root.wf(),
            decreases q.len() - i,
        {
            let (pos, found) = find_pos(&cur.dir_names, &comps[i]);
            proof {
                assert(q.take(i + 1) =~= q.take(i as int).push(q[i as int]));
                lemma_node_at_push(self.root, q.take(i as int), q[i as int]);
                assert(seqs_of(comps@)[i as int] == comps@[i as int]@);
            }
            if !found {
                proof {
                    assert(q.take(i + 1).push(q[i + 1]) =~= q.take(i + 2));
                    assert(!cur.subdirs().contains_key(q[i as int]));
                    assert(self.root.node_at(q.take(i + 1)) is None);
                    lemma_file_prefix_missing(self.root, q, i + 1);
                    assert(self.root.file_at(q) is None);
                }
                return None;
            }
            proof {
                lemma_slot(cur.dir_names@, pos as int);
                assert(cur.subdirs()[q[i as int]].node_at(Seq::empty()) == Some(cur.dirs@[pos as int]));
            }
            cur = &cur.dirs[pos];
            i += 1;
        }
        proof {
            assert(seqs_of(comps@)[i as int] == comps@[i as int]@);
            assert(q.take(i as int).push(q[i as int]) =~= q);
            lemma_file_in_node(self.root, q.take(i as int), q[i as int]);
        }
        let (fpos, ffound) = find_pos(&cur.file_names, &comps[i]);
        if ffound {
            proof {
                lemma_slot(cur.file_names@, fpos as int);
            }
            Some(&cur.file_metas[fpos])
        } else {
            None
        }
    }

    /// Whether a file stands at `path`, normalized.
    pub fn contains(&self, path: &Path) -> (r: bool)
        ensures
            r == self.file(normalize(path@)) is Some,
    {
        self.get(path).is_some()
    }

    /// Removes every file and directory.
    pub fn clear(&mut self)
        ensures
            forall|p: Seq<Seq<u8>>| #[trigger] final(self).file(p) is None,
            forall|p: Seq<Seq<u8>>| #[trigger] final(self).is_dir(p) == (p.len() == 0),
    {
        *self = Index::new();
    }

    /// The entries directly inside the directory at `path`, normalized: its
    /// files, then its subdirectories, each in name order. A path that names
    /// no directory has no entries.
    pub fn entries(&self, path: &Path) -> (r: Vec<Entry>)
        ensures
            entry_views(r@) == self.listing(normalize(path@)),
            lists(entry_views(r@), self.child_files(normalize(path@)), self.child_dirs(normalize(path@))),
            !self.is_dir(normalize(path@)) ==> r.len() == 0,
    {
        proof {
            use_type_invariant(self);
        }
        let np = normalize_path(path);
        let comps = np.components();
        let ghost q = normalize(path@);
        let mut cur: &Node<M> = &self.root;
        let mut i: usize = 0;
        proof {
            assert(q.take(0) =~= Seq::<Seq<u8>>::empty());
        }
        while i < comps.len()
            invariant
                q == normalize(path@),
                seqs_of(comps@) == q,
                comps.len() == q.len(),
                0 <= i <= q.len(),
                self.root.node_at(q.take(i as int)) == Some(*cur),
                self.root.wf(),
            decreases q.len() - i,
        {
            let (pos, found) = find_pos(&cur.dir_names, &comps[i]);
            proof {
                assert(q.take(i + 1) =~= q.take(i as int).push(q[i as int]));
                lemma_node_at_push(self.root, q.take(i as int), q[i as int]);
                assert(seqs_of(comps@)[i as int] == comps@[i as int]@);
            }
            if !found {
                proof {
                    assert(!cur.subdirs().contains_key(q[i as int]));
                    assert(self.root.node_at(q.take(i + 1)) is None);
                    lemma_dir_prefix_missing(self.root, q, i + 1);
                    lemma_no_children(self, q);
                    assert(entry_views(Seq::<Entry>::empty()) =~= Seq::empty());
                }
                return Vec::new();
            }
            proof {
                lemma_slot(cur.dir_names@, pos as int);
                assert(cur.subdirs()[q[i as int]].node_at(Seq::empty()) == Some(cur.dirs@[pos as int]));
            }
            cur = &cur.dirs[pos];
            i += 1;
        }
        proof {
            assert(q.take(q.len() as int) =~= q);
        }
        list_node(self, Ghost(q), cur)
    }
}

/// A strict prefix of `q` names no directory, so no file lies below it.
proof fn lemma_file_prefix_missing<M>(root: Node<M>, q: Seq<Seq<u8>>, k: int)
    requires
        0 < k < q.len(),
        root.node_at(q.take(k)) is None,
    ensures
        root.file_at(q) is None,
    decreases q.len(),
{
    if q.len() > 0 && root.subdirs().contains_key(q[0]) {
        assert(q.take(k)[0] == q[0]);
        assert(q.take(k).drop_first() =~= q.drop_first().take(k - 1));
        if k > 1 {
            lemma_file_prefix_missing(root.subdirs()[q[0]], q.drop_first(), k - 1);
        } else {
            assert(q.drop_first().take(0) =~= Seq::<Seq<u8>>::empty());
        }
    }
}

/// A prefix of `q` names no directory, so neither does `q`.
proof fn lemma_dir_prefix_missing<M>(root: Node<M>, q: Seq<Seq<u8>>, k: int)
    requires
        0 < k <= q.len(),
        root.node_at(q.take(k)) is None,
    ensures
        root.node_at(q) is None,
    decreases q.len(),
{
    if root.subdirs().contains_key(q[0]) {
        assert(q.take(k)[0] == q[0]);
        assert(q.take(k).drop_first() =~= q.drop_first().take(k - 1));
        if k > 1 {
            lemma_dir_prefix_missing(root.subdirs()[q[0]], q.drop_first(), k - 1);
        } else {
            assert(q.drop_first().take(0) =~= Seq::<Seq<u8>>::empty());
        }
    }
}

/// Nothing lies inside a path that is not a directory.
proof fn lemma_no_children<M>(idx: &Index<M>, q: Seq<Seq<u8>>)
    requires
        idx.root.node_at(q) is None,
    ensures
        idx.child_files(q) == Set::<Seq<u8>>::empty(),
        idx.child_dirs(q) == Set::<Seq<u8>>::empty(),
{
    assert forall|n: Seq<u8>| !idx.child_files(q).contains(n) && !idx.child_dirs(q).contains(n) by {
        lemma_file_in_node(idx.root, q, n);
        lemma_node_at_push(idx.root, q, n);
    }
    assert(idx.child_files(q) =~= Set::<Seq<u8>>::empty());
    assert(idx.child_dirs(q) =~= Set::<Seq<u8>>::empty());
}

/// The entries of the node `d` found at `q`.
fn list_node<M>(idx: &Index<M>, Ghost(q): Ghost<Seq<Seq<u8>>>, d: &Node<M>) -> (r: Vec<Entry>)
    requires
        idx.root.wf(),
        idx.root.node_at(q) == Some(*d),
    ensures
        entry_views(r@) == node_listing(*d),
        lists(entry_views(r@), idx.child_files(q), idx.child_dirs(q)),
{
    proof {
        assert(idx.root.node_at(q) is Some);
    }
    let mut r: Vec<Entry> = Vec::new();
    let mut i: usize = 0;
    while i < d.file_names.len()
        invariant
            d.local_wf(),
            0 <= i <= d.file_names.len(),
            r.len() == i,
            forall|j: int| 0 <= j < i ==> (#[trigger] r@[j])@ == (d.file_names@[j]@, EntryKind::File),
        decreases d.file_names.len() - i,
    {
        r.push(Entry { name: copy_bytes(&d.file_names[i]), kind: EntryKind::File });
        i += 1;
    }
    let nf = i;
    let mut i: usize = 0;
    while i < d.dir_names.len()
        invariant
            d.local_wf(),
            0 <= i <= d.dir_names.len(),
            r.len() == nf + i,
            nf == d.file_names.len(),
            forall|j: int| 0 <= j < nf ==> (#[trigger] r@[j])@ == (d.file_names@[j]@, EntryKind::File),
            forall|j: int| 0 <= j < i ==> (#[trigger] r@[nf + j])@ == (d.dir_names@[j]@, EntryKind::Dir),
        decreases d.dir_names.len() - i,
    {
        r.push(Entry { name: copy_bytes(&d.dir_names[i]), kind: EntryKind::Dir });
        i += 1;
    }
    proof {
        let v = entry_views(r@);
        assert forall|j: int| 0 <= j < v.len() implies #[trigger] v[j] == if j < nf {
            (d.file_names@[j]@, EntryKind::File)
        } else {
            (d.dir_names@[j - nf]@, EntryKind::Dir)
        } by {
            if j >= nf {
                assert(r@[nf + (j - nf)] == r@[j]);
            }
        }
        assert forall|n: Seq<u8>| idx.child_files(q).contains(n) <==> exists|i: int| 0 <= i < v.len() && #[trigger] v[i] == (n, EntryKind::File) by {
            lemma_file_in_node(idx.root, q, n);
            if idx.child_files(q).contains(n) {
                assert(d.files().contains_key(n));
                let k = choose|k: int| 0 <= k < d.file_names@.len() && #[trigger] d.file_names@[k]@ == n;
                assert(v[k] == (n, EntryKind::File));
            }
            if exists|i: int| 0 <= i < v.len() && #[trigger] v[i] == (n, EntryKind::File) {
                let k = choose|i: int| 0 <= i < v.len() && #[trigger] v[i] == (n, EntryKind::File);
                assert(k < nf);
                assert(d.file_names@[k]@ == n);
                assert(d.files().contains_key(n));
            }
        }
        assert forall|n: Seq<u8>| idx.child_dirs(q).contains(n) <==> exists|i: int| 0 <= i < v.len() && #[trigger] v[i] == (n, EntryKind::Dir) by {
            lemma_node_at_push(idx.root, q, n);
            if idx.child_dirs(q).contains(n) {
                assert(d.subdirs().contains_key(n));
                let k = choose|k: int| 0 <= k < d.dir_names@.len() && #[trigger] d.dir_names@[k]@ == n;
                assert(v[nf + k] == (n, EntryKind::Dir));
            }
            if exists|i: int| 0 <= i < v.len() && #[trigger] v[i] == (n, EntryKind::Dir) {
                let k = choose|i: int| 0 <= i < v.len() && #[trigger] v[i] == (n, EntryKind::Dir);
                assert(k >= nf);
                assert(d.dir_names@[k - nf]@ == n);
                assert(d.subdirs().contains_key(n));
                assert(d.subdirs()[n].node_at(Seq::empty()) is Some);
            }
        }
        assert(v =~= node_listing(*d));
        assert forall|a: int, b: int| 0 <= a < b < v.len() implies ((#[trigger] v[a]).1 == EntryKind::File && (#[trigger] v[b]).1
            == EntryKind::Dir) || (v[a].1 == v[b].1 && lex_lt(v[a].0, v[b].0)) by {
            if b < nf {
                assert(lex_lt(d.file_names@[a]@, d.file_names@[b]@));
            } else if a >= nf {
                assert(lex_lt(d.dir_names@[a - nf]@, d.dir_names@[b - nf]@));
            }
        }
    }
    r
}


/// An empty directory and a path that names nothing list alike: where no
/// file and no directory lies directly inside `q`, the listing of `q` is empty.
pub proof fn law_empty_listing<M>(idx: Index<M>, q: Seq<Seq<u8>>)
    requires
        idx.child_files(q) == Set::<Seq<u8>>::empty(),
        idx.child_dirs(q) == Set::<Seq<u8>>::empty(),
    ensures
        idx.listing(q) == Seq::<(Seq<u8>, EntryKind)>::empty(),
{
    if let Some(d) = idx.root.node_at(q) {
        if d.file_names@.len() > 0 {
            let n = d.file_names@[0]@;
            lemma_file_in_node(idx.root, q, n);
            assert(named(d.file_names@, n));
            assert(idx.child_files(q).contains(n));
        }
        if d.dir_names@.len() > 0 {
            let n = d.dir_names@[0]@;
            lemma_node_at_push(idx.root, q, n);
            assert(named(d.dir_names@, n));
            assert(d.subdirs()[n].node_at(Seq::empty()) is Some);
            assert(idx.child_dirs(q).contains(n));
        }
        assert(node_listing(d) =~= Seq::<(Seq<u8>, EntryKind)>::empty());
    }
}

/// Removes the file at the components of `p` from `k` on, below `node`.
fn remove_node<M>(node: &mut Node<M>, p: &Vec<Vec<u8>>, k: usize) -> (r: Option<M>)
    requires
        old(node).wf(),
        k < p.len(),
    ensures
        final(node).wf(),
        r == old(node).file_at(seqs_of(p@).skip(k as int)),
        forall|x: Seq<Seq<u8>>| (#[trigger] final(node).node_at(x) is Some) == (old(node).node_at(x) is Some),
        forall|x: Seq<Seq<u8>>| #[trigger] final(node).file_at(x) == if x == seqs_of(p@).skip(k as int) {
            None
        } else {
            old(node).file_at(x)
        },
    decreases p.len() - k,
{
    let ghost s = seqs_of(p@).skip(k as int);
    let ghost o = *node;
    proof {
        assert(o.node_at(Seq::empty()) == Some(o));
    }
    let n = &p[k];
    assert(s[0] == n@);
    if k + 1 == p.len() {
        let (fpos, ffound) = find_pos(&node.file_names, n);
        proof {
            assert(s =~= seq![n@]);
        }
        if !ffound {
            return None;
        }
        node.file_names.remove(fpos);
        let m = node.file_metas.remove(fpos);
        proof {
            lemma_map_remove(o.file_names@, o.file_metas@, fpos as int);
            lemma_slot(o.file_names@, fpos as int);
            assert(node.files() == o.files().remove(n@));
            assert(node.subdirs() == o.subdirs());
            assert(node.local_wf()) by {
                assert forall|q: Seq<u8>| !(#[trigger] node.files().contains_key(q) && node.subdirs().contains_key(q)) by {
                    assert(node.files().contains_key(q) ==> o.files().contains_key(q));
                }
            }
            assert forall|x: Seq<Seq<u8>>|
                #![trigger node.node_at(x)]
                #![trigger node.file_at(x)]
                (node.node_at(x) is Some) == (o.node_at(x) is Some) && node.file_at(x) == if x == s {
                    None
                } else {
                    o.file_at(x)
                } by {
                if x.len() > 0 {
                    assert(o.node_at(x) == node.node_at(x));
                    if x.len() == 1 && x[0] == n@ {
                        assert(x =~= s);
                    }
                    if x.len() == 1 && x[0] != n@ {
                        assert(x != s);
                    }
                }
            }
            assert forall|x: Seq<Seq<u8>>| #[trigger] node.node_at(x) is Some implies node.node_at(x)->0.local_wf() by {
                if x.len() > 0 {
                    assert(o.node_at(x) == node.node_at(x));
                }
            }
        }
        Some(m)
    } else {
        let (pos, found) = find_pos(&node.dir_names, n);
        if !found {
            proof {
                assert(!o.subdirs().contains_key(n@));
                assert(o.file_at(s) is None);
            }
            return None;
        }
        let mut child = node.dirs.remove(pos);
        proof {
            lemma_slot(o.dir_names@, pos as int);
            lemma_wf_child(o, n@);
            assert(seqs_of(p@).skip(k + 1) =~= s.drop_first());
        }
        let r = remove_node(&mut child, p, k + 1);
        node.dirs.insert(pos, child);
        proof {
            assert(node.dirs@ == o.dirs@.update(pos as int, child));
            lemma_map_update(o.dir_names@, o.dirs@, pos as int, child);
            let oc = o.subdirs()[n@];
            assert(node.subdirs() == o.subdirs().insert(n@, child));
            assert(node.files() == o.files());
            assert(o.file_at(s) == oc.file_at(s.drop_first()));
            assert(node.local_wf()) by {
                assert forall|q: Seq<u8>| !(#[trigger] node.files().contains_key(q) && node.subdirs().contains_key(q)) by {
                    if q == n@ {
                        assert(o.subdirs().contains_key(q));
                    }
                }
            }
            assert forall|x: Seq<Seq<u8>>|
                #![trigger node.node_at(x)]
                #![trigger node.file_at(x)]
                (node.node_at(x) is Some) == (o.node_at(x) is Some) && node.file_at(x) == if x == s {
                    None
                } else {
                    o.file_at(x)
                } by {
                if x.len() > 0 {
                    lemma_prefix_cons(x, s);
                    let x2 = x.drop_first();
                    if x[0] == n@ {
                        assert(node.node_at(x) == child.node_at(x2));
                        assert(o.node_at(x) == oc.node_at(x2));
                        if x.len() >= 2 {
                            assert(node.file_at(x) == child.file_at(x2));
                            assert(o.file_at(x) == oc.file_at(x2));
                        } else {
                            assert(x != s);
                        }
                    } else {
                        if x.len() == 1 {
                            assert(node.files() == o.files());
                        } else if o.subdirs().contains_key(x[0]) {
                            assert(node.subdirs()[x[0]] == o.subdirs()[x[0]]);
                        }
                        if o.subdirs().contains_key(x[0]) {
                            assert(node.subdirs()[x[0]] == o.subdirs()[x[0]]);
                        }
                    }
                }
            }
            assert forall|x: Seq<Seq<u8>>| #[trigger] node.node_at(x) is Some implies node.node_at(x)->0.local_wf() by {
                if x.len() > 0 {
                    let x2 = x.drop_first();
                    if x[0] == n@ {
                        assert(node.node_at(x) == child.node_at(x2));
                    } else {
                        assert(node.subdirs()[x[0]] == o.subdirs()[x[0]]);
                        assert(o.node_at(x) == node.node_at(x));
                    }
                }
            }
        }
        r
    }
}

impl<M> Index<M> {
    /// Removes the file at `path`, normalized, and hands back its metadata;
    /// directories stay as they are.
    pub fn remove(&mut self, path: &Path) -> (r: Option<M>)
        ensures
            r == old(self).file(normalize(path@)),
            forall|x: Seq<Seq<u8>>| #[trigger] final(self).is_dir(x) == old(self).is_dir(x),
            forall|x: Seq<Seq<u8>>| #[trigger] final(self).file(x) == if x == normalize(path@) {
                None
            } else {
                old(self).file(x)
            },
    {
        proof {
            use_type_invariant(&*self);
        }
        let np = normalize_path(path);
        let comps = np.components();
        if comps.len() == 0 {
            return None;
        }
        let mut taken = Index::new();
        core::mem::swap(self, &mut taken);
        proof {
            use_type_invariant(&taken);
        }
        let Index { mut root } = taken;
        let r = remove_node(&mut root, comps, 0);
        *self = Index { root };
        proof {
            assert(seqs_of(comps@).skip(0) =~= normalize(path@));
        }
        r
    }
}

} // verus!
