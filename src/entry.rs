//! Directory entries, as produced by listings.
use vstd::prelude::*;

verus! {

/// Type of a file entry.
#[derive(Debug, Clone, Copy, PartialEq, Eq, Structural)]
pub enum EntryKind {
    File,
    Dir,
}

/// File or directory entry: a name, one component long, and its kind.
#[derive(Debug, Clone)]
pub struct Entry {
    pub name: Vec<u8>,
    pub kind: EntryKind,
}

impl View for Entry {
    type V = (Seq<u8>, EntryKind);

    open spec fn view(&self) -> (Seq<u8>, EntryKind) {
        (self.name@, self.kind)
    }
}

/// Views of a sequence of entries.
pub open spec fn entry_views(v: Seq<Entry>) -> Seq<(Seq<u8>, EntryKind)> {
    Seq::new(v.len(), |i: int| v[i]@)
}

} // verus!
