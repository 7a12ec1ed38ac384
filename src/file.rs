//! Files opened from a store: bytes and a read position of their own.
use vstd::prelude::*;

verus! {

/// In-memory file: it reads the store's buffer in place.
pub struct RamFile<'a> {
    data: &'a Vec<u8>,
    pos: usize,
}

/// Entry read out of a tar archive.
pub struct TarFsFile {
    data: Vec<u8>,
    pos: usize,
}

/// Entry read out of a zip archive.
pub struct ZipFsFile {
    data: Vec<u8>,
    pos: usize,
}

/// File you can seek and read from.
pub enum File<'a> {
    Ram(RamFile<'a>),
    Tar(TarFsFile),
    Zip(ZipFsFile),
}

/// Appends `data` from `pos` on to `out`, and moves `pos` to the end.
fn read_rest(data: &Vec<u8>, pos: &mut usize, out: &mut Vec<u8>) -> (n: usize)
    ensures
        *old(pos) <= data.len() ==> final(out)@ == old(out)@ + data@.skip(*old(pos) as int),
        *old(pos) > data.len() ==> final(out)@ == old(out)@,
        n == final(out)@.len() - old(out)@.len(),
        *final(pos) == if *old(pos) <= data.len() { data.len() } else { *old(pos) },
{
    let start = *pos;
    if start > data.len() {
        return 0;
    }
    let mut i: usize = start;
    while i < data.len()
        invariant
            start <= i <= data.len(),
            out@ == old(out)@ + data@.subrange(start as int, i as int),
        decreases data.len() - i,
    {
        out.push(data[i]);
        i += 1;
        proof {
            assert(out@ =~= old(out)@ + data@.subrange(start as int, i as int));
        }
    }
    proof {
        assert(data@.subrange(start as int, data.len() as int) =~= data@.skip(start as int));
    }
    *pos = data.len();
    data.len() - start
}

/// Appends at most `max` bytes of `data` from `pos` on to `out`, and moves
/// `pos` past them.
fn read_some(data: &Vec<u8>, pos: &mut usize, out: &mut Vec<u8>, max: usize) -> (n: usize)
    ensures
        *old(pos) >= data.len() ==> n == 0 && final(out)@ == old(out)@ && *final(pos) == *old(pos),
        *old(pos) < data.len() ==> n == (if max < data.len() - *old(pos) {
            max as int
        } else {
            data.len() - *old(pos)
        }) && final(out)@ == old(out)@ + data@.subrange(*old(pos) as int, *old(pos) + n) && *final(pos)
            == *old(pos) + n,
{
    let start = *pos;
    if start >= data.len() {
        return 0;
    }
    let end = if max < data.len() - start {
        start + max
    } else {
        data.len()
    };
    let mut i: usize = start;
    while i < end
        invariant
            start <= i <= end,
            end <= data.len(),
            out@ == old(out)@ + data@.subrange(start as int, i as int),
        decreases end - i,
    {
        out.push(data[i]);
        i += 1;
        proof {
            assert(out@ =~= old(out)@ + data@.subrange(start as int, i as int));
        }
    }
    *pos = end;
    end - start
}

impl<'a> File<'a> {
    /// All the bytes of the file.
    pub closed spec fn contents(&self) -> Seq<u8> {
        match self {
            File::Ram(f) => f.data@,
            File::Tar(f) => f.data@,
            File::Zip(f) => f.data@,
        }
    }

    /// The read position.
    pub closed spec fn position(&self) -> nat {
        match self {
            File::Ram(f) => f.pos as nat,
            File::Tar(f) => f.pos as nat,
            File::Zip(f) => f.pos as nat,
        }
    }

    /// A file over `data` of the store, at position 0.
    pub(crate) fn ram(data: &'a Vec<u8>) -> (r: File<'a>)
        ensures
            r.contents() == data@,
            r.position() == 0,
    {
        File::Ram(RamFile { data, pos: 0 })
    }

    /// A file over bytes read out of a tar archive, at position 0.
    pub(crate) fn tar(data: Vec<u8>) -> (r: File<'a>)
        ensures
            r.contents() == data@,
            r.position() == 0,
    {
        File::Tar(TarFsFile { data, pos: 0 })
    }

    /// A file over bytes read out of a zip archive, at position 0.
    pub(crate) fn zip(data: Vec<u8>) -> (r: File<'a>)
        ensures
            r.contents() == data@,
            r.position() == 0,
    {
        File::Zip(ZipFsFile { data, pos: 0 })
    }

    /// The length of the file in bytes.
    pub fn len(&self) -> (r: usize)
        ensures
            r == self.contents().len(),
    {
        match self {
            File::Ram(f) => f.data.len(),
            File::Tar(f) => f.data.len(),
            File::Zip(f) => f.data.len(),
        }
    }

    /// The read position.
    pub fn pos(&self) -> (r: usize)
        ensures
            r == self.position(),
    {
        match self {
            File::Ram(f) => f.pos,
            File::Tar(f) => f.pos,
            File::Zip(f) => f.pos,
        }
    }

    /// Reads at most `max` bytes from the position on, appending them to
    /// `out`, and moves the position past them; returns how many were read.
    pub fn read(&mut self, out: &mut Vec<u8>, max: usize) -> (n: usize)
        ensures
            final(self).contents() == old(self).contents(),
            old(self).position() >= old(self).contents().len() ==> n == 0 && final(out)@ == old(out)@
                && final(self).position() == old(self).position(),
            old(self).position() < old(self).contents().len() ==> n == (if max < old(self).contents().len()
                - old(self).position() {
                max as int
            } else {
                old(self).contents().len() - old(self).position()
            }) && final(out)@ == old(out)@ + old(self).contents().subrange(
                old(self).position() as int,
                old(self).position() + n,
            ) && final(self).position() == old(self).position() + n,
    {
        match self {
            File::Ram(f) => read_some(f.data, &mut f.pos, out, max),
            File::Tar(f) => read_some(&f.data, &mut f.pos, out, max),
            File::Zip(f) => read_some(&f.data, &mut f.pos, out, max),
        }
    }

    /// Moves the read position to `pos` bytes from the start.
    pub fn seek(&mut self, pos: usize)
        ensures
            final(self).contents() == old(self).contents(),
            final(self).position() == pos,
    {
        match self {
            File::Ram(f) => f.pos = pos,
            File::Tar(f) => f.pos = pos,
            File::Zip(f) => f.pos = pos,
        }
    }

    /// Reads every byte from the position to the end, appending them to
    /// `out`; returns how many were read. Past the end nothing is read.
    pub fn read_to_end(&mut self, out: &mut Vec<u8>) -> (n: usize)
        ensures
            final(self).contents() == old(self).contents(),
            old(self).position() <= old(self).contents().len() ==> final(out)@ == old(out)@ + old(
                self,
            ).contents().skip(old(self).position() as int) && final(self).position()
                == old(self).contents().len(),
            old(self).position() > old(self).contents().len() ==> final(out)@ == old(out)@
                && final(self).position() == old(self).position(),
            n == final(out)@.len() - old(out)@.len(),
    {
        match self {
            File::Ram(f) => read_rest(f.data, &mut f.pos, out),
            File::Tar(f) => read_rest(&f.data, &mut f.pos, out),
            File::Zip(f) => read_rest(&f.data, &mut f.pos, out),
        }
    }
}

} // verus!
