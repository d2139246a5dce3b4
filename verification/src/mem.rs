//! In-memory implementations of the byte source and sink contracts.
//!
//! They let a whole encode or decode session run against plain vectors, and
//! show that every abstract I/O contract of this crate is implementable.

use vstd::prelude::*;

use crate::bytes;
use crate::bytes::write_at;
use crate::read::Read;
use crate::split::SplitFilesystem;
use crate::write::AsyncWriter;
use crate::write::SectorReader;

verus! {

/// A byte sink backed by a growable vector; gaps are zero-filled.
pub struct MemoryWriter {
    data: Vec<u8>,
}

impl MemoryWriter {
    /// An empty sink.
    pub fn new() -> (w: MemoryWriter)
        ensures
            w.inv(),
            w.contents() == Seq::<u8>::empty(),
    {
        MemoryWriter { data: Vec::new() }
    }

    /// The bytes written so far.
    pub fn bytes(&self) -> (r: &Vec<u8>)
        ensures
            r@ == self.contents(),
    {
        &self.data
    }

    /// Consumes the sink and returns the bytes written so far.
    pub fn into_vec(self) -> (r: Vec<u8>)
        ensures
            r@ == self.contents(),
    {
        self.data
    }
}

impl AsyncWriter for MemoryWriter {
    type WriteError = ();

    closed spec fn inv(&self) -> bool {
        true
    }

    closed spec fn contents(&self) -> Seq<u8> {
        self.data@
    }

    fn atomic_write(&mut self, position: u64, data: &[u8]) -> (r: Result<(), ()>) {
        let data_len: usize = data.len();
        if data_len == 0 {
            return Ok(());
        }
        if position > usize::MAX as u64 || data_len as u64 > u64::MAX - position {
            return Err(());
        }
        let end64: u64 = position + data_len as u64;
        if end64 > usize::MAX as u64 {
            return Err(());
        }
        let pos: usize = position as usize;
        let end: usize = end64 as usize;
        while self.data.len() < end
            invariant
                end <= usize::MAX,
                self.data@.len() >= old(self).data@.len(),
                self.data@.len() <= (if end > old(self).data@.len() {
                    end as int
                } else {
                    old(self).data@.len() as int
                }),
                forall|i: int|
                    0 <= i < self.data@.len() ==> self.data@[i] == (if i < old(self).data@.len() {
                        old(self).data@[i]
                    } else {
                        0u8
                    }),
            decreases end - self.data.len(),
        {
            self.data.push(0u8);
        }
        let mut i: usize = 0;
        while i < data_len
            invariant
                data_len == data@.len(),
                pos + data_len <= self.data@.len() <= usize::MAX,
                i <= data_len,
                self.data@.len() == (if pos + data_len > old(self).data@.len() {
                    pos + data_len
                } else {
                    old(self).data@.len() as int
                }),
                forall|j: int|
                    0 <= j < self.data@.len() ==> self.data@[j] == (if pos <= j < pos + i {
                        data@[j - pos]
                    } else if j < old(self).data@.len() {
                        old(self).data@[j]
                    } else {
                        0u8
                    }),
            decreases data_len - i,
        {
            self.data.set(pos + i, *vstd::slice::slice_index_get(data, i));
            i = i + 1;
        }
        proof {
            assert(self.data@ =~= write_at(old(self).data@, position as int, data@));
        }
        Ok(())
    }
}

/// A byte source backed by a vector.
pub struct MemoryReader {
    data: Vec<u8>,
}

impl MemoryReader {
    /// A source over the given bytes.
    pub fn new(data: Vec<u8>) -> (r: MemoryReader)
        ensures
            r.inv(),
            r.data() == data@,
    {
        MemoryReader { data }
    }
}

impl Read for MemoryReader {
    type ReadError = ();

    closed spec fn inv(&self) -> bool {
        true
    }

    closed spec fn data(&self) -> Seq<u8> {
        self.data@
    }

    fn size(&mut self) -> (r: Result<u64, ()>) {
        Ok(self.data.len() as u64)
    }

    fn read(&mut self, pos: u64, buf: &mut Vec<u8>) -> (r: Result<(), ()>) {
        let n: usize = buf.len();
        if pos > usize::MAX as u64 || n as u64 > u64::MAX - pos {
            return Err(());
        }
        if pos + n as u64 > self.data.len() as u64 {
            return Err(());
        }
        let start: usize = pos as usize;
        let out = bytes::subvec(self.data.as_slice(), start, start + n);
        *buf = out;
        Ok(())
    }
}

/// A sector source backed by a vector.
pub struct MemorySectorReader {
    data: Vec<u8>,
}

impl MemorySectorReader {
    /// A source over the given bytes.
    pub fn new(data: Vec<u8>) -> (r: MemorySectorReader)
        ensures
            r.inv(),
            r.data() == data@,
    {
        MemorySectorReader { data }
    }
}

impl SectorReader for MemorySectorReader {
    type ReadError = ();

    closed spec fn inv(&self) -> bool {
        true
    }

    closed spec fn data(&self) -> Seq<u8> {
        self.data@
    }

    fn size(&mut self) -> (r: Result<u64, ()>) {
        Ok(self.data.len() as u64)
    }

    fn read_sector(&mut self, sector: usize, sector_size: u32) -> (r: Result<Vec<u8>, ()>) {
        let size: usize = sector_size as usize;
        if size == 0 {
            proof {
                assert((sector + 1) * sector_size == 0) by (nonlinear_arith)
                    requires
                        sector_size == 0,
                ;
                assert(self.data@.subrange(0, 0) =~= Seq::<u8>::empty());
            }
            return Ok(Vec::new());
        }
        if sector > (usize::MAX - size) / size {
            return Err(());
        }
        proof {
            assert(sector * size + size <= usize::MAX) by (nonlinear_arith)
                requires
                    size >= 1 && sector as int <= (usize::MAX - size) as int / size as int,
            ;
        }
        let start: usize = sector * size;
        if start + size > self.data.len() {
            return Err(());
        }
        proof {
            assert((sector + 1) * sector_size == sector * sector_size + sector_size)
                by (nonlinear_arith);
        }
        Ok(bytes::subvec(self.data.as_slice(), start, start + size))
    }
}

/// A filesystem that keeps every created sink in memory and collects the
/// sinks handed back to `close`, in order.
pub struct MemoryFilesystem {
    names: Vec<Vec<u8>>,
    closed: Vec<MemoryWriter>,
}

impl MemoryFilesystem {
    /// An empty filesystem.
    pub fn new() -> (fs: MemoryFilesystem)
        ensures
            fs.inv(),
    {
        MemoryFilesystem { names: Vec::new(), closed: Vec::new() }
    }

    /// Names passed to `create_file`, in creation order.
    pub fn names(&self) -> (r: &Vec<Vec<u8>>)
        ensures
            r@.len() == self.created().len(),
            forall|i: int| 0 <= i < r@.len() ==> (#[trigger] r@[i])@ == self.created()[i],
    {
        &self.names
    }

    /// Sinks handed to `close`, in closing order.
    pub fn closed(&self) -> (r: &Vec<MemoryWriter>)
        ensures
            r@.len() == self.released().len(),
            forall|i: int| 0 <= i < r@.len() ==> (#[trigger] r@[i]).contents() == self.released()[i],
    {
        &self.closed
    }

    /// Consumes the filesystem and returns the closed sinks in closing order.
    pub fn into_closed(self) -> (r: Vec<MemoryWriter>)
        ensures
            r@.len() == self.released().len(),
            forall|i: int| 0 <= i < r@.len() ==> (#[trigger] r@[i]).contents() == self.released()[i],
    {
        self.closed
    }
}

impl SplitFilesystem<MemoryWriter> for MemoryFilesystem {
    closed spec fn inv(&self) -> bool {
        true
    }

    closed spec fn created(&self) -> Seq<Seq<u8>> {
        Seq::new(self.names@.len(), |i: int| self.names@[i]@)
    }

    closed spec fn released(&self) -> Seq<Seq<u8>> {
        Seq::new(self.closed@.len(), |i: int| self.closed@[i].contents())
    }

    fn create_file(&mut self, name: &Vec<u8>) -> (r: Result<MemoryWriter, ()>) {
        self.names.push(bytes::subvec(name.as_slice(), 0, name.len()));
        proof {
            assert(name@.subrange(0, name@.len() as int) =~= name@);
            assert(self.created() =~= old(self).created().push(name@));
        }
        Ok(MemoryWriter::new())
    }

    fn close(&mut self, file: MemoryWriter) {
        let ghost c = file.contents();
        self.closed.push(file);
        proof {
            assert(self.released() =~= old(self).released().push(c));
        }
    }
}

} // verus!
