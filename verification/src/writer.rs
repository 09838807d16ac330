//! The persistent-writer contract and two in-memory implementations.
//!
//! `apply` talks to the medium through [`NvramWriter`].  The trait carries
//! an abstract log of the operations a writer has received, so contracts
//! can state exactly which writes and erases an `apply` performs.

use vstd::prelude::*;

verus! {
/// `std::io::Error`, declared so signatures of this crate can carry it.
#[verifier::external_type_specification]
#[verifier::external_body]
pub struct ExIoError(std::io::Error);

/// One operation received by a writer, as contracts see it.
pub enum MediumOp {
    Write { offset: u32, data: Seq<u8> },
    Erase { offset: u32, len: usize },
}

/// A byte-addressed sink for whole banks, with an erase hint for flash
/// media.  The core never emits unaligned writes: offsets are `0` (v1/v2)
/// or multiples of `0x10000` (v3).
pub trait NvramWriter {
    /// The operations this writer has received so far, oldest first.
    spec fn log(&self) -> Seq<MediumOp>;

    /// Writes `buf` at byte offset `offset`.
    fn write_all(&mut self, offset: u32, buf: &[u8]) -> (r: Result<(), std::io::Error>)
        ensures
            final(self).log() == old(self).log().push(
                MediumOp::Write { offset, data: buf@ },
            ),
    ;

    /// Requests an erase of `len` bytes at `offset`; a no-op on media that
    /// need none.
    fn erase_if_needed(&mut self, offset: u32, len: usize)
        ensures
            final(self).log() == old(self).log().push(MediumOp::Erase { offset, len }),
    ;
}

/// An in-memory medium with NOR-flash semantics: writing can only clear
/// bits, and erasing sets a region back to all `0xFF`.
pub struct MemWriter {
    pub data: Vec<u8>,
    pub erase_count: usize,
    pub history: Ghost<Seq<MediumOp>>,
}

impl MemWriter {
    /// A medium holding `data`, with an empty operation log.
    pub fn new(data: Vec<u8>) -> (r: MemWriter)
        ensures
            r.data@ == data@,
            r.erase_count == 0,
            r.log() == Seq::<MediumOp>::empty(),
    {
        MemWriter { data, erase_count: 0, history: Ghost(Seq::empty()) }
    }

    /// The current contents of the medium.
    pub fn get_data(&self) -> (r: &Vec<u8>)
        ensures
            r@ == self.data@,
    {
        &self.data
    }

    /// How many erase operations the medium has received.
    pub fn get_erase_count(&self) -> (r: usize)
        ensures
            r == self.erase_count,
    {
        self.erase_count
    }
}

impl NvramWriter for MemWriter {
    open spec fn log(&self) -> Seq<MediumOp> {
        self.history@
    }

    fn write_all(&mut self, offset: u32, buf: &[u8]) -> (r: Result<(), std::io::Error>) {
        let mut i: usize = 0;
        while i < buf.len()
            invariant
                self.data@.len() == old(self).data@.len(),
                self.erase_count == old(self).erase_count,
                self.history == old(self).history,
            decreases buf@.len() - i,
        {
            let off = offset as usize;
            if off < self.data.len() && i < self.data.len() - off {
                let pos = off + i;
                let merged = self.data[pos] & buf[i];
                *vstd::std_specs::vec::vec_index_mut(&mut self.data, pos) = merged;
            }
            i = i + 1;
        }
        proof {
            self.history@ = self.history@.push(MediumOp::Write { offset, data: buf@ });
        }
        Ok(())
    }

    fn erase_if_needed(&mut self, offset: u32, len: usize) {
        let mut i: usize = 0;
        while i < len
            invariant
                self.data@.len() == old(self).data@.len(),
                self.erase_count == old(self).erase_count,
                self.history == old(self).history,
            decreases len - i,
        {
            let off = offset as usize;
            if off < self.data.len() && i < self.data.len() - off {
                let pos = off + i;
                *vstd::std_specs::vec::vec_index_mut(&mut self.data, pos) = 0xFF;
            }
            i = i + 1;
        }
        if self.erase_count < usize::MAX {
            self.erase_count = self.erase_count + 1;
        }
        proof {
            self.history@ = self.history@.push(MediumOp::Erase { offset, len });
        }
    }
}

/// One recorded writer operation, with owned bytes, for replay against a
/// real device outside this library.
pub enum WriteOp {
    Write(u32, Vec<u8>),
    Erase(u32, usize),
}

/// How a recorded operation reads in contracts.
pub open spec fn write_op_view(op: WriteOp) -> MediumOp {
    match op {
        WriteOp::Write(offset, data) => MediumOp::Write { offset, data: data@ },
        WriteOp::Erase(offset, len) => MediumOp::Erase { offset, len },
    }
}

/// A writer that performs nothing and records every operation, so a caller
/// can replay them against a device.
pub struct WriteLog {
    pub ops: Vec<WriteOp>,
}

impl WriteLog {
    /// An empty recording.
    pub fn new() -> (r: WriteLog)
        ensures
            r.log() == Seq::<MediumOp>::empty(),
            r.ops@.len() == 0,
    {
        let r = WriteLog { ops: Vec::new() };
        proof {
            assert(r.log() =~= Seq::<MediumOp>::empty());
        }
        r
    }
}

impl NvramWriter for WriteLog {
    open spec fn log(&self) -> Seq<MediumOp> {
        self.ops@.map(|i: int, op: WriteOp| write_op_view(op))
    }

    fn write_all(&mut self, offset: u32, buf: &[u8]) -> (r: Result<(), std::io::Error>) {
        self.ops.push(WriteOp::Write(offset, vstd::slice::slice_to_vec(buf)));
        proof {
            assert(self.log() =~= old(self).log().push(
                MediumOp::Write { offset, data: buf@ },
            ));
        }
        Ok(())
    }

    fn erase_if_needed(&mut self, offset: u32, len: usize) {
        self.ops.push(WriteOp::Erase(offset, len));
        proof {
            assert(self.log() =~= old(self).log().push(MediumOp::Erase { offset, len }));
        }
    }
}

} // verus!
