//! Reading the target back: what the gap-filling pass and the verify pass share.

use crate::copier;
use crate::copier::Outcome;
use crate::hash;
use crate::hash::Digester;
use vstd::prelude::*;

verus! {

/// What the driver of a read-back pass is to do next.
#[derive(Debug, Clone, Copy, PartialEq, Eq, Structural)]
pub enum ReadAction {
    /// Nothing but to start the pass.
    Begin,
    /// Read `length` bytes of the target at `offset`.
    ReadTarget { offset: u64, length: u64 },
    /// Save the state file.
    Save,
    /// The pass is over.
    Stop(Outcome),
}

/// What came of a [`ReadAction`].
pub enum ReadReply {
    /// The pass can start, or the state is saved.
    Done,
    /// The target gave these bytes; none at all is its end.
    Data(Vec<u8>),
    /// The action failed and the pass cannot go on.
    Failed,
}

/// A [`ReadReply`] as a value of the model.
pub enum ReadReplyModel {
    Done,
    Data(Seq<u8>),
    Failed,
}

impl View for ReadReply {
    type V = ReadReplyModel;

    open spec fn view(&self) -> ReadReplyModel {
        match self {
            ReadReply::Done => ReadReplyModel::Done,
            ReadReply::Data(data) => ReadReplyModel::Data(data@),
            ReadReply::Failed => ReadReplyModel::Failed,
        }
    }
}

/// A range of the domain being read back, and the bytes read of it so far.
#[verifier::ext_equal]
pub struct RangeModel {
    pub start: int,
    pub length: int,
    pub bytes: Seq<u8>,
}

impl RangeModel {
    pub open spec fn open(start: int, length: int) -> RangeModel {
        RangeModel { start, length, bytes: Seq::empty() }
    }

    /// How many bytes the next read is for.
    pub open spec fn want(self, transfer: int) -> int {
        copier::min(transfer, self.length - self.bytes.len())
    }

    /// The bytes of a reply that count.
    pub open spec fn used(self, transfer: int, data: Seq<u8>) -> Seq<u8> {
        data.take(copier::min(data.len() as int, self.want(transfer)))
    }

    pub open spec fn with(self, more: Seq<u8>) -> RangeModel {
        RangeModel { bytes: self.bytes + more, ..self }
    }

    pub open spec fn is_through(self) -> bool {
        self.bytes.len() >= self.length
    }

    pub open spec fn wf(self) -> bool {
        &&& 0 <= self.start
        &&& self.bytes.len() < self.length
        &&& self.start + self.length <= u64::MAX
    }
}

/// A range of the domain being read back and hashed.
pub struct Range {
    start: u64,
    length: u64,
    pos: u64,
    digester: Digester,
}

impl View for Range {
    type V = RangeModel;

    closed spec fn view(&self) -> RangeModel {
        RangeModel {
            start: self.start as int,
            length: self.length as int,
            bytes: self.digester@,
        }
    }
}

impl Range {
    pub closed spec fn wf(&self) -> bool {
        &&& self.pos == self.digester@.len()
        &&& self.pos <= self.length
        &&& self.start + self.length <= u64::MAX
    }

    pub proof fn lemma_wf(&self)
        requires
            self.wf(),
        ensures
            0 <= self@.start,
            self@.bytes.len() <= self@.length,
            self@.start + self@.length <= u64::MAX,
    {
    }

    pub fn open(start: u64, length: u64) -> (r: Self)
        requires
            start + length <= u64::MAX,
        ensures
            r.wf(),
            r@ == RangeModel::open(start as int, length as int),
    {
        Range { start, length, pos: 0, digester: Digester::new() }
    }

    /// The position of the next byte.
    pub fn next_pos(&self) -> (r: u64)
        requires
            self.wf(),
        ensures
            r == self@.start + self@.bytes.len(),
    {
        self.start + self.pos
    }

    /// How many bytes the next read is for.
    pub fn want(&self, transfer: u64) -> (r: u64)
        requires
            self.wf(),
        ensures
            r == self@.want(transfer as int),
    {
        let left = self.length - self.pos;
        if transfer < left {
            transfer
        } else {
            left
        }
    }

    /// Take in the bytes of a reply, as far as they count. Returns how many did.
    pub fn take(&mut self, transfer: u64, data: &[u8]) -> (r: u64)
        requires
            old(self).wf(),
        ensures
            final(self).wf(),
            final(self)@ == old(self)@.with(old(self)@.used(transfer as int, data@)),
            r == old(self)@.used(transfer as int, data@).len(),
    {
        let want = self.want(transfer);
        let n = if want < data.len() as u64 { want } else { data.len() as u64 };
        let piece = &data[0..n as usize];
        proof {
            assert(piece@ =~= self@.used(transfer as int, data@));
        }
        self.digester.update(piece);
        self.pos = self.pos + n;
        n
    }

    /// Whether every byte has been read.
    pub fn is_through(&self) -> (r: bool)
        requires
            self.wf(),
        ensures
            r == self@.is_through(),
    {
        self.pos >= self.length
    }

    /// The digest of the bytes read.
    pub fn finish(self) -> (r: String)
        ensures
            r@ == hash::blake3_hex(self@.bytes),
            r@.len() == 64,
    {
        self.digester.finish()
    }
}

/// The bytes the target holds of `[start, start + length)`.
pub open spec fn target_bytes(target: spec_fn(int) -> u8, start: int, length: int) -> Seq<u8> {
    Seq::new(length as nat, |i: int| target(start + i))
}

} // verus!
