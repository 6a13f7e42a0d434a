use vstd::prelude::*;

verus! {

use crate::convert::{bytes_data, bytes_from_vec};
use crate::errors::Error;
use crate::missing::MissingSegment;
use crate::model::{put_model, PutOutcome, QuiltModel};
use crate::quilt::BytesQuilt;

/// A byte buffer that tracks the locations of random-access writes, kept
/// under the structure's earlier method names: the same ledger and live
/// tail as `BytesQuilt`, assembling into an immutable `bytes::Bytes`.
pub struct OutOfOrderBytes {
    quilt: BytesQuilt,
}

impl View for OutOfOrderBytes {
    type V = QuiltModel;

    closed spec fn view(&self) -> QuiltModel {
        self.quilt@
    }
}

impl OutOfOrderBytes {
    /// Creates a new `OutOfOrderBytes` whose tail starts with the given
    /// capacity. The capacity is a performance hint only: it never
    /// constrains which writes are accepted.
    pub fn with_capacity(capacity: usize) -> (r: Self)
        ensures
            r@ == QuiltModel::empty(),
            r@.wf(),
    {
        OutOfOrderBytes { quilt: BytesQuilt::with_capacity(capacity) }
    }

    /// Transfer bytes into `self` from `bytes` at `offset`, exactly as
    /// `BytesQuilt::put_at` does.
    pub fn insert_at_offset(&mut self, offset: usize, bytes: &[u8]) -> (r: Result<
        Option<MissingSegment>,
        Error,
    >)
        requires
            old(self)@.wf(),
            offset + bytes@.len() <= usize::MAX,
            old(self)@.end() + bytes@.len() <= usize::MAX,
        ensures
            final(self)@ == put_model(old(self)@, offset as int, bytes@).0,
            final(self)@.wf(),
            match put_model(old(self)@, offset as int, bytes@).1 {
                PutOutcome::Stored => r == Ok::<Option<MissingSegment>, Error>(None),
                PutOutcome::GapOpened { start, size } => (r matches Ok(Some(ms)) && ms.offset
                    as int == start && ms.length as int == size),
                PutOutcome::Refused { reason } => r == Err::<Option<MissingSegment>, Error>(
                    reason,
                ),
            },
    {
        self.quilt.put_at(offset, bytes)
    }

    /// One `MissingSegment` per gap currently recorded, in ascending
    /// offset order.
    pub fn missing_segments(&self) -> (r: Vec<MissingSegment>)
        requires
            self@.wf(),
        ensures
            r@.len() == self@.missing_list().len(),
            forall|j: int| 0 <= j < r@.len() ==> {
                &&& (#[trigger] r@[j]).offset as int == self@.missing_list()[j].0
                &&& r@[j].length as int == self@.missing_list()[j].1
                &&& r@[j].wf()
            },
    {
        self.quilt.missing_segments()
    }

    /// Reassemble the stream and return it as one `bytes::Bytes`,
    /// consuming the buffer.
    ///
    /// Every gap must have been filled before this is called: assembling
    /// with an outstanding gap is a contract violation, so the gap-free
    /// state is a precondition here rather than a checked error.
    pub fn into_bytes(self) -> (r: bytes::Bytes)
        requires
            self@.wf(),
            self@.complete(),
        ensures
            bytes_data(r) == self@.assembled(),
    {
        let out = self.quilt.assemble();
        bytes_from_vec(out)
    }
}

} // verus!
