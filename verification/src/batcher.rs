//! The write batcher: buffers dirtied blocks, allocates their block
//! numbers from the space map, and hands full batches out for the I/O
//! layer to flush.
//!
//! The superblock is never allocated through this path: block 0 is already
//! held by the superblock when batching starts, and the commit barrier
//! rewrites it in place only after every queued block is durable.

use vstd::prelude::*;
use vstd::bytes::*;
use crate::codec::{push_u32_le, push_u64_le, block_csum, spec_block_csum};
use crate::errors::MetadataError;
use crate::space_map::{SpaceMap, CoreSpaceMap};

verus! {

/// Where the batcher stands between transactions.
#[derive(Clone, Copy, Debug, PartialEq, Eq, Structural)]
pub enum BatcherState {
    /// No transaction open.
    Idle,
    /// Blocks are being queued.
    Building,
    /// A flush was requested; queued blocks are on their way out.
    Flushing,
    /// The transaction's blocks are durable; the superblock may follow.
    Committed,
    /// A write failed: every further operation fails fast.
    Poisoned,
}

/// A block's bytes with the self-reference and checksum spliced in:
/// checksum over bytes 4 onward at offset 0, block number at offset 8.
pub open spec fn spec_patched(data: Seq<u8>, bnr: u64, seed: u32) -> Seq<u8> {
    spec_u32_to_le_bytes(
        spec_block_csum(
            seed,
            data.subrange(4, 8) + spec_u64_to_le_bytes(bnr) + data.subrange(16, 4096),
        ),
    ) + data.subrange(4, 8) + spec_u64_to_le_bytes(bnr) + data.subrange(16, 4096)
}

/// Splices a block's own address and checksum into its bytes.
pub fn patch_block(data: &[u8], bnr: u64, seed: u32) -> (r: Vec<u8>)
    requires
        data@.len() == 4096,
    ensures
        r@ == spec_patched(data@, bnr, seed),
        r@.len() == 4096,
{
    let mut body: Vec<u8> = Vec::new();
    let flags = vstd::slice::slice_subrange(data, 4, 8);
    body.extend_from_slice(flags);
    push_u64_le(&mut body, bnr);
    let rest = vstd::slice::slice_subrange(data, 16, 4096);
    body.extend_from_slice(rest);
    proof {
        lemma_auto_spec_u64_to_from_le_bytes();
        assert(body@ =~= data@.subrange(4, 8) + spec_u64_to_le_bytes(bnr) + data@.subrange(
            16,
            4096,
        ));
    }
    let csum = block_csum(seed, body.as_slice());
    let mut out: Vec<u8> = Vec::new();
    push_u32_le(&mut out, csum);
    out.append(&mut body);
    proof {
        lemma_auto_spec_u32_to_from_le_bytes();
        assert(out@ =~= spec_patched(data@, bnr, seed));
    }
    out
}

/// Buffers prepared blocks and allocates their addresses.
pub struct WriteBatcher {
    sm: CoreSpaceMap,
    batch_size: usize,
    queue: Vec<(u64, Vec<u8>)>,
    state: BatcherState,
}

impl WriteBatcher {
    /// The space map the batcher allocates from.
    pub closed spec fn spec_sm(&self) -> CoreSpaceMap {
        self.sm
    }

    /// The blocks queued and not yet flushed.
    pub closed spec fn spec_queue(&self) -> Seq<(u64, Vec<u8>)> {
        self.queue@
    }

    /// The batcher's place in its transaction lifecycle.
    pub closed spec fn spec_state(&self) -> BatcherState {
        self.state
    }

    /// The flush threshold the batcher was built with.
    pub closed spec fn spec_batch_size(&self) -> usize {
        self.batch_size
    }

    /// Builds an idle batcher over a space map.
    pub fn new(sm: CoreSpaceMap, batch_size: usize) -> (r: WriteBatcher)
        requires
            batch_size >= 1,
        ensures
            r.spec_sm() == sm,
            r.spec_queue() == Seq::<(u64, Vec<u8>)>::empty(),
            r.spec_state() == BatcherState::Idle,
            r.spec_batch_size() == batch_size,
    {
        WriteBatcher { sm, batch_size, queue: Vec::new(), state: BatcherState::Idle }
    }

    /// Queues a prepared block: allocates its address, patches the
    /// self-reference and checksum in, and hands back a full batch when
    /// the queue reaches the batch size.
    ///
    /// A poisoned batcher refuses; an exhausted space map poisons it.
    pub fn write(&mut self, data: &[u8], seed: u32) -> (r: Result<
        (u64, Option<Vec<(u64, Vec<u8>)>>),
        MetadataError,
    >)
        requires
            data@.len() == 4096,
            old(self).spec_sm().sm_view().len() > 0 ==> old(self).spec_sm().sm_view()[0] > 0,
        ensures
            final(self).spec_batch_size() == old(self).spec_batch_size(),
            old(self).spec_state() == BatcherState::Poisoned ==> r == Err::<
                (u64, Option<Vec<(u64, Vec<u8>)>>),
                MetadataError,
            >(MetadataError::Poisoned) && final(self).spec_state() == BatcherState::Poisoned
                && final(self).spec_sm() == old(self).spec_sm(),
            r matches Err(e) ==> final(self).spec_sm().sm_view() == old(self).spec_sm().sm_view(),
            r matches Ok((b, flushed)) ==> {
                &&& old(self).spec_state() != BatcherState::Poisoned
                &&& b != 0
                &&& b < old(self).spec_sm().sm_view().len()
                &&& old(self).spec_sm().sm_view()[b as int] == 0
                &&& (forall|i: int| 0 <= i < b ==> old(self).spec_sm().sm_view()[i] > 0)
                &&& final(self).spec_sm().sm_view() == old(self).spec_sm().sm_view().update(
                    b as int,
                    1u32,
                )
                &&& final(self).spec_state() == BatcherState::Building
                &&& (flushed matches Some(v) ==> {
                    &&& v@.len() == old(self).spec_queue().len() + 1
                    &&& v@.subrange(0, old(self).spec_queue().len() as int)
                        == old(self).spec_queue()
                    &&& v@.last().0 == b
                    &&& v@.last().1@ == spec_patched(data@, b, seed)
                    &&& final(self).spec_queue() == Seq::<(u64, Vec<u8>)>::empty()
                    &&& old(self).spec_queue().len() + 1 >= old(self).spec_batch_size()
                })
                &&& (flushed is None ==> {
                    &&& final(self).spec_queue().len() == old(self).spec_queue().len() + 1
                    &&& final(self).spec_queue().subrange(
                        0,
                        old(self).spec_queue().len() as int,
                    ) == old(self).spec_queue()
                    &&& final(self).spec_queue().last().0 == b
                    &&& final(self).spec_queue().last().1@ == spec_patched(data@, b, seed)
                    &&& old(self).spec_queue().len() + 1 < old(self).spec_batch_size()
                })
            },
            old(self).spec_state() != BatcherState::Poisoned ==> (r matches Err(e) ==> e
                == MetadataError::OutOfSpace && final(self).spec_state()
                == BatcherState::Poisoned && (forall|i: int|
                0 <= i < old(self).spec_sm().sm_view().len() ==> old(
                    self,
                ).spec_sm().sm_view()[i] > 0)),
    {
        match self.state {
            BatcherState::Poisoned => Err(MetadataError::Poisoned),
            _ => {
                match self.sm.allocate() {
                    Ok(b) => {
                        let block = patch_block(data, b, seed);
                        self.queue.push((b, block));
                        self.state = BatcherState::Building;
                        if self.queue.len() >= self.batch_size {
                            let out = self.queue.split_off(0);
                            proof {
                                assert(out@.subrange(0, out@.len() - 1)
                                    =~= old(self).spec_queue());
                            }
                            Ok((b, Some(out)))
                        } else {
                            proof {
                                assert(self.spec_queue().subrange(
                                    0,
                                    self.spec_queue().len() - 1,
                                ) =~= old(self).spec_queue());
                            }
                            Ok((b, None))
                        }
                    },
                    Err(_) => {
                        self.state = BatcherState::Poisoned;
                        Err(MetadataError::OutOfSpace)
                    },
                }
            },
        }
    }

    /// Hands out whatever is queued and marks the batch in flight.
    pub fn flush(&mut self) -> (r: Result<Vec<(u64, Vec<u8>)>, MetadataError>)
        ensures
            old(self).spec_state() == BatcherState::Poisoned ==> r == Err::<
                Vec<(u64, Vec<u8>)>,
                MetadataError,
            >(MetadataError::Poisoned),
            old(self).spec_state() != BatcherState::Poisoned ==> (r matches Ok(v)
                && v@ == old(self).spec_queue()
                && final(self).spec_queue() == Seq::<(u64, Vec<u8>)>::empty()
                && final(self).spec_state() == BatcherState::Flushing),
    {
        match self.state {
            BatcherState::Poisoned => Err(MetadataError::Poisoned),
            _ => {
                let out = self.queue.split_off(0);
                self.state = BatcherState::Flushing;
                proof {
                    assert(out@ =~= old(self).spec_queue());
                    assert(self.spec_queue() =~= Seq::<(u64, Vec<u8>)>::empty());
                }
                Ok(out)
            },
        }
    }

    /// The I/O layer reports the flushed batch durable: the superblock
    /// may now be rewritten, which publishes the transaction.
    pub fn complete_commit(&mut self)
        requires
            old(self).spec_state() == BatcherState::Flushing,
        ensures
            final(self).spec_state() == BatcherState::Committed,
            final(self).spec_queue() == old(self).spec_queue(),
            final(self).spec_sm() == old(self).spec_sm(),
    {
        self.state = BatcherState::Committed;
    }

    /// The I/O layer reports a write failure: the batch is abandoned, the
    /// on-disk superblock still describes the pre-commit view, and every
    /// later operation fails fast.
    pub fn fail(&mut self)
        ensures
            final(self).spec_state() == BatcherState::Poisoned,
    {
        self.state = BatcherState::Poisoned;
    }
}

} // verus!
