use vstd::prelude::*;

pub mod cache;
pub mod codec;
pub mod channel;
pub mod error;
pub mod header;
pub mod table;
pub mod ipc;

pub use crate::channel::FetchResult;
pub use crate::error::{ChannelError, CreateError, HeaderError, MemError};
pub use crate::header::Header;
pub use crate::ipc::{Consumer, Producer, RtIpc};

use crate::cache::{align_up, cacheline_aligned};
use crate::channel::INDEX_MASK;

verus! {

/// Smallest number of message slots in a channel.
pub const MIN_MSGS: usize = 3;

/// Size in bytes of an index word.
pub const INDEX_SIZE: usize = 4;

/// Parameters of one channel: slots beyond `MIN_MSGS`, and the message size in bytes.
#[derive(Debug, Clone, Copy, PartialEq, Eq, Structural)]
pub struct ChannelParam {
    pub add_msgs: usize,
    pub msg_size: usize,
}

impl ChannelParam {
    /// Number of message slots.
    pub open spec fn num_msgs(self) -> int {
        MIN_MSGS + self.add_msgs
    }

    /// Bytes of one slot: the message size rounded up to the cache line.
    pub open spec fn slot_size_spec(self, cls: usize) -> int {
        align_up(self.msg_size as int, cls as int)
    }

    /// Bytes of the slots.
    pub open spec fn data_size_spec(self, cls: usize) -> int {
        self.num_msgs() * self.slot_size_spec(cls)
    }

    /// Bytes of the index words (head, tail, one link per slot), rounded up to the cache line.
    pub open spec fn queue_size_spec(self, cls: usize) -> int {
        align_up((2 + self.num_msgs()) * INDEX_SIZE, cls as int)
    }

    /// Bytes of the whole channel.
    pub open spec fn size_spec(self, cls: usize) -> int {
        self.queue_size_spec(cls) + self.data_size_spec(cls)
    }

    /// Whether the channel can be laid out with cache-line size `cls`: a message size that is
    /// positive and fits a table word, a slot count that fits an index, and sizes that fit `usize`.
    pub open spec fn valid(self, cls: usize) -> bool {
        &&& cls > 0
        &&& 0 < self.msg_size <= u32::MAX
        &&& self.add_msgs <= INDEX_MASK - MIN_MSGS
        &&& self.msg_size + cls - 1 <= usize::MAX
        &&& (2 + self.num_msgs()) * INDEX_SIZE + cls - 1 <= usize::MAX
        &&& self.size_spec(cls) <= usize::MAX
    }

    pub proof fn lemma_sizes(self, cls: usize)
        requires
            self.valid(cls),
        ensures
            self.slot_size_spec(cls) >= self.msg_size,
            self.data_size_spec(cls) >= self.slot_size_spec(cls),
            self.queue_size_spec(cls) >= (2 + self.num_msgs()) * INDEX_SIZE,
            self.data_size_spec(cls) <= usize::MAX,
            self.queue_size_spec(cls) <= usize::MAX,
            self.size_spec(cls) > 0,
    {
        let a = cls as int;
        let m = self.msg_size as int;
        let slot = self.slot_size_spec(cls);
        let qq = (m + a - 1) / a;
        assert(qq * a >= m) by (nonlinear_arith)
            requires a > 0, qq == (m + a - 1) / a;
        let n = self.num_msgs();
        assert(n * slot >= slot) by (nonlinear_arith)
            requires n >= 1, slot >= 0;
        let x = (2 + n) * INDEX_SIZE;
        let qx = (x + a - 1) / a;
        assert(qx * a >= x) by (nonlinear_arith)
            requires a > 0, qx == (x + a - 1) / a;
    }

    /// Bytes of one slot.
    pub fn slot_size(&self, cls: usize) -> (r: usize)
        requires
            self.valid(cls),
        ensures
            r == self.slot_size_spec(cls),
    {
        proof { self.lemma_sizes(cls); }
        cacheline_aligned(self.msg_size, cls)
    }

    /// Bytes of the slots: one cache-line-aligned slot per message.
    pub fn data_size(&self, cls: usize) -> (r: usize)
        requires
            self.valid(cls),
        ensures
            r == self.data_size_spec(cls),
    {
        proof { self.lemma_sizes(cls); }
        let n = MIN_MSGS + self.add_msgs;
        n * cacheline_aligned(self.msg_size, cls)
    }

    /// Bytes of the index words, rounded up to the cache line.
    pub fn queue_size(&self, cls: usize) -> (r: usize)
        requires
            self.valid(cls),
        ensures
            r == self.queue_size_spec(cls),
    {
        proof { self.lemma_sizes(cls); }
        let n = 2 + MIN_MSGS + self.add_msgs;
        cacheline_aligned(n * INDEX_SIZE, cls)
    }

    /// Bytes of the whole channel: index words, then slots.
    pub fn size(&self, cls: usize) -> (r: usize)
        requires
            self.valid(cls),
        ensures
            r == self.size_spec(cls),
            r > 0,
    {
        proof { self.lemma_sizes(cls); }
        self.queue_size(cls) + self.data_size(cls)
    }

    /// Offset of slot `idx` from the start of the channel.
    pub fn msg_offset(&self, idx: u32, cls: usize) -> (r: usize)
        requires
            self.valid(cls),
            idx < self.num_msgs(),
        ensures
            r == self.queue_size_spec(cls) + idx * self.slot_size_spec(cls),
            r + self.slot_size_spec(cls) <= self.size_spec(cls),
    {
        proof {
            self.lemma_sizes(cls);
            let n = self.num_msgs();
            let slot = self.slot_size_spec(cls);
            let i = idx as int;
            assert(i * slot + slot <= n * slot) by (nonlinear_arith)
                requires 0 <= i < n, slot >= 0;
        }
        self.queue_size(cls) + idx as usize * self.slot_size(cls)
    }

    /// The channel's size where it is `valid`; `None` otherwise.
    pub fn checked_size(&self, cls: usize) -> (r: Option<usize>)
        ensures
            r.is_some() == self.valid(cls),
            r matches Some(v) ==> v == self.size_spec(cls),
    {
        if cls == 0 || self.msg_size == 0 || self.msg_size > u32::MAX as usize {
            return None;
        }
        if self.add_msgs > INDEX_MASK as usize - MIN_MSGS {
            return None;
        }
        if self.msg_size > usize::MAX - (cls - 1) {
            return None;
        }
        let n = MIN_MSGS + self.add_msgs;
        let words = 2 + n;
        if words > (usize::MAX - (cls - 1)) / INDEX_SIZE {
            proof {
                let w = words as int;
                let b = (usize::MAX - (cls - 1)) as int;
                assert(w * 4 > b) by (nonlinear_arith)
                    requires w > b / 4, b >= 0;
            }
            return None;
        }
        let queue = cacheline_aligned(words * INDEX_SIZE, cls);
        let slot = cacheline_aligned(self.msg_size, cls);
        if n > usize::MAX / slot {
            proof {
                let nn = n as int;
                let ss = slot as int;
                assert(nn * ss > usize::MAX) by (nonlinear_arith)
                    requires nn > (usize::MAX as int) / ss, ss > 0;
            }
            return None;
        }
        proof {
            let nn = n as int;
            let ss = slot as int;
            assert(nn * ss <= usize::MAX) by (nonlinear_arith)
                requires nn <= (usize::MAX as int) / ss, ss > 0;
        }
        let data = n * slot;
        if queue > usize::MAX - data {
            return None;
        }
        Some(queue + data)
    }
}

} // verus!
