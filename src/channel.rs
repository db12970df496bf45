use vstd::prelude::*;
use std::sync::atomic::{AtomicU32, Ordering};

use crate::error::MemError;
use crate::{ChannelParam, MIN_MSGS};

verus! {

/// Index value meaning "no slot": an empty ring, or the end of the chain.
pub const INVALID_INDEX: u32 = 0xFFFF_FFFF;

/// Bit that the consumer sets in the tail while it holds the tail slot.
pub const CONSUMED_FLAG: u32 = 0x8000_0000;

/// Bits of the tail that carry the slot index.
pub const INDEX_MASK: u32 = 0x7FFF_FFFF;

/// Word of the index block that holds the head.
pub const HEAD_WORD: usize = 0;

/// Word of the index block that holds the tail.
pub const TAIL_WORD: usize = 1;

/// Word of the index block that holds the link of slot 0; the link of slot `i` follows at `i`.
pub const QUEUE_WORD: usize = 2;

/// The index words of one channel: head, tail, then one link per slot.
///
/// When the memory is held exclusively, every operation acts on `words()` as a plain sequence.
/// When it is shared with a peer, nothing is known of the values read, but the number of words
/// never changes.
pub trait IndexMemory {
    spec fn words(&self) -> Seq<u32>;

    spec fn exclusive(&self) -> bool;

    fn num_words(&self) -> (r: usize)
        ensures
            r == self.words().len(),
    ;

    fn load(&self, i: usize) -> (r: u32)
        requires
            i < self.words().len(),
        ensures
            self.exclusive() ==> r == self.words()[i as int],
    ;

    fn store(&mut self, i: usize, v: u32)
        requires
            i < old(self).words().len(),
        ensures
            final(self).words().len() == old(self).words().len(),
            final(self).exclusive() == old(self).exclusive(),
            old(self).exclusive() ==> final(self).words() == old(self).words().update(i as int, v),
    ;

    fn fetch_or(&mut self, i: usize, v: u32) -> (r: u32)
        requires
            i < old(self).words().len(),
        ensures
            final(self).words().len() == old(self).words().len(),
            final(self).exclusive() == old(self).exclusive(),
            old(self).exclusive() ==> r == old(self).words()[i as int],
            old(self).exclusive() ==> final(self).words() == old(self).words().update(
                i as int,
                r | v,
            ),
    ;

    fn compare_exchange(&mut self, i: usize, current: u32, new: u32) -> (r: bool)
        requires
            i < old(self).words().len(),
        ensures
            final(self).words().len() == old(self).words().len(),
            final(self).exclusive() == old(self).exclusive(),
            old(self).exclusive() ==> r == (old(self).words()[i as int] == current),
            old(self).exclusive() ==> final(self).words() == (if r {
                old(self).words().update(i as int, new)
            } else {
                old(self).words()
            }),
    ;
}

/// Index words held by one owner: each operation acts on the sequence exactly.
pub struct LocalIndices {
    pub cells: Vec<u32>,
}

impl IndexMemory for LocalIndices {
    open spec fn words(&self) -> Seq<u32> {
        self.cells@
    }

    open spec fn exclusive(&self) -> bool {
        true
    }

    fn num_words(&self) -> (r: usize) {
        self.cells.len()
    }

    fn load(&self, i: usize) -> (r: u32) {
        self.cells[i]
    }

    fn store(&mut self, i: usize, v: u32) {
        self.cells.set(i, v);
    }

    fn fetch_or(&mut self, i: usize, v: u32) -> (r: u32) {
        let r = self.cells[i];
        self.cells.set(i, r | v);
        r
    }

    fn compare_exchange(&mut self, i: usize, current: u32, new: u32) -> (r: bool) {
        if self.cells[i] == current {
            self.cells.set(i, new);
            true
        } else {
            false
        }
    }
}

/// Index words in memory shared with a peer, accessed with sequentially consistent atomics.
pub struct SharedIndices<'a> {
    pub cells: &'a [AtomicU32],
}

impl<'a> IndexMemory for SharedIndices<'a> {
    open spec fn words(&self) -> Seq<u32> {
        Seq::new(self.cells@.len(), |i: int| 0u32)
    }

    open spec fn exclusive(&self) -> bool {
        false
    }

    fn num_words(&self) -> (r: usize) {
        self.cells.len()
    }

    fn load(&self, i: usize) -> (r: u32) {
        self.cells[i].load(Ordering::SeqCst)
    }

    fn store(&mut self, i: usize, v: u32) {
        self.cells[i].store(v, Ordering::SeqCst);
    }

    fn fetch_or(&mut self, i: usize, v: u32) -> (r: u32) {
        self.cells[i].fetch_or(v, Ordering::SeqCst)
    }

    fn compare_exchange(&mut self, i: usize, current: u32, new: u32) -> (r: bool) {
        self.cells[i].compare_exchange(current, new, Ordering::SeqCst, Ordering::SeqCst).is_ok()
    }
}


/// Outcome of a consumer's fetch.
#[derive(Debug, Clone, Copy, PartialEq, Eq, Structural)]
pub enum FetchResult {
    /// Nothing was ever published.
    Empty,
    /// No message newer than the one held.
    Same,
    /// The consumer moved to another message.
    New,
}

/// Local state of a producer: the last slot it published, the slot it writes, and a slot taken
/// back from the consumer that waits to be released.
#[derive(Debug, Clone, Copy, PartialEq, Eq, Structural)]
pub struct ProducerState {
    pub head: u32,
    pub current: u32,
    pub overrun: u32,
}

/// Local state of a consumer: the slot it reads.
#[derive(Debug, Clone, Copy, PartialEq, Eq, Structural)]
pub struct ConsumerState {
    pub current: u32,
}

/// Word index of the link of slot `i`.
pub open spec fn link_word(i: u32) -> int {
    QUEUE_WORD + i
}

/// The link of slot `i`, or `INVALID_INDEX` where `i` is no slot of a ring of `n`.
pub open spec fn link_of(w: Seq<u32>, n: u32, i: u32) -> u32 {
    if i < n {
        w[link_word(i)]
    } else {
        INVALID_INDEX
    }
}

/// Slot `v` where it is a slot of a ring of `n`; else `keep`.
pub open spec fn adopt(n: u32, keep: u32, v: u32) -> u32 {
    if v < n {
        v
    } else {
        keep
    }
}

/// The words after `current` is published behind `head`.
pub open spec fn publish_words(w: Seq<u32>, head: u32, current: u32) -> Seq<u32> {
    let w1 = w.update(link_word(current), INVALID_INDEX);
    let w2 = if head == INVALID_INDEX {
        w1.update(TAIL_WORD as int, current)
    } else {
        w1.update(link_word(head), current)
    };
    w2.update(HEAD_WORD as int, current)
}

/// A compare-and-swap of the tail from `expected` to `new`: whether it took place, and the words
/// after it.
pub open spec fn cas_tail(w: Seq<u32>, expected: u32, new: u32) -> (bool, Seq<u32>) {
    if w[TAIL_WORD as int] == expected {
        (true, w.update(TAIL_WORD as int, new))
    } else {
        (false, w)
    }
}

/// Moving the tail `tail` one link forward.
pub open spec fn move_tail_step(n: u32, w: Seq<u32>, tail: u32) -> (bool, Seq<u32>) {
    cas_tail(w, tail, link_of(w, n, tail & INDEX_MASK))
}

/// Taking the overrun slot back as the producer's slot, linked in front of `next`.
pub open spec fn requeue_step(s: ProducerState, w: Seq<u32>, next: u32) -> (ProducerState, Seq<u32>) {
    (
        ProducerState { head: s.head, current: s.overrun, overrun: INVALID_INDEX },
        w.update(link_word(s.overrun), next),
    )
}

/// Jumping the tail two links past the slot `tail` that the consumer holds.
pub open spec fn overrun_step(n: u32, s: ProducerState, w: Seq<u32>, tail: u32) -> (
    ProducerState,
    Seq<u32>,
    bool,
) {
    let held = tail & INDEX_MASK;
    let new_current = link_of(w, n, held);
    let new_tail = link_of(w, n, new_current);
    let (ok, w1) = cas_tail(w, tail, new_tail);
    if ok {
        (
            ProducerState {
                head: s.head,
                current: adopt(n, s.current, new_current),
                overrun: adopt(n, s.overrun, held),
            },
            w1,
            true,
        )
    } else {
        (ProducerState { head: s.head, current: adopt(n, s.current, held), overrun: s.overrun }, w1, false)
    }
}

/// `force_put` on a ring of `n` slots held exclusively: the new state, the new words, and whether
/// an unread message was discarded.
pub open spec fn force_put_step(n: u32, s: ProducerState, w: Seq<u32>) -> (
    ProducerState,
    Seq<u32>,
    bool,
) {
    let next = link_of(w, n, s.current);
    let w1 = publish_words(w, s.head, s.current);
    let s1 = ProducerState { head: s.current, current: s.current, overrun: s.overrun };
    let tail = w1[TAIL_WORD as int];
    let consumed = tail & CONSUMED_FLAG != 0;
    let full = next == (tail & INDEX_MASK);
    if s.overrun != INVALID_INDEX {
        if consumed {
            let (s2, w2) = requeue_step(s1, w1, next);
            (s2, w2, false)
        } else {
            let (moved, w2) = move_tail_step(n, w1, tail);
            if moved {
                (ProducerState { current: adopt(n, s1.current, tail & INDEX_MASK), ..s1 }, w2, true)
            } else {
                let (s3, w3) = requeue_step(s1, w2, next);
                (s3, w3, false)
            }
        }
    } else if !full {
        (ProducerState { current: adopt(n, s1.current, next), ..s1 }, w1, false)
    } else if !consumed {
        let (moved, w2) = move_tail_step(n, w1, tail);
        if moved {
            (ProducerState { current: adopt(n, s1.current, next), ..s1 }, w2, true)
        } else {
            overrun_step(n, s1, w2, tail | CONSUMED_FLAG)
        }
    } else {
        overrun_step(n, s1, w1, tail)
    }
}

/// `try_put` on a ring of `n` slots held exclusively: the new state, the new words, and whether
/// the message was published.
pub open spec fn try_put_step(n: u32, s: ProducerState, w: Seq<u32>) -> (
    ProducerState,
    Seq<u32>,
    bool,
) {
    let next = link_of(w, n, s.current);
    let tail = w[TAIL_WORD as int];
    let consumed = tail & CONSUMED_FLAG != 0;
    let full = next == (tail & INDEX_MASK);
    let w1 = publish_words(w, s.head, s.current);
    let s1 = ProducerState { head: s.current, current: s.current, overrun: s.overrun };
    if s.overrun != INVALID_INDEX {
        if consumed {
            let (s2, w2) = requeue_step(s1, w1, next);
            (s2, w2, true)
        } else {
            (s, w, false)
        }
    } else if !full {
        (ProducerState { current: adopt(n, s1.current, next), ..s1 }, w1, true)
    } else {
        (s, w, false)
    }
}

/// `fetch_tail` on a ring of `n` slots held exclusively.
pub open spec fn fetch_tail_step(n: u32, s: ConsumerState, w: Seq<u32>) -> (
    ConsumerState,
    Seq<u32>,
    FetchResult,
) {
    let tail = w[TAIL_WORD as int];
    let w1 = w.update(TAIL_WORD as int, tail | CONSUMED_FLAG);
    if tail == INVALID_INDEX {
        (s, w1, FetchResult::Empty)
    } else if tail & CONSUMED_FLAG != 0 {
        let next = link_of(w1, n, s.current);
        if next == INVALID_INDEX {
            (s, w1, FetchResult::Same)
        } else {
            let (ok, w2) = cas_tail(w1, tail, next | CONSUMED_FLAG);
            if ok {
                (ConsumerState { current: adopt(n, s.current, next) }, w2, FetchResult::New)
            } else {
                let t = w2[TAIL_WORD as int];
                (
                    ConsumerState { current: adopt(n, s.current, t) },
                    w2.update(TAIL_WORD as int, t | CONSUMED_FLAG),
                    FetchResult::New,
                )
            }
        }
    } else {
        (ConsumerState { current: adopt(n, s.current, tail) }, w1, FetchResult::New)
    }
}

/// `fetch_head` on a ring of `n` slots held exclusively: the consumer moves to the head.
pub open spec fn fetch_head_step(n: u32, s: ConsumerState, w: Seq<u32>) -> (
    ConsumerState,
    Seq<u32>,
    bool,
) {
    let tail = w[TAIL_WORD as int];
    let w1 = w.update(TAIL_WORD as int, tail | CONSUMED_FLAG);
    if tail == INVALID_INDEX {
        (s, w1, false)
    } else {
        let head = w1[HEAD_WORD as int];
        (
            ConsumerState { current: adopt(n, s.current, head) },
            w1.update(TAIL_WORD as int, head | CONSUMED_FLAG),
            true,
        )
    }
}

/// The index words of a freshly initialised ring of `n` slots: no head, no tail, and each slot
/// linked to the next, the last to the first.
pub open spec fn initial_words(n: u32) -> Seq<u32> {
    Seq::new(
        (QUEUE_WORD + n) as nat,
        |i: int|
            if i < QUEUE_WORD {
                INVALID_INDEX
            } else if i - QUEUE_WORD + 1 < n {
                (i - QUEUE_WORD + 1) as u32
            } else {
                0u32
            },
    )
}


/// Producer half of a channel: the index words it shares with the consumer, the number of
/// slots, the message size, and its local state.
pub struct ProducerChannel<M> {
    pub mem: M,
    pub len: u32,
    pub msg_size: usize,
    pub state: ProducerState,
}

/// Consumer half of a channel.
pub struct ConsumerChannel<M> {
    pub mem: M,
    pub len: u32,
    pub msg_size: usize,
    pub state: ConsumerState,
}

/// Whether `mem` can serve as the index words of a ring with `param`'s number of slots.
pub open spec fn fits_ring<M: IndexMemory>(mem: M, param: ChannelParam) -> bool {
    MIN_MSGS + param.add_msgs <= INDEX_MASK && mem.words().len() == QUEUE_WORD + MIN_MSGS
        + param.add_msgs
}

/// Number of slots for `param`, once `fits_ring` is known.
fn ring_len<M: IndexMemory>(mem: &M, param: &ChannelParam) -> (r: Option<u32>)
    ensures
        r.is_some() == fits_ring(*mem, *param),
        r.is_some() ==> r.unwrap() == MIN_MSGS + param.add_msgs,
{
    if param.add_msgs > INDEX_MASK as usize - MIN_MSGS {
        return None;
    }
    let n = MIN_MSGS + param.add_msgs;
    let words = mem.num_words();
    if words < QUEUE_WORD || words - QUEUE_WORD != n {
        return None;
    }
    Some(n as u32)
}

/// Writes the initial index words of a ring of `n` slots.
fn init_words<M: IndexMemory>(mem: &mut M, n: u32)
    requires
        MIN_MSGS <= n <= INDEX_MASK,
        old(mem).words().len() == QUEUE_WORD + n,
    ensures
        final(mem).words().len() == old(mem).words().len(),
        final(mem).exclusive() == old(mem).exclusive(),
        old(mem).exclusive() ==> final(mem).words() == initial_words(n),
{
    mem.store(TAIL_WORD, INVALID_INDEX);
    mem.store(HEAD_WORD, INVALID_INDEX);
    let last: u32 = n - 1;
    let mut idx: u32 = 0;
    while idx < last
        invariant
            MIN_MSGS <= n <= INDEX_MASK,
            last == n - 1,
            idx <= last,
            mem.words().len() == QUEUE_WORD + n,
            mem.exclusive() == old(mem).exclusive(),
            mem.exclusive() ==> forall|i: int|
                0 <= i < QUEUE_WORD + idx ==> #[trigger] mem.words()[i] == initial_words(n)[i],
        decreases last - idx,
    {
        mem.store(QUEUE_WORD + idx as usize, idx + 1);
        idx = idx + 1;
    }
    mem.store(QUEUE_WORD + last as usize, 0);
    proof {
        if mem.exclusive() {
            assert(mem.words() =~= initial_words(n));
        }
    }
}

impl<M: IndexMemory> ProducerChannel<M> {
    /// The producer's local invariant: its slots are slots of the ring, whose words are all there.
    pub open spec fn wf(&self) -> bool {
        &&& MIN_MSGS <= self.len <= INDEX_MASK
        &&& self.mem.words().len() == QUEUE_WORD + self.len
        &&& self.state.current < self.len
        &&& (self.state.head < self.len || self.state.head == INVALID_INDEX)
        &&& (self.state.overrun < self.len || self.state.overrun == INVALID_INDEX)
    }

    /// A producer over `mem` for a channel with `param`: it writes slot 0 and has published
    /// nothing. Fails with `Size` where `mem` does not hold exactly the ring's index words.
    pub fn new(mem: M, param: &ChannelParam) -> (r: Result<Self, MemError>)
        ensures
            r.is_ok() == fits_ring(mem, *param),
            r.is_err() ==> r == Err::<Self, MemError>(MemError::Size),
            r matches Ok(c) ==> {
                &&& c.wf()
                &&& c.mem == mem
                &&& c.len == MIN_MSGS + param.add_msgs
                &&& c.msg_size == param.msg_size
                &&& c.state == ProducerState { head: INVALID_INDEX, current: 0, overrun: INVALID_INDEX }
            },
    {
        match ring_len(&mem, param) {
            Some(len) => Ok(ProducerChannel {
                mem,
                len,
                msg_size: param.msg_size,
                state: ProducerState { head: INVALID_INDEX, current: 0, overrun: INVALID_INDEX },
            }),
            None => Err(MemError::Size),
        }
    }

    /// Writes the initial index words of the ring.
    pub fn init(&mut self)
        requires
            old(self).wf(),
        ensures
            final(self).wf(),
            final(self).state == old(self).state,
            final(self).len == old(self).len,
            final(self).msg_size == old(self).msg_size,
            final(self).mem.exclusive() == old(self).mem.exclusive(),
            old(self).mem.exclusive() ==> final(self).mem.words() == initial_words(old(self).len),
    {
        init_words(&mut self.mem, self.len);
    }

    /// Size in bytes of a message of this channel.
    pub fn msg_size(&self) -> (r: usize)
        ensures
            r == self.msg_size,
    {
        self.msg_size
    }

    /// The slot the producer writes.
    pub fn current(&self) -> (r: u32)
        requires
            self.wf(),
        ensures
            r == self.state.current,
            r < self.len,
    {
        self.state.current
    }

    fn link(&self, i: u32) -> (r: u32)
        requires
            self.wf(),
        ensures
            self.mem.exclusive() ==> r == link_of(self.mem.words(), self.len, i),
    {
        if i < self.len {
            self.mem.load(QUEUE_WORD + i as usize)
        } else {
            INVALID_INDEX
        }
    }

    /// Publishes the current slot as the new head.
    fn enqueue_msg(&mut self)
        requires
            old(self).wf(),
        ensures
            final(self).wf(),
            final(self).len == old(self).len,
            final(self).msg_size == old(self).msg_size,
            final(self).mem.exclusive() == old(self).mem.exclusive(),
            final(self).state == (ProducerState { head: old(self).state.current, ..old(self).state }),
            old(self).mem.exclusive() ==> final(self).mem.words() == publish_words(
                old(self).mem.words(),
                old(self).state.head,
                old(self).state.current,
            ),
    {
        let cur = self.state.current;
        self.mem.store(QUEUE_WORD + cur as usize, INVALID_INDEX);
        if self.state.head == INVALID_INDEX {
            self.mem.store(TAIL_WORD, cur);
        } else {
            self.mem.store(QUEUE_WORD + self.state.head as usize, cur);
        }
        self.state.head = cur;
        self.mem.store(HEAD_WORD, cur);
    }

    fn move_tail(&mut self, tail: u32) -> (r: bool)
        requires
            old(self).wf(),
        ensures
            final(self).wf(),
            final(self).len == old(self).len,
            final(self).msg_size == old(self).msg_size,
            final(self).state == old(self).state,
            final(self).mem.exclusive() == old(self).mem.exclusive(),
            old(self).mem.exclusive() ==> (r, final(self).mem.words()) == move_tail_step(
                old(self).len,
                old(self).mem.words(),
                tail,
            ),
    {
        let next = self.link(tail & INDEX_MASK);
        self.mem.compare_exchange(TAIL_WORD, tail, next)
    }

    fn requeue_overrun(&mut self, next: u32)
        requires
            old(self).wf(),
            old(self).state.overrun != INVALID_INDEX,
        ensures
            final(self).wf(),
            final(self).len == old(self).len,
            final(self).msg_size == old(self).msg_size,
            final(self).mem.exclusive() == old(self).mem.exclusive(),
            old(self).mem.exclusive() ==> (final(self).state, final(self).mem.words())
                == requeue_step(old(self).state, old(self).mem.words(), next),
            !old(self).mem.exclusive() ==> final(self).state == requeue_step(
                old(self).state,
                old(self).mem.words(),
                next,
            ).0,
    {
        let ov = self.state.overrun;
        self.mem.store(QUEUE_WORD + ov as usize, next);
        self.state.current = ov;
        self.state.overrun = INVALID_INDEX;
    }

    fn adopt(&mut self, v: u32)
        requires
            old(self).wf(),
        ensures
            final(self).wf(),
            final(self).len == old(self).len,
            final(self).msg_size == old(self).msg_size,
            final(self).mem == old(self).mem,
            final(self).state == (ProducerState {
                current: adopt(old(self).len, old(self).state.current, v),
                ..old(self).state
            }),
    {
        if v < self.len {
            self.state.current = v;
        }
    }

    /// Jumps the tail two links past the slot `tail` that the consumer holds.
    fn overrun(&mut self, tail: u32) -> (r: bool)
        requires
            old(self).wf(),
            old(self).state.overrun == INVALID_INDEX,
        ensures
            final(self).wf(),
            final(self).len == old(self).len,
            final(self).msg_size == old(self).msg_size,
            final(self).mem.exclusive() == old(self).mem.exclusive(),
            old(self).mem.exclusive() ==> (final(self).state, final(self).mem.words(), r)
                == overrun_step(old(self).len, old(self).state, old(self).mem.words(), tail),
    {
        let held = tail & INDEX_MASK;
        let new_current = self.link(held);
        let new_tail = self.link(new_current);
        if self.mem.compare_exchange(TAIL_WORD, tail, new_tail) {
            if held < self.len {
                self.state.overrun = held;
            }
            self.adopt(new_current);
            true
        } else {
            self.adopt(held);
            false
        }
    }

    /// Publishes the current slot, discarding the oldest unread message where the ring is full,
    /// and moves to a free slot. Returns whether a message was discarded.
    pub fn force_put(&mut self) -> (r: bool)
        requires
            old(self).wf(),
        ensures
            final(self).wf(),
            final(self).len == old(self).len,
            final(self).msg_size == old(self).msg_size,
            final(self).mem.exclusive() == old(self).mem.exclusive(),
            old(self).mem.exclusive() ==> (final(self).state, final(self).mem.words(), r)
                == force_put_step(old(self).len, old(self).state, old(self).mem.words()),
    {
        let next = self.link(self.state.current);
        self.enqueue_msg();
        let tail = self.mem.load(TAIL_WORD);
        let consumed = tail & CONSUMED_FLAG != 0;
        let full = next == (tail & INDEX_MASK);
        if self.state.overrun != INVALID_INDEX {
            if consumed {
                // the consumer released the slot taken from it: use it again
                self.requeue_overrun(next);
                false
            } else if self.move_tail(tail) {
                // the consumer still holds the overrun slot and the ring is full
                self.adopt(tail & INDEX_MASK);
                true
            } else {
                self.requeue_overrun(next);
                false
            }
        } else if !full {
            self.adopt(next);
            false
        } else if !consumed {
            if self.move_tail(tail) {
                self.adopt(next);
                true
            } else {
                // the consumer took the tail meanwhile
                self.overrun(tail | CONSUMED_FLAG)
            }
        } else {
            self.overrun(tail)
        }
    }

    /// Publishes the current slot only where a free slot is at hand, never discarding.
    /// Returns whether the message was published.
    pub fn try_put(&mut self) -> (r: bool)
        requires
            old(self).wf(),
        ensures
            final(self).wf(),
            final(self).len == old(self).len,
            final(self).msg_size == old(self).msg_size,
            final(self).mem.exclusive() == old(self).mem.exclusive(),
            !r ==> final(self).state == old(self).state,
            old(self).mem.exclusive() ==> (final(self).state, final(self).mem.words(), r)
                == try_put_step(old(self).len, old(self).state, old(self).mem.words()),
    {
        let next = self.link(self.state.current);
        let tail = self.mem.load(TAIL_WORD);
        let consumed = tail & CONSUMED_FLAG != 0;
        let full = next == (tail & INDEX_MASK);
        if self.state.overrun != INVALID_INDEX {
            if consumed {
                self.enqueue_msg();
                self.requeue_overrun(next);
                true
            } else {
                false
            }
        } else if !full {
            self.enqueue_msg();
            self.adopt(next);
            true
        } else {
            false
        }
    }
}


impl<M: IndexMemory> ConsumerChannel<M> {
    /// The consumer's local invariant: its slot is a slot of the ring, whose words are all there.
    pub open spec fn wf(&self) -> bool {
        &&& MIN_MSGS <= self.len <= INDEX_MASK
        &&& self.mem.words().len() == QUEUE_WORD + self.len
        &&& self.state.current < self.len
    }

    /// A consumer over `mem` for a channel with `param`, at slot 0. Fails with `Size` where `mem`
    /// does not hold exactly the ring's index words.
    pub fn new(mem: M, param: &ChannelParam) -> (r: Result<Self, MemError>)
        ensures
            r.is_ok() == fits_ring(mem, *param),
            r.is_err() ==> r == Err::<Self, MemError>(MemError::Size),
            r matches Ok(c) ==> {
                &&& c.wf()
                &&& c.mem == mem
                &&& c.len == MIN_MSGS + param.add_msgs
                &&& c.msg_size == param.msg_size
                &&& c.state == ConsumerState { current: 0 }
            },
    {
        match ring_len(&mem, param) {
            Some(len) => Ok(
                ConsumerChannel { mem, len, msg_size: param.msg_size, state: ConsumerState { current: 0 } },
            ),
            None => Err(MemError::Size),
        }
    }

    /// Writes the initial index words of the ring.
    pub fn init(&mut self)
        requires
            old(self).wf(),
        ensures
            final(self).wf(),
            final(self).state == old(self).state,
            final(self).len == old(self).len,
            final(self).msg_size == old(self).msg_size,
            final(self).mem.exclusive() == old(self).mem.exclusive(),
            old(self).mem.exclusive() ==> final(self).mem.words() == initial_words(old(self).len),
    {
        init_words(&mut self.mem, self.len);
    }

    /// Size in bytes of a message of this channel.
    pub fn msg_size(&self) -> (r: usize)
        ensures
            r == self.msg_size,
    {
        self.msg_size
    }

    /// The slot the consumer reads.
    pub fn current(&self) -> (r: u32)
        requires
            self.wf(),
        ensures
            r == self.state.current,
            r < self.len,
    {
        self.state.current
    }

    fn adopt(&mut self, v: u32)
        requires
            old(self).wf(),
        ensures
            final(self).wf(),
            final(self).len == old(self).len,
            final(self).msg_size == old(self).msg_size,
            final(self).mem == old(self).mem,
            final(self).state == (ConsumerState { current: adopt(old(self).len, old(self).state.current, v) }),
    {
        if v < self.len {
            self.state.current = v;
        }
    }

    /// Moves to the oldest unread message, if any.
    pub fn fetch_tail(&mut self) -> (r: FetchResult)
        requires
            old(self).wf(),
        ensures
            final(self).wf(),
            final(self).len == old(self).len,
            final(self).msg_size == old(self).msg_size,
            final(self).mem.exclusive() == old(self).mem.exclusive(),
            r != FetchResult::New ==> final(self).state == old(self).state,
            old(self).mem.exclusive() ==> (final(self).state, final(self).mem.words(), r)
                == fetch_tail_step(old(self).len, old(self).state, old(self).mem.words()),
    {
        let tail = self.mem.fetch_or(TAIL_WORD, CONSUMED_FLAG);
        if tail == INVALID_INDEX {
            return FetchResult::Empty;
        }
        if tail & CONSUMED_FLAG != 0 {
            let cur = self.state.current;
            let next = self.mem.load(QUEUE_WORD + cur as usize);
            if next == INVALID_INDEX {
                return FetchResult::Same;
            }
            if self.mem.compare_exchange(TAIL_WORD, tail, next | CONSUMED_FLAG) {
                self.adopt(next);
            } else {
                // the producer moved the tail: take where it points
                let moved = self.mem.fetch_or(TAIL_WORD, CONSUMED_FLAG);
                self.adopt(moved);
            }
        } else {
            self.adopt(tail);
        }
        FetchResult::New
    }

    /// Moves to the most recently published message. Returns `false` where nothing was ever
    /// published; where the producer keeps moving the tail, gives up after one attempt per slot.
    pub fn fetch_head(&mut self) -> (r: bool)
        requires
            old(self).wf(),
        ensures
            final(self).wf(),
            final(self).len == old(self).len,
            final(self).msg_size == old(self).msg_size,
            final(self).mem.exclusive() == old(self).mem.exclusive(),
            !r ==> final(self).state == old(self).state,
            old(self).mem.exclusive() ==> (final(self).state, final(self).mem.words(), r)
                == fetch_head_step(old(self).len, old(self).state, old(self).mem.words()),
    {
        let mut attempts: u32 = 0;
        while attempts < self.len
            invariant
                self.wf(),
                self.len == old(self).len,
                self.msg_size == old(self).msg_size,
                self.state == old(self).state,
                self.mem.exclusive() == old(self).mem.exclusive(),
                self.mem.exclusive() ==> attempts == 0 && self.mem.words() == old(self).mem.words(),
            decreases self.len - attempts,
        {
            let tail = self.mem.fetch_or(TAIL_WORD, CONSUMED_FLAG);
            if tail == INVALID_INDEX {
                return false;
            }
            let head = self.mem.load(HEAD_WORD);
            // accept the head only where the producer did not move the tail meanwhile
            if self.mem.compare_exchange(TAIL_WORD, tail | CONSUMED_FLAG, head | CONSUMED_FLAG) {
                self.adopt(head);
                return true;
            }
            attempts = attempts + 1;
        }
        false
    }
}


proof fn lemma_flagged(x: u32)
    requires
        x < INDEX_MASK,
    ensures
        (x | CONSUMED_FLAG) & CONSUMED_FLAG != 0,
        (x | CONSUMED_FLAG) != INVALID_INDEX,
        (x | CONSUMED_FLAG) | CONSUMED_FLAG == x | CONSUMED_FLAG,
        (x | CONSUMED_FLAG) & INDEX_MASK == x,
{
    assert((x | 0x8000_0000u32) & 0x8000_0000u32 != 0) by (bit_vector);
    assert((x | 0x8000_0000u32) != 0xFFFF_FFFFu32) by (bit_vector)
        requires x < 0x7FFF_FFFFu32;
    assert((x | 0x8000_0000u32) | 0x8000_0000u32 == x | 0x8000_0000u32) by (bit_vector);
    assert((x | 0x8000_0000u32) & 0x7FFF_FFFFu32 == x) by (bit_vector)
        requires x < 0x7FFF_FFFFu32;
}

proof fn lemma_plain(x: u32)
    requires
        x < INDEX_MASK,
    ensures
        x & CONSUMED_FLAG == 0,
        x & INDEX_MASK == x,
        x != INVALID_INDEX,
{
    assert(x & 0x8000_0000u32 == 0) by (bit_vector)
        requires x < 0x7FFF_FFFFu32;
    assert(x & 0x7FFF_FFFFu32 == x) by (bit_vector)
        requires x < 0x7FFF_FFFFu32;
}

/// Whether the links of `w` chain all `n` slots in the order `order`, the last ending the chain.
pub open spec fn chained(n: u32, w: Seq<u32>, order: Seq<u32>) -> bool {
    &&& order.len() == n
    &&& order.no_duplicates()
    &&& forall|i: int| 0 <= i < n ==> #[trigger] order[i] < n
    &&& forall|i: int| 0 <= i < n - 1 ==> link_of(w, n, #[trigger] order[i]) == order[i + 1]
    &&& link_of(w, n, order[n - 1]) == INVALID_INDEX
}

/// A ring in steady state without overrun: the producer's slot comes first in the chain, then
/// the free slots, then from position `ti` on the slots the consumer may read, up to the head.
/// Where the consumer flagged the tail, it holds the tail slot.
pub open spec fn ring_state(
    n: u32,
    w: Seq<u32>,
    p: ProducerState,
    c: ConsumerState,
    order: Seq<u32>,
    ti: int,
) -> bool {
    &&& MIN_MSGS <= n <= INDEX_MASK
    &&& w.len() == QUEUE_WORD + n
    &&& chained(n, w, order)
    &&& p.overrun == INVALID_INDEX
    &&& p.current == order[0]
    &&& p.head == order[n - 1]
    &&& w[HEAD_WORD as int] == order[n - 1]
    &&& 1 <= ti < n
    &&& (w[TAIL_WORD as int] == order[ti] || (w[TAIL_WORD as int] == order[ti] | CONSUMED_FLAG
        && c.current == order[ti]))
}

/// The slots published and not yet read, oldest first.
pub open spec fn pending(w: Seq<u32>, order: Seq<u32>, ti: int) -> Seq<u32> {
    if w[TAIL_WORD as int] & CONSUMED_FLAG != 0 {
        order.subrange(ti + 1, order.len() as int)
    } else {
        order.subrange(ti, order.len() as int)
    }
}

/// The chain order after the producer's slot was published: it moves to the end.
pub open spec fn rotate(order: Seq<u32>) -> Seq<u32> {
    order.subrange(1, order.len() as int).push(order[0])
}

/// A freshly initialised ring with a producer that has published nothing.
pub open spec fn fresh_ring(n: u32, w: Seq<u32>, p: ProducerState) -> bool {
    &&& MIN_MSGS <= n <= INDEX_MASK
    &&& w == initial_words(n)
    &&& p == ProducerState { head: INVALID_INDEX, current: 0, overrun: INVALID_INDEX }
}

/// On a fresh ring `fetch_tail` finds nothing and changes nothing, and the first `try_put`
/// publishes slot 0 as the one pending message.
pub proof fn lemma_fresh_ring(n: u32, w: Seq<u32>, p: ProducerState, c: ConsumerState)
    requires
        fresh_ring(n, w, p),
    ensures
        ({
            let (c1, w1, r) = fetch_tail_step(n, c, w);
            r == FetchResult::Empty && c1 == c && w1 == w
        }),
        ({
            let (p1, w1, ok) = try_put_step(n, p, w);
            let order = Seq::new(n as nat, |i: int| if i < n - 1 { (i + 1) as u32 } else { 0u32 });
            &&& ok
            &&& ring_state(n, w1, p1, c, order, n - 1)
            &&& pending(w1, order, n - 1) == seq![0u32]
            &&& force_put_step(n, p, w) == (p1, w1, false)
        }),
{
    assert(0xFFFF_FFFFu32 | 0x8000_0000u32 == 0xFFFF_FFFFu32) by (bit_vector);
    assert(0xFFFF_FFFFu32 & 0x8000_0000u32 != 0) by (bit_vector);
    assert(0xFFFF_FFFFu32 & 0x7FFF_FFFFu32 == 0x7FFF_FFFFu32) by (bit_vector);
    assert(w.update(TAIL_WORD as int, INVALID_INDEX | CONSUMED_FLAG) =~= w);
    assert(w[link_word(0)] == 1);
    let (p1, w1, ok) = try_put_step(n, p, w);
    let order = Seq::new(n as nat, |i: int| if i < n - 1 { (i + 1) as u32 } else { 0u32 });
    lemma_plain(0);
    assert(w1[TAIL_WORD as int] == 0);
    assert(order[n - 1] == 0);
    assert forall|i: int| 0 <= i < n - 1 implies link_of(w1, n, #[trigger] order[i]) == order[i + 1] by {
        assert(w1[link_word(order[i])] == w[link_word(order[i])]);
    }
    assert(order.no_duplicates()) by {
        assert forall|i: int, j: int| 0 <= i < order.len() && 0 <= j < order.len() && i != j
            implies order[i] != order[j] by {}
    }
    assert(pending(w1, order, n - 1) =~= seq![0u32]);
}

proof fn lemma_rotate(n: u32, order: Seq<u32>)
    requires
        order.len() == n,
        n >= 2,
        order.no_duplicates(),
    ensures
        rotate(order).len() == n,
        rotate(order).no_duplicates(),
        forall|i: int| 0 <= i < n - 1 ==> #[trigger] rotate(order)[i] == order[i + 1],
        rotate(order)[n - 1] == order[0],
{
    let r = rotate(order);
    assert forall|i: int, j: int| 0 <= i < r.len() && 0 <= j < r.len() && i != j implies r[i]
        != r[j] by {
        let oi = if i < n - 1 { i + 1 } else { 0 };
        let oj = if j < n - 1 { j + 1 } else { 0 };
        assert(r[i] == order[oi]);
        assert(r[j] == order[oj]);
    }
}

/// `try_put` in steady state is a lossless queue append: it succeeds exactly when a free slot
/// is at hand, then appends the slot just written to the pending messages; otherwise it
/// changes nothing.
pub proof fn lemma_try_put_appends(
    n: u32,
    w: Seq<u32>,
    p: ProducerState,
    c: ConsumerState,
    order: Seq<u32>,
    ti: int,
)
    requires
        ring_state(n, w, p, c, order, ti),
    ensures
        ({
            let (p1, w1, ok) = try_put_step(n, p, w);
            &&& ok == (ti > 1)
            &&& ok ==> ring_state(n, w1, p1, c, rotate(order), ti - 1)
            &&& ok ==> pending(w1, rotate(order), ti - 1) == pending(w, order, ti).push(
                p.current,
            )
            &&& !ok ==> p1 == p && w1 == w
        }),
{
    let t = order[ti];
    lemma_plain(t);
    lemma_flagged(t);
    assert(order[1] < n);
    assert(order[1] == t <==> ti == 1);
    let (p1, w1, ok) = try_put_step(n, p, w);
    if ti > 1 {
        lemma_rotate(n, order);
        let r = rotate(order);
        let cur = order[0];
        let head = order[n - 1];
        lemma_plain(cur);
        lemma_plain(head);
        assert(w1 == publish_words(w, head, cur));
        assert(w1[TAIL_WORD as int] == w[TAIL_WORD as int]);
        assert forall|i: int| 0 <= i < n - 1 implies link_of(w1, n, #[trigger] r[i]) == r[i + 1] by {
            if i < n - 2 {
                assert(r[i] == order[i + 1]);
                assert(order[i + 1] != cur && order[i + 1] != head);
                assert(w1[link_word(order[i + 1])] == w[link_word(order[i + 1])]);
            }
        }
        assert(forall|i: int| 0 <= i < n ==> #[trigger] r[i] < n) by {
            assert forall|i: int| 0 <= i < n implies #[trigger] r[i] < n by {
                if i < n - 1 {
                    assert(r[i] == order[i + 1]);
                }
            }
        }
        assert(r[ti - 1] == t);
        if w[TAIL_WORD as int] & CONSUMED_FLAG != 0 {
            assert(pending(w1, r, ti - 1) =~= pending(w, order, ti).push(p.current));
        } else {
            assert(pending(w1, r, ti - 1) =~= pending(w, order, ti).push(p.current));
        }
    }
}

/// `fetch_tail` in steady state is a queue removal: where a message is pending it moves the
/// consumer to the oldest one and removes it from the pending messages; otherwise it reports
/// no new message and changes nothing.
pub proof fn lemma_fetch_tail_removes(
    n: u32,
    w: Seq<u32>,
    p: ProducerState,
    c: ConsumerState,
    order: Seq<u32>,
    ti: int,
)
    requires
        ring_state(n, w, p, c, order, ti),
    ensures
        ({
            let (c1, w1, r) = fetch_tail_step(n, c, w);
            let before = pending(w, order, ti);
            let ti1 = if w[TAIL_WORD as int] & CONSUMED_FLAG != 0 && r == FetchResult::New {
                ti + 1
            } else {
                ti
            };
            &&& (r == FetchResult::New) == (before.len() > 0)
            &&& r == FetchResult::New ==> c1.current == before[0]
            &&& ring_state(n, w1, p, c1, order, ti1)
            &&& r == FetchResult::New ==> pending(w1, order, ti1) == before.drop_first()
            &&& r != FetchResult::New ==> c1 == c && w1 == w
        }),
{
    let t = order[ti];
    lemma_plain(t);
    lemma_flagged(t);
    let (c1, w1, r) = fetch_tail_step(n, c, w);
    let before = pending(w, order, ti);
    if w[TAIL_WORD as int] == t {
        assert(w1 == w.update(TAIL_WORD as int, t | CONSUMED_FLAG));
        assert(pending(w1, order, ti) =~= before.drop_first());
    } else {
        assert(w.update(TAIL_WORD as int, (t | CONSUMED_FLAG) | CONSUMED_FLAG) =~= w);
        assert(w[link_word(t)] == link_of(w, n, order[ti]));
        if ti < n - 1 {
            let nx = order[ti + 1];
            lemma_plain(nx);
            lemma_flagged(nx);
            assert(nx < n);
            assert(pending(w1, order, ti + 1) =~= before.drop_first());
        }
    }
}


/// `force_put` in steady state, unless the consumer holds the tail of a full ring: where a
/// free slot is at hand it appends like `try_put`; where the ring is full it discards exactly the
/// oldest pending message and appends the new one, and reports the discard. No message is
/// repeated and none comes back.
pub proof fn lemma_force_put_steady(
    n: u32,
    w: Seq<u32>,
    p: ProducerState,
    c: ConsumerState,
    order: Seq<u32>,
    ti: int,
)
    requires
        ring_state(n, w, p, c, order, ti),
        ti == 1 ==> w[TAIL_WORD as int] == order[ti],
    ensures
        ({
            let (p1, w1, r) = force_put_step(n, p, w);
            let before = pending(w, order, ti);
            &&& r == (ti == 1)
            &&& ring_state(n, w1, p1, c, rotate(order), if ti == 1 { 1 } else { ti - 1 })
            &&& pending(w1, rotate(order), if ti == 1 { 1 } else { ti - 1 }) == (if ti == 1 {
                before.drop_first().push(p.current)
            } else {
                before.push(p.current)
            })
        }),
{
    let t = order[ti];
    lemma_plain(t);
    lemma_flagged(t);
    lemma_rotate(n, order);
    let r = rotate(order);
    let cur = order[0];
    let head = order[n - 1];
    lemma_plain(cur);
    lemma_plain(head);
    assert(order[1] < n);
    assert(order[1] == t <==> ti == 1);
    let pw = publish_words(w, head, cur);
    assert(pw[TAIL_WORD as int] == w[TAIL_WORD as int]);
    assert(link_of(w, n, cur) == order[1]);
    assert forall|i: int| 0 <= i < n - 1 implies link_of(pw, n, #[trigger] r[i]) == r[i + 1] by {
        if i < n - 2 {
            assert(r[i] == order[i + 1]);
            assert(order[i + 1] != cur && order[i + 1] != head);
            assert(pw[link_word(order[i + 1])] == w[link_word(order[i + 1])]);
        }
    }
    assert(forall|i: int| 0 <= i < n ==> #[trigger] r[i] < n) by {
        assert forall|i: int| 0 <= i < n implies #[trigger] r[i] < n by {
            if i < n - 1 {
                assert(r[i] == order[i + 1]);
            }
        }
    }
    let (p1, w1, res) = force_put_step(n, p, w);
    if ti == 1 {
        let nt = order[2];
        lemma_plain(nt);
        assert(r[0] == order[1] && r[1] == order[2]);
        assert(link_of(pw, n, order[1]) == order[2]);
        assert(w1 == pw.update(TAIL_WORD as int, nt));
        assert(pending(w1, r, 1) =~= pending(w, order, ti).drop_first().push(cur));
    } else {
        assert(r[ti - 1] == t);
        assert(pending(w1, r, ti - 1) =~= pending(w, order, ti).push(cur));
    }
}


/// A ring whose producer took a slot from the consumer: the consumer still holds or just left
/// the slot `p.overrun`, outside the chain; the other `n - 1` slots are chained in `order`, the
/// producer's slot first, then the free ones, then from position `ti` the readable ones. While
/// the consumer holds the overrun slot, the tail follows the producer's slot directly.
pub open spec fn overrun_state(
    n: u32,
    w: Seq<u32>,
    p: ProducerState,
    c: ConsumerState,
    order: Seq<u32>,
    ti: int,
) -> bool {
    &&& MIN_MSGS <= n <= INDEX_MASK
    &&& w.len() == QUEUE_WORD + n
    &&& order.len() == n - 1
    &&& order.no_duplicates()
    &&& forall|i: int| 0 <= i < n - 1 ==> #[trigger] order[i] < n
    &&& forall|i: int| 0 <= i < n - 2 ==> link_of(w, n, #[trigger] order[i]) == order[i + 1]
    &&& link_of(w, n, order[n - 2]) == INVALID_INDEX
    &&& p.overrun < n
    &&& !order.contains(p.overrun)
    &&& p.current == order[0]
    &&& p.head == order[n - 2]
    &&& w[HEAD_WORD as int] == order[n - 2]
    &&& 1 <= ti < n - 1
    &&& ((w[TAIL_WORD as int] == order[ti] && ti == 1 && c.current == p.overrun) || (
    w[TAIL_WORD as int] == order[ti] | CONSUMED_FLAG && c.current == order[ti]))
}

proof fn lemma_overrun_result(n: u32, p: ProducerState, w: Seq<u32>, x: u32, nc: u32, nt: u32)
    requires
        MIN_MSGS <= n <= INDEX_MASK,
        w.len() == QUEUE_WORD + n,
        p.overrun == INVALID_INDEX,
        p.current < n,
        p.head < n,
        p.head != p.current,
        x < n,
        nc < n,
        link_of(w, n, p.current) == x,
        publish_words(w, p.head, p.current)[TAIL_WORD as int] == x | CONSUMED_FLAG,
        link_of(publish_words(w, p.head, p.current), n, x) == nc,
        link_of(publish_words(w, p.head, p.current), n, nc) == nt,
    ensures
        force_put_step(n, p, w) == (
            ProducerState { head: p.current, current: nc, overrun: x },
            publish_words(w, p.head, p.current).update(TAIL_WORD as int, nt),
            true,
        ),
{
    lemma_plain(x);
    lemma_flagged(x);
}

/// `force_put` where the consumer holds the tail of a full ring: it takes the consumer's slot
/// out of the chain, discards exactly the oldest pending message, appends the new one, and
/// reports the discard.
pub proof fn lemma_force_put_overruns(
    n: u32,
    w: Seq<u32>,
    p: ProducerState,
    c: ConsumerState,
    order: Seq<u32>,
)
    requires
        ring_state(n, w, p, c, order, 1),
        w[TAIL_WORD as int] == order[1] | CONSUMED_FLAG,
    ensures
        ({
            let (p1, w1, r) = force_put_step(n, p, w);
            let o1 = order.subrange(2, n as int).push(order[0]);
            &&& r
            &&& p1.overrun == order[1]
            &&& overrun_state(n, w1, p1, c, o1, 1)
            &&& pending(w1, o1, 1) == pending(w, order, 1).drop_first().push(p.current)
        }),
{
    let x = order[1];
    lemma_plain(x);
    lemma_flagged(x);
    lemma_rotate(n, order);
    let r = rotate(order);
    let cur = order[0];
    let head = order[n - 1];
    lemma_plain(cur);
    lemma_plain(head);
    let pw = publish_words(w, head, cur);
    assert(pw[TAIL_WORD as int] == w[TAIL_WORD as int]);
    assert(link_of(w, n, cur) == order[1]);
    assert forall|i: int| 0 <= i < n - 1 implies link_of(pw, n, #[trigger] r[i]) == r[i + 1] by {
        if i < n - 2 {
            assert(r[i] == order[i + 1]);
            assert(order[i + 1] != cur && order[i + 1] != head);
            assert(pw[link_word(order[i + 1])] == w[link_word(order[i + 1])]);
        }
    }
    let o1 = order.subrange(2, n as int).push(order[0]);
    assert(o1 =~= r.subrange(1, n as int));
    let nc = r[1];
    let nt = r[2];
    lemma_plain(nc);
    lemma_plain(nt);
    assert(r[0] == x);
    assert(link_of(pw, n, x) == nc);
    assert(link_of(pw, n, nc) == nt);
    lemma_overrun_result(n, p, w, x, nc, nt);
    let (p1, w1, res) = force_put_step(n, p, w);
    assert(w1 == pw.update(TAIL_WORD as int, nt));
    assert(o1.no_duplicates()) by {
        assert forall|i: int, j: int| 0 <= i < o1.len() && 0 <= j < o1.len() && i != j implies o1[i]
            != o1[j] by {
            assert(o1[i] == r[i + 1] && o1[j] == r[j + 1]);
        }
    }
    assert forall|i: int| 0 <= i < n - 2 implies link_of(w1, n, #[trigger] o1[i]) == o1[i + 1] by {
        assert(o1[i] == r[i + 1]);
        assert(w1[link_word(o1[i])] == pw[link_word(o1[i])]);
    }
    assert(forall|i: int| 0 <= i < n - 1 ==> #[trigger] o1[i] < n) by {
        assert forall|i: int| 0 <= i < n - 1 implies #[trigger] o1[i] < n by {
            assert(o1[i] == r[i + 1]);
            if i < n - 2 {
                assert(r[i + 1] == order[i + 2]);
            }
        }
    }
    assert(w1[link_word(o1[n - 2])] == pw[link_word(o1[n - 2])]);
    assert(!o1.contains(x)) by {
        if o1.contains(x) {
            let k = choose|k: int| 0 <= k < o1.len() && o1[k] == x;
            assert(r[k + 1] == r[0]);
        }
    }
    assert(pending(w1, o1, 1) =~= pending(w, order, 1).drop_first().push(cur));
}


proof fn lemma_rotate_chain(n: u32, w: Seq<u32>, order: Seq<u32>, pw: Seq<u32>)
    requires
        MIN_MSGS <= n <= INDEX_MASK,
        w.len() == QUEUE_WORD + n,
        order.len() == n - 1,
        order.no_duplicates(),
        forall|i: int| 0 <= i < n - 1 ==> #[trigger] order[i] < n,
        forall|i: int| 0 <= i < n - 2 ==> link_of(w, n, #[trigger] order[i]) == order[i + 1],
        pw == publish_words(w, order[n - 2], order[0]),
    ensures
        rotate(order).len() == n - 1,
        rotate(order).no_duplicates(),
        forall|i: int| 0 <= i < n - 1 ==> #[trigger] rotate(order)[i] < n,
        forall|i: int|
            0 <= i < n - 2 ==> link_of(pw, n, #[trigger] rotate(order)[i]) == rotate(order)[i + 1],
        link_of(pw, n, rotate(order)[n - 2]) == INVALID_INDEX,
        rotate(order)[0] == order[1],
        rotate(order)[n - 2] == order[0],
{
    let m = (n - 1) as u32;
    lemma_rotate(m, order);
    let r = rotate(order);
    let cur = order[0];
    let head = order[n - 2];
    lemma_plain(cur);
    lemma_plain(head);
    assert forall|i: int| 0 <= i < n - 2 implies link_of(pw, n, #[trigger] r[i]) == r[i + 1] by {
        if i < n - 3 {
            assert(r[i] == order[i + 1]);
            assert(order[i + 1] != cur && order[i + 1] != head);
            assert(pw[link_word(order[i + 1])] == w[link_word(order[i + 1])]);
        }
    }
    assert forall|i: int| 0 <= i < n - 1 implies #[trigger] r[i] < n by {
        if i < n - 2 {
            assert(r[i] == order[i + 1]);
        }
    }
}

/// `force_put` while the producer holds a slot taken from the consumer: where the consumer
/// still holds it, the producer again discards exactly the oldest pending message, appends the
/// new one and reports the discard; where the consumer left it, the slot returns to the chain,
/// the new message is appended and nothing is discarded.
pub proof fn lemma_force_put_in_overrun(
    n: u32,
    w: Seq<u32>,
    p: ProducerState,
    c: ConsumerState,
    order: Seq<u32>,
    ti: int,
)
    requires
        overrun_state(n, w, p, c, order, ti),
    ensures
        ({
            let (p1, w1, r) = force_put_step(n, p, w);
            let before = pending(w, order, ti);
            let back = seq![p.overrun] + rotate(order);
            &&& r == (w[TAIL_WORD as int] & CONSUMED_FLAG == 0)
            &&& r ==> overrun_state(n, w1, p1, c, rotate(order), 1)
            &&& r ==> pending(w1, rotate(order), 1) == before.drop_first().push(p.current)
            &&& !r ==> ring_state(n, w1, p1, c, back, ti)
            &&& !r ==> pending(w1, back, ti) == before.push(p.current)
        }),
{
    let x = p.overrun;
    let cur = order[0];
    let head = order[n - 2];
    let t = order[ti];
    lemma_plain(x);
    lemma_plain(t);
    lemma_flagged(t);
    lemma_plain(cur);
    lemma_plain(head);
    let pw = publish_words(w, head, cur);
    lemma_rotate_chain(n, w, order, pw);
    let r = rotate(order);
    assert(pw[TAIL_WORD as int] == w[TAIL_WORD as int]);
    assert(link_of(w, n, cur) == order[1]);
    let (p1, w1, res) = force_put_step(n, p, w);
    assert(order.contains(cur));
    assert(x != cur);
    if w[TAIL_WORD as int] == t && ti == 1 {
        assert(link_of(pw, n, order[1]) == r[1]);
        assert(w1 == pw.update(TAIL_WORD as int, r[1]));
        assert(p1 == ProducerState { head: cur, current: order[1], overrun: x });
        lemma_plain(r[1]);
        assert forall|i: int| 0 <= i < n - 2 implies link_of(w1, n, #[trigger] r[i]) == r[i + 1] by {
            assert(w1[link_word(r[i])] == pw[link_word(r[i])]);
        }
        assert(w1[link_word(r[n - 2])] == pw[link_word(r[n - 2])]);
        assert(!r.contains(x)) by {
            if r.contains(x) {
                let k = choose|k: int| 0 <= k < r.len() && r[k] == x;
                let ok = if k < n - 2 { k + 1 } else { 0 };
                assert(r[k] == order[ok]);
            }
        }
        assert(pending(w1, r, 1) =~= pending(w, order, ti).drop_first().push(cur));
    } else {
        let back = seq![x] + r;
        assert(w1 == pw.update(link_word(x), order[1]));
        assert(p1 == ProducerState { head: cur, current: x, overrun: INVALID_INDEX });
        assert(back.len() == n);
        assert(back.no_duplicates()) by {
            assert forall|i: int, j: int|
                0 <= i < back.len() && 0 <= j < back.len() && i != j implies back[i] != back[j] by {
                if i == 0 && j > 0 {
                    assert(back[j] == r[j - 1]);
                    let oj = if j - 1 < n - 2 { j } else { 0 };
                    assert(r[j - 1] == order[oj]);
                } else if j == 0 && i > 0 {
                    assert(back[i] == r[i - 1]);
                    let oi = if i - 1 < n - 2 { i } else { 0 };
                    assert(r[i - 1] == order[oi]);
                } else if i > 0 && j > 0 {
                    assert(back[i] == r[i - 1] && back[j] == r[j - 1]);
                }
            }
        }
        assert forall|i: int| 0 <= i < n implies #[trigger] back[i] < n by {
            if i > 0 {
                assert(back[i] == r[i - 1]);
            }
        }
        assert forall|i: int| 0 <= i < n - 1 implies link_of(w1, n, #[trigger] back[i]) == back[i + 1] by {
            if i > 0 {
                assert(back[i] == r[i - 1] && back[i + 1] == r[i]);
                assert(r.contains(r[i - 1]));
                assert(r[i - 1] != x);
                assert(w1[link_word(r[i - 1])] == pw[link_word(r[i - 1])]);
            }
        }
        assert(back[n - 1] == cur);
        assert(w1[link_word(cur)] == pw[link_word(cur)]);
        assert(back[ti] == t);
        assert(pending(w1, back, ti) =~= pending(w, order, ti).push(cur));
    }
}


/// `fetch_tail` while the producer holds a slot taken from the consumer: like in steady state,
/// it moves the consumer to the oldest pending message and removes it from the pending ones,
/// or reports no new message and changes nothing.
pub proof fn lemma_fetch_tail_in_overrun(
    n: u32,
    w: Seq<u32>,
    p: ProducerState,
    c: ConsumerState,
    order: Seq<u32>,
    ti: int,
)
    requires
        overrun_state(n, w, p, c, order, ti),
    ensures
        ({
            let (c1, w1, r) = fetch_tail_step(n, c, w);
            let before = pending(w, order, ti);
            let ti1 = if w[TAIL_WORD as int] & CONSUMED_FLAG != 0 && r == FetchResult::New {
                ti + 1
            } else {
                ti
            };
            &&& (r == FetchResult::New) == (before.len() > 0)
            &&& r == FetchResult::New ==> c1.current == before[0]
            &&& overrun_state(n, w1, p, c1, order, ti1)
            &&& r == FetchResult::New ==> pending(w1, order, ti1) == before.drop_first()
            &&& r != FetchResult::New ==> c1 == c && w1 == w
        }),
{
    let t = order[ti];
    lemma_plain(t);
    lemma_flagged(t);
    let (c1, w1, r) = fetch_tail_step(n, c, w);
    let before = pending(w, order, ti);
    if w[TAIL_WORD as int] == t && ti == 1 {
        assert(w1 == w.update(TAIL_WORD as int, t | CONSUMED_FLAG));
        assert(pending(w1, order, ti) =~= before.drop_first());
    } else {
        assert(w.update(TAIL_WORD as int, (t | CONSUMED_FLAG) | CONSUMED_FLAG) =~= w);
        assert(w[link_word(t)] == link_of(w, n, order[ti]));
        if ti < n - 2 {
            let nx = order[ti + 1];
            lemma_plain(nx);
            lemma_flagged(nx);
            assert(pending(w1, order, ti + 1) =~= before.drop_first());
        }
    }
}


/// `try_put` while the producer holds a slot taken from the consumer: it publishes exactly when
/// the consumer left that slot, with the same effect as `force_put`; otherwise it refuses and
/// changes nothing.
pub proof fn lemma_try_put_in_overrun(
    n: u32,
    w: Seq<u32>,
    p: ProducerState,
    c: ConsumerState,
    order: Seq<u32>,
    ti: int,
)
    requires
        overrun_state(n, w, p, c, order, ti),
    ensures
        ({
            let (p1, w1, ok) = try_put_step(n, p, w);
            let (p2, w2, _) = force_put_step(n, p, w);
            &&& ok == (w[TAIL_WORD as int] & CONSUMED_FLAG != 0)
            &&& ok ==> p1 == p2 && w1 == w2
            &&& !ok ==> p1 == p && w1 == w
        }),
{
    let t = order[ti];
    lemma_plain(t);
    lemma_flagged(t);
    let cur = order[0];
    let head = order[n - 2];
    assert(order.contains(cur) && order.contains(head));
    let pw = publish_words(w, head, cur);
    assert(pw[TAIL_WORD as int] == w[TAIL_WORD as int]);
}

/// `fetch_head` in either state moves the consumer to the message published last, and leaves
/// nothing pending, so that `fetch_tail` reports no new message until the next publish.
pub proof fn lemma_fetch_head_latest(
    n: u32,
    w: Seq<u32>,
    p: ProducerState,
    c: ConsumerState,
    order: Seq<u32>,
    ti: int,
)
    requires
        ring_state(n, w, p, c, order, ti) || overrun_state(n, w, p, c, order, ti),
    ensures
        ({
            let (c1, w1, ok) = fetch_head_step(n, c, w);
            let last = order.len() - 1;
            &&& ok
            &&& c1.current == p.head
            &&& ring_state(n, w, p, c, order, ti) ==> ring_state(n, w1, p, c1, order, last)
            &&& overrun_state(n, w, p, c, order, ti) ==> overrun_state(
                n,
                w1,
                p,
                c1,
                order,
                last,
            )
            &&& pending(w1, order, last).len() == 0
        }),
{
    let t = order[ti];
    lemma_plain(t);
    lemma_flagged(t);
    let last = order.len() - 1;
    let h = order[last];
    lemma_plain(h);
    lemma_flagged(h);
    let (c1, w1, ok) = fetch_head_step(n, c, w);
    assert(w1[HEAD_WORD as int] == w[HEAD_WORD as int]);
    assert(pending(w1, order, last) =~= Seq::<u32>::empty());
}

} // verus!
