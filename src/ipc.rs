use vstd::prelude::*;
use std::marker::PhantomData;

use crate::cache::align_up;
use crate::channel::{
    fits_ring, fetch_head_step, fetch_tail_step, force_put_step, initial_words, try_put_step,
    ConsumerChannel, ConsumerState, FetchResult, IndexMemory, ProducerChannel, ProducerState,
    INVALID_INDEX,
};
use crate::error::{ChannelError, CreateError, HeaderError, MemError};
use crate::header::{check_header, header_bytes, lemma_header_round_trip, Header, HEADER_SIZE};
use crate::table::{
    all_valid, check_valid, checked_end, entries_from, entry_params, laid_out, lemma_table_round_trip,
    params_bytes,
    table_error, total_size, ChannelEntry, ChannelTable, ENTRY_SIZE,
};
use crate::{ChannelParam, MIN_MSGS};

verus! {

/// Offset of the first channel: header and table, rounded up to the cache line.
pub open spec fn offset_channels_spec(num_channels: int, cls: usize) -> int {
    align_up(HEADER_SIZE + ENTRY_SIZE * num_channels, cls as int)
}

/// Whether the region of `consumers` and `producers` can be laid out with cache-line size `cls`.
pub open spec fn region_fits(c: Seq<ChannelParam>, p: Seq<ChannelParam>, cls: usize) -> bool {
    &&& c.len() + p.len() > 0
    &&& cls > 0
    &&& all_valid(c, cls)
    &&& all_valid(p, cls)
    &&& HEADER_SIZE + ENTRY_SIZE * (c.len() + p.len()) + cls - 1 <= usize::MAX
    &&& shm_size_spec(c, p, cls) <= usize::MAX
}

/// Bytes of a region: header, table, padding to the cache line, then the channels.
pub open spec fn shm_size_spec(c: Seq<ChannelParam>, p: Seq<ChannelParam>, cls: usize) -> int {
    offset_channels_spec((c.len() + p.len()) as int, cls) + total_size(c, cls) + total_size(p, cls)
}

/// What a creator writes into a fresh region, and where its channels lie.
pub struct RegionPlan {
    pub size: usize,
    pub header: Vec<u8>,
    pub table_bytes: Vec<u8>,
    pub table: ChannelTable,
}

/// Offset of the first channel for `num_channels` channels.
pub fn calc_offset_channels(num_channels: usize, cls: usize) -> (r: usize)
    requires
        cls > 0,
        HEADER_SIZE + ENTRY_SIZE * num_channels + cls - 1 <= usize::MAX,
    ensures
        r == offset_channels_spec(num_channels as int, cls),
        r >= HEADER_SIZE + ENTRY_SIZE * num_channels,
{
    crate::cache::cacheline_aligned(HEADER_SIZE + ENTRY_SIZE * num_channels, cls)
}

/// Bytes of the region for `consumers` and `producers`. Fails with `Argument` where there is no
/// channel, or where a channel or the whole region cannot be laid out.
pub fn calc_shm_size(consumers: &[ChannelParam], producers: &[ChannelParam], cls: usize) -> (r:
    Result<usize, CreateError>)
    ensures
        r.is_ok() == region_fits(consumers@, producers@, cls),
        r matches Ok(v) ==> v == shm_size_spec(consumers@, producers@, cls),
        r.is_err() ==> r matches Err(CreateError::Argument),
{
    let nc = consumers.len();
    let np = producers.len();
    if cls == 0 || (nc == 0 && np == 0) {
        return Err(CreateError::Argument);
    }
    if !check_valid(consumers, cls) || !check_valid(producers, cls) {
        return Err(CreateError::Argument);
    }
    if cls - 1 > usize::MAX - HEADER_SIZE {
        return Err(CreateError::Argument);
    }
    if np > usize::MAX - nc || nc + np > (usize::MAX - HEADER_SIZE - (cls - 1)) / ENTRY_SIZE {
        proof {
            let n = nc + np;
            let b = usize::MAX - HEADER_SIZE - (cls - 1);
            if n <= usize::MAX {
                assert(n * 8 > b) by (nonlinear_arith)
                    requires n > b / 8, b >= 0;
            }
        }
        return Err(CreateError::Argument);
    }
    let offset = calc_offset_channels(nc + np, cls);
    let mid = match checked_end(consumers, offset, cls) {
        Some(v) => v,
        None => {
            proof { crate::table::lemma_total_nonneg(producers@, cls); }
            return Err(CreateError::Argument);
        },
    };
    match checked_end(producers, mid, cls) {
        Some(v) => Ok(v),
        None => Err(CreateError::Argument),
    }
}

/// The plan of a creator: the region's size, its encoded header and table, and the channels'
/// places. Fails with `Argument` where the region cannot be laid out, and with `CachelineSize`
/// where the cache-line size does not fit the header.
pub fn plan_region(
    consumers: &[ChannelParam],
    producers: &[ChannelParam],
    cookie: u32,
    cls: usize,
) -> (r: Result<RegionPlan, CreateError>)
    ensures
        !region_fits(consumers@, producers@, cls) ==> r matches Err(CreateError::Argument),
        region_fits(consumers@, producers@, cls) && (cls > u16::MAX || consumers@.len()
            > u32::MAX || producers@.len() > u32::MAX) ==> r matches Err(
            CreateError::Header(HeaderError::CachelineSize),
        ),
        r matches Ok(plan) ==> {
            let offset = offset_channels_spec((consumers@.len() + producers@.len()) as int, cls);
            &&& region_fits(consumers@, producers@, cls)
            &&& plan.size == shm_size_spec(consumers@, producers@, cls)
            &&& plan.header@ == header_bytes(creator_header(consumers@, producers@, cookie, cls))
            &&& plan.table_bytes@ == params_bytes(consumers@ + producers@)
            &&& laid_out(plan.table.consumers@, consumers@, offset, cls)
            &&& laid_out(
                plan.table.producers@,
                producers@,
                offset + total_size(consumers@, cls),
                cls,
            )
        },
        r.is_err() ==> !region_fits(consumers@, producers@, cls) || cls > u16::MAX
            || consumers@.len() > u32::MAX || producers@.len() > u32::MAX,
{
    let size = calc_shm_size(consumers, producers, cls)?;
    if cls > u16::MAX as usize || consumers.len() > u32::MAX as usize || producers.len()
        > u32::MAX as usize {
        return Err(CreateError::Header(HeaderError::CachelineSize));
    }
    let header = Header::new(consumers.len() as u32, producers.len() as u32, cookie, cls as u16);
    let offset = calc_offset_channels(consumers.len() + producers.len(), cls);
    let table = ChannelTable::new(consumers, producers, offset, cls);
    let table_bytes = table.to_bytes();
    proof {
        assert(entry_params(table.consumers@) =~= consumers@);
        assert(entry_params(table.producers@) =~= producers@);
        assert(header.num_channels =~= [consumers@.len() as u32, producers@.len() as u32]);
    }
    Ok(RegionPlan { size, header: header.to_bytes(), table_bytes, table })
}


/// What an attaching process reads from a region with header bytes `h` and table bytes `t`:
/// the header is checked first; the creator's producers are then its consumers.
pub open spec fn attach_spec(h: Seq<u8>, t: Seq<u8>, cookie: u32, cls: usize) -> Option<CreateError> {
    let hdr = check_header(h, cookie, cls as u16);
    if cls > u16::MAX || cls == 0 {
        Some(CreateError::Header(HeaderError::CachelineSize))
    } else if hdr is Err {
        Some(CreateError::Header(hdr->Err_0))
    } else {
        let nc = hdr->Ok_0.num_channels@[1] as usize;
        let np = hdr->Ok_0.num_channels@[0] as usize;
        let n = nc + np;
        if n > usize::MAX {
            Some(CreateError::Mem(MemError::Size))
        } else if n == 0 {
            Some(CreateError::Argument)
        } else if HEADER_SIZE + ENTRY_SIZE * n + cls - 1 > usize::MAX {
            Some(CreateError::Mem(MemError::Size))
        } else {
            match table_error(t, nc, np, offset_channels_spec(n as int, cls) as usize, cls) {
                Some(e) => Some(CreateError::Mem(e)),
                None => None,
            }
        }
    }
}

/// Reads the layout of a region that another process created: validates its header against
/// `cookie` and this host's cache-line size `cls`, then reads its table from `t`, the bytes
/// that follow the header. The creator's consumers become this process's producers.
pub fn attach_table(h: &[u8], t: &[u8], cookie: u32, cls: usize) -> (r: Result<ChannelTable, CreateError>)
    ensures
        match attach_spec(h@, t@, cookie, cls) {
            Some(e) => r is Err && match (r->Err_0, e) {
                (CreateError::Argument, CreateError::Argument) => true,
                (CreateError::Mem(a), CreateError::Mem(b)) => a == b,
                (CreateError::Header(a), CreateError::Header(b)) => a == b,
                _ => false,
            },
            None => r matches Ok(table) && {
                let hdr = check_header(h@, cookie, cls as u16)->Ok_0;
                let nc = hdr.num_channels@[1] as usize;
                let np = hdr.num_channels@[0] as usize;
                let offset = offset_channels_spec(nc + np, cls);
                let producers = entries_from(t@, 0, np as int);
                let consumers = entries_from(t@, np as int, nc as int);
                &&& laid_out(table.producers@, producers, offset, cls)
                &&& laid_out(table.consumers@, consumers, offset + total_size(producers, cls), cls)
            },
        },
{
    if cls > u16::MAX as usize || cls == 0 {
        return Err(CreateError::Header(HeaderError::CachelineSize));
    }
    let header = match Header::from_bytes(h, cookie, cls as u16) {
        Ok(v) => v,
        Err(e) => return Err(CreateError::Header(e)),
    };
    let num_producers = header.num_channels[0] as usize;
    let num_consumers = header.num_channels[1] as usize;
    if num_producers > usize::MAX - num_consumers {
        return Err(CreateError::Mem(MemError::Size));
    }
    let n = num_consumers + num_producers;
    if n == 0 {
        return Err(CreateError::Argument);
    }
    if n > (usize::MAX - HEADER_SIZE - (cls - 1)) / ENTRY_SIZE {
        proof {
            let b = usize::MAX - HEADER_SIZE - (cls - 1);
            assert(n * 8 > b) by (nonlinear_arith)
                requires n > b / 8, b >= 0;
        }
        return Err(CreateError::Mem(MemError::Size));
    }
    let offset = calc_offset_channels(n, cls);
    match ChannelTable::from_bytes(t, num_consumers, num_producers, offset, cls) {
        Ok(table) => Ok(table),
        Err(e) => Err(CreateError::Mem(e)),
    }
}


/// A producer handle for messages of type `T`.
pub struct Producer<T, M> {
    pub channel: ProducerChannel<M>,
    pub message_type: PhantomData<T>,
}

/// A consumer handle for messages of type `T`.
pub struct Consumer<T, M> {
    pub channel: ConsumerChannel<M>,
    pub message_type: PhantomData<T>,
}

impl<T, M: IndexMemory> Producer<T, M> {
    /// Binds `T` to `channel`. Fails with `Size` where `T` is larger than the channel's messages.
    pub fn new(channel: ProducerChannel<M>) -> (r: Result<Self, MemError>)
        ensures
            r.is_ok() == (size_of::<T>() <= channel.msg_size),
            r matches Ok(p) ==> p.channel == channel,
            r.is_err() ==> r == Err::<Self, MemError>(MemError::Size),
    {
        if core::mem::size_of::<T>() > channel.msg_size() {
            return Err(MemError::Size);
        }
        Ok(Producer { channel, message_type: PhantomData })
    }

    /// Publishes the message, discarding the oldest unread one where the ring is full.
    pub fn force_put(&mut self) -> (r: bool)
        requires
            old(self).channel.wf(),
        ensures
            final(self).channel.wf(),
            final(self).channel.len == old(self).channel.len,
            final(self).channel.msg_size == old(self).channel.msg_size,
            final(self).channel.mem.exclusive() == old(self).channel.mem.exclusive(),
            old(self).channel.mem.exclusive() ==> (
                final(self).channel.state,
                final(self).channel.mem.words(),
                r,
            ) == force_put_step(
                old(self).channel.len,
                old(self).channel.state,
                old(self).channel.mem.words(),
            ),
    {
        self.channel.force_put()
    }

    /// Publishes the message only where a free slot is at hand.
    pub fn try_put(&mut self) -> (r: bool)
        requires
            old(self).channel.wf(),
        ensures
            final(self).channel.wf(),
            final(self).channel.len == old(self).channel.len,
            final(self).channel.msg_size == old(self).channel.msg_size,
            final(self).channel.mem.exclusive() == old(self).channel.mem.exclusive(),
            !r ==> final(self).channel.state == old(self).channel.state,
            old(self).channel.mem.exclusive() ==> (
                final(self).channel.state,
                final(self).channel.mem.words(),
                r,
            ) == try_put_step(
                old(self).channel.len,
                old(self).channel.state,
                old(self).channel.mem.words(),
            ),
    {
        self.channel.try_put()
    }

    /// The slot the next message is written to.
    pub fn msg_slot(&self) -> (r: u32)
        requires
            self.channel.wf(),
        ensures
            r == self.channel.state.current,
            r < self.channel.len,
    {
        self.channel.current()
    }
}

impl<T, M: IndexMemory> Consumer<T, M> {
    /// Binds `T` to `channel`. Fails with `Size` where `T` is larger than the channel's messages.
    pub fn new(channel: ConsumerChannel<M>) -> (r: Result<Self, MemError>)
        ensures
            r.is_ok() == (size_of::<T>() <= channel.msg_size),
            r matches Ok(c) ==> c.channel == channel,
            r.is_err() ==> r == Err::<Self, MemError>(MemError::Size),
    {
        if core::mem::size_of::<T>() > channel.msg_size() {
            return Err(MemError::Size);
        }
        Ok(Consumer { channel, message_type: PhantomData })
    }

    /// Moves to the oldest unread message: `New` where there is one.
    pub fn fetch_tail(&mut self) -> (r: FetchResult)
        requires
            old(self).channel.wf(),
        ensures
            final(self).channel.wf(),
            final(self).channel.len == old(self).channel.len,
            final(self).channel.msg_size == old(self).channel.msg_size,
            final(self).channel.mem.exclusive() == old(self).channel.mem.exclusive(),
            r != FetchResult::New ==> final(self).channel.state == old(self).channel.state,
            old(self).channel.mem.exclusive() ==> (
                final(self).channel.state,
                final(self).channel.mem.words(),
                r,
            ) == fetch_tail_step(
                old(self).channel.len,
                old(self).channel.state,
                old(self).channel.mem.words(),
            ),
    {
        self.channel.fetch_tail()
    }

    /// Moves to the most recent message: `true` where there is one.
    pub fn fetch_head(&mut self) -> (r: bool)
        requires
            old(self).channel.wf(),
        ensures
            final(self).channel.wf(),
            final(self).channel.len == old(self).channel.len,
            final(self).channel.msg_size == old(self).channel.msg_size,
            final(self).channel.mem.exclusive() == old(self).channel.mem.exclusive(),
            !r ==> final(self).channel.state == old(self).channel.state,
            old(self).channel.mem.exclusive() ==> (
                final(self).channel.state,
                final(self).channel.mem.words(),
                r,
            ) == fetch_head_step(
                old(self).channel.len,
                old(self).channel.state,
                old(self).channel.mem.words(),
            ),
    {
        self.channel.fetch_head()
    }

    /// The slot of the message last fetched.
    pub fn msg_slot(&self) -> (r: u32)
        requires
            self.channel.wf(),
        ensures
            r == self.channel.state.current,
            r < self.channel.len,
    {
        self.channel.current()
    }
}

/// Which handles are still there to take.
pub open spec fn available<X>(s: Seq<Option<X>>) -> Seq<bool> {
    s.map_values(|o: Option<X>| o is Some)
}

/// Whether taking handle `index` from `avail` succeeds, size check aside.
pub open spec fn can_take(avail: Seq<bool>, index: int) -> bool {
    0 <= index < avail.len() && avail[index]
}

/// What is left to take after handle `index` was taken.
pub open spec fn after_take(avail: Seq<bool>, index: int) -> Seq<bool> {
    if 0 <= index < avail.len() {
        avail.update(index, false)
    } else {
        avail
    }
}

/// The error of taking handle `index` from `avail`, size check aside.
pub open spec fn take_error(avail: Seq<bool>, index: int) -> ChannelError {
    if 0 <= index < avail.len() {
        ChannelError::Index
    } else {
        ChannelError::Mem(MemError::Index)
    }
}

/// Whether `c` is the consumer built over `mem` for `param`.
pub open spec fn consumer_built<M: IndexMemory>(
    c: Option<ConsumerChannel<M>>,
    mem: M,
    param: ChannelParam,
    init: bool,
) -> bool {
    &&& c is Some
    &&& c->Some_0.wf()
    &&& c->Some_0.len == MIN_MSGS + param.add_msgs
    &&& c->Some_0.msg_size == param.msg_size
    &&& c->Some_0.state == ConsumerState { current: 0 }
    &&& c->Some_0.mem.exclusive() == mem.exclusive()
    &&& (init && mem.exclusive() ==> c->Some_0.mem.words() == initial_words(c->Some_0.len))
    &&& (!init ==> c->Some_0.mem == mem)
}

/// Whether `p` is the producer built over `mem` for `param`.
pub open spec fn producer_built<M: IndexMemory>(
    p: Option<ProducerChannel<M>>,
    mem: M,
    param: ChannelParam,
    init: bool,
) -> bool {
    &&& p is Some
    &&& p->Some_0.wf()
    &&& p->Some_0.len == MIN_MSGS + param.add_msgs
    &&& p->Some_0.msg_size == param.msg_size
    &&& p->Some_0.state == ProducerState {
        head: INVALID_INDEX,
        current: 0,
        overrun: INVALID_INDEX,
    }
    &&& p->Some_0.mem.exclusive() == mem.exclusive()
    &&& (init && mem.exclusive() ==> p->Some_0.mem.words() == initial_words(p->Some_0.len))
    &&& (!init ==> p->Some_0.mem == mem)
}

fn build_consumers<M: IndexMemory>(entries: &Vec<ChannelEntry>, mems: Vec<M>, init: bool) -> (r:
    Result<Vec<Option<ConsumerChannel<M>>>, CreateError>)
    ensures
        r.is_ok() == (mems@.len() == entries@.len() && forall|i: int|
            0 <= i < mems@.len() ==> fits_ring(#[trigger] mems@[i], entries@[i].param)),
        r.is_err() ==> r matches Err(CreateError::Mem(MemError::Size)),
        r matches Ok(v) ==> v@.len() == entries@.len() && forall|i: int|
            0 <= i < v@.len() ==> consumer_built(#[trigger] v@[i], mems@[i], entries@[i].param, init),
{
    if mems.len() != entries.len() {
        return Err(CreateError::Mem(MemError::Size));
    }
    let ghost all = mems@;
    let mut rest = mems;
    let mut out: Vec<Option<ConsumerChannel<M>>> = Vec::new();
    let mut i: usize = 0;
    while i < entries.len()
        invariant
            all.len() == entries@.len(),
            all == mems@,
            i <= entries@.len(),
            rest@ == all.subrange(i as int, all.len() as int),
            out@.len() == i,
            forall|j: int| 0 <= j < i ==> fits_ring(#[trigger] all[j], entries@[j].param),
            forall|j: int|
                0 <= j < i ==> consumer_built(#[trigger] out@[j], all[j], entries@[j].param, init),
        decreases entries.len() - i,
    {
        let mem = rest.remove(0);
        assert(mem == all[i as int]);
        let mut channel = match ConsumerChannel::new(mem, &entries[i].param) {
            Ok(c) => c,
            Err(_) => {
                assert(!fits_ring(all[i as int], entries@[i as int].param));
                assert(!(forall|j: int|
                    0 <= j < all.len() ==> fits_ring(#[trigger] all[j], entries@[j].param)));
                return Err(CreateError::Mem(MemError::Size));
            },
        };
        if init {
            channel.init();
        }
        out.push(Some(channel));
        assert(rest@ =~= all.subrange(i as int + 1, all.len() as int));
        i = i + 1;
    }
    Ok(out)
}

fn build_producers<M: IndexMemory>(entries: &Vec<ChannelEntry>, mems: Vec<M>, init: bool) -> (r:
    Result<Vec<Option<ProducerChannel<M>>>, CreateError>)
    ensures
        r.is_ok() == (mems@.len() == entries@.len() && forall|i: int|
            0 <= i < mems@.len() ==> fits_ring(#[trigger] mems@[i], entries@[i].param)),
        r.is_err() ==> r matches Err(CreateError::Mem(MemError::Size)),
        r matches Ok(v) ==> v@.len() == entries@.len() && forall|i: int|
            0 <= i < v@.len() ==> producer_built(#[trigger] v@[i], mems@[i], entries@[i].param, init),
{
    if mems.len() != entries.len() {
        return Err(CreateError::Mem(MemError::Size));
    }
    let ghost all = mems@;
    let mut rest = mems;
    let mut out: Vec<Option<ProducerChannel<M>>> = Vec::new();
    let mut i: usize = 0;
    while i < entries.len()
        invariant
            all.len() == entries@.len(),
            all == mems@,
            i <= entries@.len(),
            rest@ == all.subrange(i as int, all.len() as int),
            out@.len() == i,
            forall|j: int| 0 <= j < i ==> fits_ring(#[trigger] all[j], entries@[j].param),
            forall|j: int|
                0 <= j < i ==> producer_built(#[trigger] out@[j], all[j], entries@[j].param, init),
        decreases entries.len() - i,
    {
        let mem = rest.remove(0);
        assert(mem == all[i as int]);
        let mut channel = match ProducerChannel::new(mem, &entries[i].param) {
            Ok(c) => c,
            Err(_) => {
                assert(!fits_ring(all[i as int], entries@[i as int].param));
                assert(!(forall|j: int|
                    0 <= j < all.len() ==> fits_ring(#[trigger] all[j], entries@[j].param)));
                return Err(CreateError::Mem(MemError::Size));
            },
        };
        if init {
            channel.init();
        }
        out.push(Some(channel));
        assert(rest@ =~= all.subrange(i as int + 1, all.len() as int));
        i = i + 1;
    }
    Ok(out)
}

/// The channels of a region, each handed out at most once.
pub struct RtIpc<M> {
    pub consumers: Vec<Option<ConsumerChannel<M>>>,
    pub producers: Vec<Option<ProducerChannel<M>>>,
}

impl<M: IndexMemory> RtIpc<M> {
    /// Builds the channels of `table` over the index words `consumer_mems` and `producer_mems`,
    /// one per entry; with `init`, writes their initial words. Fails with `Mem(Size)` where the
    /// words do not match the entries.
    pub fn construct(
        table: &ChannelTable,
        consumer_mems: Vec<M>,
        producer_mems: Vec<M>,
        init: bool,
    ) -> (r: Result<RtIpc<M>, CreateError>)
        ensures
            r.is_ok() == (consumer_mems@.len() == table.consumers@.len()
                && producer_mems@.len() == table.producers@.len() && (forall|i: int|
                0 <= i < consumer_mems@.len() ==> fits_ring(
                    #[trigger] consumer_mems@[i],
                    table.consumers@[i].param,
                )) && (forall|i: int|
                0 <= i < producer_mems@.len() ==> fits_ring(
                    #[trigger] producer_mems@[i],
                    table.producers@[i].param,
                ))),
            r.is_err() ==> r matches Err(CreateError::Mem(MemError::Size)),
            r matches Ok(ipc) ==> {
                &&& ipc.wf()
                &&& ipc.consumers@.len() == table.consumers@.len()
                &&& ipc.producers@.len() == table.producers@.len()
                &&& forall|i: int|
                    0 <= i < ipc.consumers@.len() ==> consumer_built(
                        #[trigger] ipc.consumers@[i],
                        consumer_mems@[i],
                        table.consumers@[i].param,
                        init,
                    )
                &&& forall|i: int|
                    0 <= i < ipc.producers@.len() ==> producer_built(
                        #[trigger] ipc.producers@[i],
                        producer_mems@[i],
                        table.producers@[i].param,
                        init,
                    )
            },
    {
        let consumers = build_consumers(&table.consumers, consumer_mems, init)?;
        let producers = build_producers(&table.producers, producer_mems, init)?;
        Ok(RtIpc { consumers, producers })
    }

    /// Every channel still held is well formed.
    pub open spec fn wf(&self) -> bool {
        &&& forall|i: int|
            0 <= i < self.consumers@.len() && (#[trigger] self.consumers@[i]) is Some
                ==> self.consumers@[i]->Some_0.wf()
        &&& forall|i: int|
            0 <= i < self.producers@.len() && (#[trigger] self.producers@[i]) is Some
                ==> self.producers@[i]->Some_0.wf()
    }

    /// Takes consumer `index` as a handle for messages of type `T`. Fails with `Mem(Index)`
    /// where there is no such consumer, with `Index` where it was already taken, and with
    /// `Mem(Size)` where `T` is larger than its messages; the consumer is then taken all the same.
    pub fn take_consumer<T>(&mut self, index: usize) -> (r: Result<Consumer<T, M>, ChannelError>)
        requires
            old(self).wf(),
        ensures
            final(self).wf(),
            final(self).producers@ == old(self).producers@,
            available(final(self).consumers@) == after_take(
                available(old(self).consumers@),
                index as int,
            ),
            !can_take(available(old(self).consumers@), index as int) ==> r == Err::<
                Consumer<T, M>,
                ChannelError,
            >(take_error(available(old(self).consumers@), index as int)),
            can_take(available(old(self).consumers@), index as int) ==> {
                let ch = old(self).consumers@[index as int]->Some_0;
                if size_of::<T>() <= ch.msg_size {
                    r matches Ok(c) && c.channel == ch
                } else {
                    r == Err::<Consumer<T, M>, ChannelError>(ChannelError::Mem(MemError::Size))
                }
            },
    {
        if index >= self.consumers.len() {
            assert(available(self.consumers@) =~= after_take(available(old(self).consumers@), index as int));
            return Err(ChannelError::Mem(MemError::Index));
        }
        let slot = self.consumers.remove(index);
        self.consumers.insert(index, None);
        assert(self.consumers@ =~= old(self).consumers@.update(index as int, None));
        assert(available(self.consumers@) =~= after_take(available(old(self).consumers@), index as int));
        match slot {
            None => Err(ChannelError::Index),
            Some(channel) => match Consumer::new(channel) {
                Ok(c) => Ok(c),
                Err(e) => Err(ChannelError::Mem(e)),
            },
        }
    }

    /// Takes producer `index` as a handle for messages of type `T`, with the errors of
    /// `take_consumer`.
    pub fn take_producer<T>(&mut self, index: usize) -> (r: Result<Producer<T, M>, ChannelError>)
        requires
            old(self).wf(),
        ensures
            final(self).wf(),
            final(self).consumers@ == old(self).consumers@,
            available(final(self).producers@) == after_take(
                available(old(self).producers@),
                index as int,
            ),
            !can_take(available(old(self).producers@), index as int) ==> r == Err::<
                Producer<T, M>,
                ChannelError,
            >(take_error(available(old(self).producers@), index as int)),
            can_take(available(old(self).producers@), index as int) ==> {
                let ch = old(self).producers@[index as int]->Some_0;
                if size_of::<T>() <= ch.msg_size {
                    r matches Ok(p) && p.channel == ch
                } else {
                    r == Err::<Producer<T, M>, ChannelError>(ChannelError::Mem(MemError::Size))
                }
            },
    {
        if index >= self.producers.len() {
            assert(available(self.producers@) =~= after_take(available(old(self).producers@), index as int));
            return Err(ChannelError::Mem(MemError::Index));
        }
        let slot = self.producers.remove(index);
        self.producers.insert(index, None);
        assert(self.producers@ =~= old(self).producers@.update(index as int, None));
        assert(available(self.producers@) =~= after_take(available(old(self).producers@), index as int));
        match slot {
            None => Err(ChannelError::Index),
            Some(channel) => match Producer::new(channel) {
                Ok(p) => Ok(p),
                Err(e) => Err(ChannelError::Mem(e)),
            },
        }
    }
}

/// Taking a handle twice fails the second time; taking one leaves every other handle as it was,
/// so a handle not taken before can still be taken.
pub proof fn lemma_take_once(avail: Seq<bool>, i: int, j: int)
    requires
        can_take(avail, i),
    ensures
        !can_take(after_take(avail, i), i),
        take_error(after_take(avail, i), i) == ChannelError::Index,
        j != i ==> can_take(after_take(avail, i), j) == can_take(avail, j),
{
}


/// The header a creator writes for `c` consumers and `p` producers.
pub open spec fn creator_header(c: Seq<ChannelParam>, p: Seq<ChannelParam>, cookie: u32, cls: usize) -> Header {
    Header {
        magic: crate::header::RTIC_MAGIC,
        version: crate::header::RTIC_VERSION,
        cookie,
        num_channels: [c.len() as u32, p.len() as u32],
        cacheline_size: cls as u16,
        atomic_size: crate::INDEX_SIZE as u16,
    }
}

/// What a creator writes is read back by a peer with the same cookie and cache-line size without
/// error, with the roles reversed: the peer's producers are the creator's consumers, its
/// consumers the creator's producers, in the same order and with the same parameters.
pub proof fn lemma_attach_reads_plan(
    c: Seq<ChannelParam>,
    p: Seq<ChannelParam>,
    cookie: u32,
    cls: usize,
)
    requires
        region_fits(c, p, cls),
        cls <= u16::MAX,
        c.len() <= u32::MAX,
        p.len() <= u32::MAX,
    ensures
        ({
            let h = header_bytes(creator_header(c, p, cookie, cls));
            let t = params_bytes(c + p);
            let hdr = check_header(h, cookie, cls as u16);
            &&& attach_spec(h, t, cookie, cls) is None
            &&& hdr == Ok::<Header, HeaderError>(creator_header(c, p, cookie, cls))
            &&& entries_from(t, 0, c.len() as int) == c
            &&& entries_from(t, c.len() as int, p.len() as int) == p
        }),
{
    let hd = creator_header(c, p, cookie, cls);
    lemma_header_round_trip(hd);
    let h = header_bytes(hd);
    let t = params_bytes(c + p);
    assert(all_valid(c + p, cls)) by {
        assert forall|i: int| 0 <= i < (c + p).len() implies #[trigger] (c + p)[i].valid(cls) by {
            if i < c.len() {
                assert((c + p)[i] == c[i]);
            } else {
                assert((c + p)[i] == p[i - c.len()]);
            }
        }
    }
    lemma_table_round_trip(c + p, cls);
    let all = entries_from(t, 0, (c + p).len() as int);
    assert(entries_from(t, 0, c.len() as int) =~= c) by {
        assert forall|i: int| 0 <= i < c.len() implies #[trigger] entries_from(t, 0, c.len() as int)[i] == c[i] by {
            assert(all[i] == (c + p)[i]);
        }
    }
    assert(entries_from(t, c.len() as int, p.len() as int) =~= p) by {
        assert forall|i: int| 0 <= i < p.len() implies #[trigger] entries_from(t, c.len() as int, p.len() as int)[i] == p[i] by {
            assert(all[c.len() + i] == (c + p)[c.len() + i]);
        }
    }
    assert(hd.num_channels@[0] == c.len() && hd.num_channels@[1] == p.len());
}

} // verus!
