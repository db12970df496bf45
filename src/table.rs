use vstd::prelude::*;

use crate::codec::{le_u32, lemma_u32_round_trip, push_u32, read_u32, u32_at};
use crate::error::MemError;
use crate::ChannelParam;

verus! {

/// Bytes of one table entry: two `u32` words.
pub const ENTRY_SIZE: usize = 8;

/// A range of bytes within the region.
#[derive(Debug, Clone, Copy, PartialEq, Eq, Structural)]
pub struct Span {
    pub offset: usize,
    pub size: usize,
}

/// A channel's parameters and where its body lies in the region.
#[derive(Debug, Clone, Copy, PartialEq, Eq, Structural)]
pub struct ChannelEntry {
    pub param: ChannelParam,
    pub span: Span,
}

/// The channels of a region, each direction in order.
pub struct ChannelTable {
    pub consumers: Vec<ChannelEntry>,
    pub producers: Vec<ChannelEntry>,
}

/// Total bytes of the channels `s`.
pub open spec fn total_size(s: Seq<ChannelParam>, cls: usize) -> int
    decreases s.len(),
{
    if s.len() == 0 {
        0
    } else {
        total_size(s.drop_last(), cls) + s.last().size_spec(cls)
    }
}

/// Whether every channel of `s` is valid with cache-line size `cls`.
pub open spec fn all_valid(s: Seq<ChannelParam>, cls: usize) -> bool {
    forall|i: int| 0 <= i < s.len() ==> #[trigger] s[i].valid(cls)
}

/// Whether `es` lays out the channels `ps` back to back from `offset`.
pub open spec fn laid_out(es: Seq<ChannelEntry>, ps: Seq<ChannelParam>, offset: int, cls: usize) -> bool {
    &&& es.len() == ps.len()
    &&& forall|i: int|
        0 <= i < ps.len() ==> {
            &&& (#[trigger] es[i]).param == ps[i]
            &&& es[i].span.offset == offset + total_size(ps.take(i), cls)
            &&& es[i].span.size == ps[i].size_spec(cls)
        }
}

/// The encoded entries: add_msgs then msg_size, each a little-endian `u32`.
pub open spec fn params_bytes(s: Seq<ChannelParam>) -> Seq<u8>
    decreases s.len(),
{
    if s.len() == 0 {
        seq![]
    } else {
        params_bytes(s.drop_last()) + le_u32(s.last().add_msgs as u32) + le_u32(
            s.last().msg_size as u32,
        )
    }
}

/// The parameters of entry `k` of an encoded table.
pub open spec fn entry_at(b: Seq<u8>, k: int) -> ChannelParam {
    ChannelParam {
        add_msgs: u32_at(b, ENTRY_SIZE * k) as usize,
        msg_size: u32_at(b, ENTRY_SIZE * k + 4) as usize,
    }
}

/// The `n` entries of an encoded table from entry `first` on.
pub open spec fn entries_from(b: Seq<u8>, first: int, n: int) -> Seq<ChannelParam> {
    Seq::new(n as nat, |i: int| entry_at(b, first + i))
}

pub proof fn lemma_total_step(s: Seq<ChannelParam>, i: int, cls: usize)
    requires
        0 <= i < s.len(),
    ensures
        total_size(s.take(i + 1), cls) == total_size(s.take(i), cls) + s[i].size_spec(cls),
{
    assert(s.take(i + 1).drop_last() =~= s.take(i));
}

pub proof fn lemma_total_prefix(s: Seq<ChannelParam>, i: int, cls: usize)
    requires
        0 <= i <= s.len(),
        all_valid(s, cls),
    ensures
        0 <= total_size(s.take(i), cls) <= total_size(s, cls),
    decreases s.len() - i,
{
    if i == s.len() {
        assert(s.take(i) =~= s);
        lemma_total_nonneg(s, cls);
    } else {
        lemma_total_step(s, i, cls);
        s[i].lemma_sizes(cls);
        lemma_total_prefix(s, i + 1, cls);
        assert(all_valid(s.take(i), cls)) by {
            assert forall|j: int| 0 <= j < s.take(i).len() implies #[trigger] s.take(i)[j].valid(cls) by {
                assert(s.take(i)[j] == s[j]);
            }
        }
        lemma_total_nonneg(s.take(i), cls);
    }
}

pub proof fn lemma_total_nonneg(s: Seq<ChannelParam>, cls: usize)
    requires
        all_valid(s, cls),
    ensures
        total_size(s, cls) >= 0,
    decreases s.len(),
{
    if s.len() > 0 {
        assert(all_valid(s.drop_last(), cls)) by {
            assert forall|i: int| 0 <= i < s.drop_last().len() implies #[trigger] s.drop_last()[i].valid(cls) by {
                assert(s.drop_last()[i] == s[i]);
            }
        }
        lemma_total_nonneg(s.drop_last(), cls);
        s.last().lemma_sizes(cls);
    }
}

pub proof fn lemma_total_concat(a: Seq<ChannelParam>, b: Seq<ChannelParam>, cls: usize)
    ensures
        total_size(a + b, cls) == total_size(a, cls) + total_size(b, cls),
    decreases b.len(),
{
    if b.len() == 0 {
        assert(a + b =~= a);
    } else {
        assert((a + b).drop_last() =~= a + b.drop_last());
        lemma_total_concat(a, b.drop_last(), cls);
    }
}

/// The parameters of the entries `es`.
pub open spec fn entry_params(es: Seq<ChannelEntry>) -> Seq<ChannelParam> {
    es.map_values(|e: ChannelEntry| e.param)
}

/// Which error reading a table of `num_consumers` and `num_producers` entries from `b` meets,
/// if any: too few bytes (`Size`), an entry that cannot be laid out (`Value`), or channels that
/// end beyond the address space (`Size`).
pub open spec fn table_error(
    b: Seq<u8>,
    num_consumers: usize,
    num_producers: usize,
    offset: usize,
    cls: usize,
) -> Option<MemError> {
    let producers = entries_from(b, 0, num_producers as int);
    let consumers = entries_from(b, num_producers as int, num_consumers as int);
    if (num_consumers + num_producers) * ENTRY_SIZE > b.len() {
        Some(MemError::Size)
    } else if !all_valid(producers, cls) || !all_valid(consumers, cls) {
        Some(MemError::Value)
    } else if offset + total_size(producers, cls) + total_size(consumers, cls) > usize::MAX {
        Some(MemError::Size)
    } else {
        None
    }
}

pub proof fn lemma_params_bytes_len(s: Seq<ChannelParam>)
    ensures
        params_bytes(s).len() == ENTRY_SIZE * s.len(),
    decreases s.len(),
{
    if s.len() > 0 {
        lemma_params_bytes_len(s.drop_last());
    }
}

proof fn lemma_entry_prefix(a: Seq<u8>, tail: Seq<u8>, k: int)
    requires
        0 <= k,
        ENTRY_SIZE * k + 8 <= a.len(),
    ensures
        entry_at(a + tail, k) == entry_at(a, k),
{
}

/// Each entry of an encoded table decodes to the channel it was encoded from.
pub proof fn lemma_table_round_trip(s: Seq<ChannelParam>, cls: usize)
    requires
        all_valid(s, cls),
    ensures
        params_bytes(s).len() == ENTRY_SIZE * s.len(),
        entries_from(params_bytes(s), 0, s.len() as int) == s,
    decreases s.len(),
{
    lemma_params_bytes_len(s);
    if s.len() > 0 {
        let t = s.drop_last();
        assert(all_valid(t, cls)) by {
            assert forall|i: int| 0 <= i < t.len() implies #[trigger] t[i].valid(cls) by {
                assert(t[i] == s[i]);
            }
        }
        lemma_table_round_trip(t, cls);
        lemma_params_bytes_len(t);
        let last = s.last();
        assert(last.valid(cls));
        let pa = le_u32(last.add_msgs as u32);
        let pm = le_u32(last.msg_size as u32);
        lemma_u32_round_trip(last.add_msgs as u32);
        lemma_u32_round_trip(last.msg_size as u32);
        let b = params_bytes(s);
        assert(b == params_bytes(t) + (pa + pm));
        assert forall|k: int| 0 <= k < s.len() implies #[trigger] entries_from(b, 0, s.len() as int)[k] == s[k] by {
            if k < t.len() {
                lemma_entry_prefix(params_bytes(t), pa + pm, k);
                assert(entries_from(params_bytes(t), 0, t.len() as int)[k] == t[k]);
            } else {
                let e = entry_at(b, k);
                assert(u32_at(b, ENTRY_SIZE * k) == u32_at(pa, 0));
                assert(u32_at(b, ENTRY_SIZE * k + 4) == u32_at(pm, 0));
                assert(e == last);
            }
        }
        assert(entries_from(b, 0, s.len() as int) =~= s);
    }
}

/// `offset` plus the bytes of `params`, where that fits `usize`.
pub fn checked_end(params: &[ChannelParam], offset: usize, cls: usize) -> (r: Option<usize>)
    requires
        all_valid(params@, cls),
    ensures
        r.is_some() == (offset + total_size(params@, cls) <= usize::MAX),
        r matches Some(v) ==> v == offset + total_size(params@, cls),
{
    let mut end = offset;
    let mut i: usize = 0;
    while i < params.len()
        invariant
            i <= params@.len(),
            all_valid(params@, cls),
            end == offset + total_size(params@.take(i as int), cls),
        decreases params.len() - i,
    {
        assert(params@[i as int].valid(cls));
        proof {
            lemma_total_step(params@, i as int, cls);
            lemma_total_prefix(params@, i as int + 1, cls);
        }
        let size = params[i].size(cls);
        if end > usize::MAX - size {
            return None;
        }
        end = end + size;
        i = i + 1;
    }
    assert(params@.take(i as int) =~= params@);
    Some(end)
}

/// Reads `n` entries from entry `first` on.
fn read_params(b: &[u8], first: usize, n: usize) -> (r: Vec<ChannelParam>)
    requires
        (first + n) * ENTRY_SIZE <= b@.len(),
    ensures
        r@ == entries_from(b@, first as int, n as int),
{
    let mut out: Vec<ChannelParam> = Vec::new();
    let mut i: usize = 0;
    let len = b.len();
    while i < n
        invariant
            i <= n,
            len == b@.len(),
            (first + n) * ENTRY_SIZE <= b@.len(),
            out@ =~= entries_from(b@, first as int, i as int),
        decreases n - i,
    {
        proof {
            let f = first as int;
            let ii = i as int;
            let nn = n as int;
            assert((f + ii) * 8 + 8 <= (f + nn) * 8) by (nonlinear_arith)
                requires ii < nn, f >= 0;
            assert((f + ii) * 8 <= usize::MAX);
        }
        let at = (first + i) * ENTRY_SIZE;
        let add_msgs = read_u32(b, at) as usize;
        let msg_size = read_u32(b, at + 4) as usize;
        out.push(ChannelParam { add_msgs, msg_size });
        i = i + 1;
    }
    out
}

/// Whether every channel of `params` is valid.
pub fn check_valid(params: &[ChannelParam], cls: usize) -> (r: bool)
    ensures
        r == all_valid(params@, cls),
{
    let mut i: usize = 0;
    while i < params.len()
        invariant
            i <= params@.len(),
            forall|j: int| 0 <= j < i ==> #[trigger] params@[j].valid(cls),
        decreases params.len() - i,
    {
        if params[i].checked_size(cls).is_none() {
            return false;
        }
        i = i + 1;
    }
    true
}

/// Lays out `params` back to back from `offset`.
fn lay_out(params: &[ChannelParam], offset: usize, cls: usize) -> (r: (Vec<ChannelEntry>, usize))
    requires
        all_valid(params@, cls),
        offset + total_size(params@, cls) <= usize::MAX,
    ensures
        laid_out(r.0@, params@, offset as int, cls),
        r.1 == offset + total_size(params@, cls),
{
    let mut entries: Vec<ChannelEntry> = Vec::new();
    let mut end = offset;
    let mut i: usize = 0;
    while i < params.len()
        invariant
            i <= params@.len(),
            all_valid(params@, cls),
            offset + total_size(params@, cls) <= usize::MAX,
            end == offset + total_size(params@.take(i as int), cls),
            entries@.len() == i,
            forall|j: int|
                0 <= j < i ==> {
                    &&& (#[trigger] entries@[j]).param == params@[j]
                    &&& entries@[j].span.offset == offset + total_size(params@.take(j), cls)
                    &&& entries@[j].span.size == params@[j].size_spec(cls)
                },
        decreases params.len() - i,
    {
        let param = params[i];
        assert(params@[i as int].valid(cls));
        proof {
            lemma_total_step(params@, i as int, cls);
            lemma_total_prefix(params@, i as int + 1, cls);
        }
        let size = param.size(cls);
        entries.push(ChannelEntry { param, span: Span { offset: end, size } });
        end = end + size;
        i = i + 1;
    }
    assert(params@.take(i as int) =~= params@);
    (entries, end)
}

impl ChannelTable {
    /// The table of a creator: its consumer channels from `offset` on, then its producer
    /// channels right after them.
    pub fn new(
        param_consumers: &[ChannelParam],
        param_producers: &[ChannelParam],
        offset: usize,
        cls: usize,
    ) -> (r: ChannelTable)
        requires
            all_valid(param_consumers@, cls),
            all_valid(param_producers@, cls),
            offset + total_size(param_consumers@, cls) + total_size(param_producers@, cls)
                <= usize::MAX,
        ensures
            laid_out(r.consumers@, param_consumers@, offset as int, cls),
            laid_out(
                r.producers@,
                param_producers@,
                offset + total_size(param_consumers@, cls),
                cls,
            ),
    {
        proof {
            lemma_total_nonneg(param_producers@, cls);
        }
        let (consumers, end) = lay_out(param_consumers, offset, cls);
        let (producers, _) = lay_out(param_producers, end, cls);
        ChannelTable { consumers, producers }
    }

    /// Offset of entry `idx` within the table.
    pub fn calc_offset(idx: usize) -> (r: usize)
        requires
            idx * ENTRY_SIZE <= usize::MAX,
        ensures
            r == idx * ENTRY_SIZE,
    {
        idx * ENTRY_SIZE
    }

    /// Bytes of a table of `num_channels` entries.
    pub fn calc_size(num_channels: usize) -> (r: usize)
        requires
            num_channels > 0,
            num_channels * ENTRY_SIZE <= usize::MAX,
        ensures
            r == num_channels * ENTRY_SIZE,
            r > 0,
    {
        ChannelTable::calc_offset(num_channels)
    }

    /// The encoded table: the consumer entries, then the producer entries.
    pub fn to_bytes(&self) -> (r: Vec<u8>)
        ensures
            r@ == params_bytes(entry_params(self.consumers@) + entry_params(self.producers@)),
    {
        let ghost cs = entry_params(self.consumers@);
        let ghost ps = entry_params(self.producers@);
        let mut out: Vec<u8> = Vec::new();
        let mut i: usize = 0;
        while i < self.consumers.len()
            invariant
                i <= self.consumers@.len(),
                cs == entry_params(self.consumers@),
                out@ == params_bytes(cs.take(i as int)),
            decreases self.consumers.len() - i,
        {
            let p = self.consumers[i].param;
            assert(cs.take(i + 1).drop_last() =~= cs.take(i as int));
            push_u32(&mut out, p.add_msgs as u32);
            push_u32(&mut out, p.msg_size as u32);
            i = i + 1;
        }
        assert(cs.take(i as int) =~= cs);
        let mut j: usize = 0;
        while j < self.producers.len()
            invariant
                j <= self.producers@.len(),
                ps == entry_params(self.producers@),
                out@ == params_bytes(cs + ps.take(j as int)),
            decreases self.producers.len() - j,
        {
            let p = self.producers[j].param;
            assert((cs + ps.take(j + 1)).drop_last() =~= cs + ps.take(j as int));
            push_u32(&mut out, p.add_msgs as u32);
            push_u32(&mut out, p.msg_size as u32);
            j = j + 1;
        }
        assert(ps.take(j as int) =~= ps);
        out
    }

    /// The table as an attaching process reads it: the creator's consumer entries, which come
    /// first, are its producers; the rest are its consumers. Channels are laid out from
    /// `offset` in the order of the entries.
    pub fn from_bytes(
        b: &[u8],
        num_consumers: usize,
        num_producers: usize,
        offset: usize,
        cls: usize,
    ) -> (r: Result<ChannelTable, MemError>)
        ensures
            match table_error(b@, num_consumers, num_producers, offset, cls) {
                Some(e) => r == Err::<ChannelTable, MemError>(e),
                None => r matches Ok(t) && {
                    let producers = entries_from(b@, 0, num_producers as int);
                    let consumers = entries_from(b@, num_producers as int, num_consumers as int);
                    &&& laid_out(t.producers@, producers, offset as int, cls)
                    &&& laid_out(
                        t.consumers@,
                        consumers,
                        offset + total_size(producers, cls),
                        cls,
                    )
                },
            },
    {
        let room = b.len() / ENTRY_SIZE;
        proof {
            let l = b@.len() as int;
            let nn = num_consumers + num_producers;
            assert(nn * 8 <= l <==> nn <= l / 8) by (nonlinear_arith)
                requires l >= 0, nn >= 0;
        }
        if num_producers > room || num_consumers > room - num_producers {
            return Err(MemError::Size);
        }
        let producers = read_params(b, 0, num_producers);
        let consumers = read_params(b, num_producers, num_consumers);
        if !check_valid(producers.as_slice(), cls) || !check_valid(consumers.as_slice(), cls) {
            return Err(MemError::Value);
        }
        let mid = match checked_end(producers.as_slice(), offset, cls) {
            Some(v) => v,
            None => {
                proof { lemma_total_nonneg(consumers@, cls); }
                return Err(MemError::Size);
            },
        };
        let end = checked_end(consumers.as_slice(), mid, cls);
        if end.is_none() {
            return Err(MemError::Size);
        }
        let (ps, mid2) = lay_out(producers.as_slice(), offset, cls);
        let (cs, _) = lay_out(consumers.as_slice(), mid2, cls);
        Ok(ChannelTable { consumers: cs, producers: ps })
    }
}

} // verus!
