use vstd::prelude::*;

use crate::codec::{
    le_u16, le_u32, lemma_u16_round_trip, lemma_u32_round_trip, push_u16, push_u32, read_u16,
    read_u32, u16_at, u32_at,
};
use crate::error::HeaderError;
use crate::INDEX_SIZE;

verus! {

/// Magic number at the start of every region.
pub const RTIC_MAGIC: u16 = 0x1f0c;

/// Version of the layout.
pub const RTIC_VERSION: u16 = 1;

/// Bytes of the encoded header.
pub const HEADER_SIZE: usize = 20;

/// The block at offset 0 of a region: identity, channel counts and ABI tags.
///
/// `num_channels` holds the creator's consumer count, then its producer count. An attaching
/// process plays the opposite roles: its producers are the creator's consumers.
#[derive(Debug, Clone, Copy, PartialEq, Eq)]
pub struct Header {
    pub magic: u16,
    pub version: u16,
    pub cookie: u32,
    pub num_channels: [u32; 2],
    pub cacheline_size: u16,
    pub atomic_size: u16,
}

/// The encoded header: each field little-endian, in declaration order, without padding.
pub open spec fn header_bytes(h: Header) -> Seq<u8> {
    le_u16(h.magic) + le_u16(h.version) + le_u32(h.cookie) + le_u32(h.num_channels@[0]) + le_u32(
        h.num_channels@[1],
    ) + le_u16(h.cacheline_size) + le_u16(h.atomic_size)
}

/// The header that the first `HEADER_SIZE` bytes of `b` encode.
pub open spec fn decode_header(b: Seq<u8>) -> Header {
    Header {
        magic: u16_at(b, 0),
        version: u16_at(b, 2),
        cookie: u32_at(b, 4),
        num_channels: [u32_at(b, 8), u32_at(b, 12)],
        cacheline_size: u16_at(b, 16),
        atomic_size: u16_at(b, 18),
    }
}

/// Validation of an encoded header against the expected cookie and this host's cache-line
/// size: the first mismatch in the order size, magic, version, cookie, cache-line size, atomic
/// size.
pub open spec fn check_header(b: Seq<u8>, cookie: u32, cacheline_size: u16) -> Result<
    Header,
    HeaderError,
> {
    let h = decode_header(b);
    if b.len() < HEADER_SIZE {
        Err(HeaderError::Size)
    } else if h.magic != RTIC_MAGIC {
        Err(HeaderError::Magic)
    } else if h.version != RTIC_VERSION {
        Err(HeaderError::Version)
    } else if h.cookie != cookie {
        Err(HeaderError::Cookie)
    } else if h.cacheline_size != cacheline_size {
        Err(HeaderError::CachelineSize)
    } else if h.atomic_size != INDEX_SIZE {
        Err(HeaderError::AtomicSize)
    } else {
        Ok(h)
    }
}

impl Header {
    /// The header a creator writes: its consumer and producer counts, its cookie, and the
    /// cache-line size and index size of this host.
    pub fn new(num_consumers: u32, num_producers: u32, cookie: u32, cacheline_size: u16) -> (r:
        Header)
        ensures
            r.magic == RTIC_MAGIC,
            r.version == RTIC_VERSION,
            r.cookie == cookie,
            r.num_channels@ == seq![num_consumers, num_producers],
            r.cacheline_size == cacheline_size,
            r.atomic_size == INDEX_SIZE,
    {
        let num_channels: [u32; 2] = [num_consumers, num_producers];
        assert(num_channels@ =~= seq![num_consumers, num_producers]);
        Header {
            magic: RTIC_MAGIC,
            version: RTIC_VERSION,
            cookie,
            num_channels,
            cacheline_size,
            atomic_size: INDEX_SIZE as u16,
        }
    }

    /// The encoded header.
    pub fn to_bytes(&self) -> (r: Vec<u8>)
        ensures
            r@ == header_bytes(*self),
            r@.len() == HEADER_SIZE,
    {
        let mut out: Vec<u8> = Vec::new();
        push_u16(&mut out, self.magic);
        push_u16(&mut out, self.version);
        push_u32(&mut out, self.cookie);
        push_u32(&mut out, self.num_channels[0]);
        push_u32(&mut out, self.num_channels[1]);
        push_u16(&mut out, self.cacheline_size);
        push_u16(&mut out, self.atomic_size);
        assert(out@ =~= header_bytes(*self));
        out
    }

    /// Reads and validates the header at the start of `b`.
    pub fn from_bytes(b: &[u8], cookie: u32, cacheline_size: u16) -> (r: Result<Header, HeaderError>)
        ensures
            r == check_header(b@, cookie, cacheline_size),
    {
        if b.len() < HEADER_SIZE {
            return Err(HeaderError::Size);
        }
        let c0 = read_u32(b, 8);
        let c1 = read_u32(b, 12);
        let h = Header {
            magic: read_u16(b, 0),
            version: read_u16(b, 2),
            cookie: read_u32(b, 4),
            num_channels: [c0, c1],
            cacheline_size: read_u16(b, 16),
            atomic_size: read_u16(b, 18),
        };
        assert(h.num_channels@ =~= decode_header(b@).num_channels@);
        if h.magic != RTIC_MAGIC {
            return Err(HeaderError::Magic);
        }
        if h.version != RTIC_VERSION {
            return Err(HeaderError::Version);
        }
        if h.cookie != cookie {
            return Err(HeaderError::Cookie);
        }
        if h.cacheline_size != cacheline_size {
            return Err(HeaderError::CachelineSize);
        }
        if h.atomic_size != INDEX_SIZE as u16 {
            return Err(HeaderError::AtomicSize);
        }
        Ok(h)
    }
}


/// An encoded header decodes to the same header.
pub proof fn lemma_header_round_trip(h: Header)
    ensures
        header_bytes(h).len() == HEADER_SIZE,
        decode_header(header_bytes(h)) == h,
{
    let b = header_bytes(h);
    lemma_u16_round_trip(h.magic);
    lemma_u16_round_trip(h.version);
    lemma_u32_round_trip(h.cookie);
    lemma_u32_round_trip(h.num_channels@[0]);
    lemma_u32_round_trip(h.num_channels@[1]);
    lemma_u16_round_trip(h.cacheline_size);
    lemma_u16_round_trip(h.atomic_size);
    assert(b.subrange(0, 2) =~= le_u16(h.magic));
    assert(b.subrange(2, 4) =~= le_u16(h.version));
    assert(b.subrange(4, 8) =~= le_u32(h.cookie));
    assert(b.subrange(8, 12) =~= le_u32(h.num_channels@[0]));
    assert(b.subrange(12, 16) =~= le_u32(h.num_channels@[1]));
    assert(b.subrange(16, 18) =~= le_u16(h.cacheline_size));
    assert(b.subrange(18, 20) =~= le_u16(h.atomic_size));
    let d = decode_header(b);
    assert(d.magic == u16_at(b.subrange(0, 2), 0));
    assert(d.version == u16_at(b.subrange(2, 4), 0));
    assert(d.cookie == u32_at(b.subrange(4, 8), 0));
    assert(d.num_channels@[0] == u32_at(b.subrange(8, 12), 0));
    assert(d.num_channels@[1] == u32_at(b.subrange(12, 16), 0));
    assert(d.cacheline_size == u16_at(b.subrange(16, 18), 0));
    assert(d.atomic_size == u16_at(b.subrange(18, 20), 0));
    assert(d.num_channels@ =~= h.num_channels@);
    assert(d.num_channels =~= h.num_channels);
}

/// A header written by a creator is accepted by a peer with the same cookie and cache-line
/// size; otherwise the peer is refused with `Cookie` first, then `CachelineSize`. Magic,
/// version and index size always match between two hosts that run this library.
pub proof fn lemma_header_validation(h: Header, cookie: u32, cacheline_size: u16)
    requires
        h.magic == RTIC_MAGIC,
        h.version == RTIC_VERSION,
        h.atomic_size == INDEX_SIZE,
    ensures
        check_header(header_bytes(h), cookie, cacheline_size) == (if h.cookie != cookie {
            Err::<Header, HeaderError>(HeaderError::Cookie)
        } else if h.cacheline_size != cacheline_size {
            Err(HeaderError::CachelineSize)
        } else {
            Ok(h)
        }),
{
    lemma_header_round_trip(h);
}

} // verus!
