use vstd::prelude::*;

verus! {

/// Lower bound for the cache-line size: the alignment of the widest scalar.
pub const MIN_CACHELINE: usize = 8;

/// `size` rounded up to the next multiple of `alignment`.
pub open spec fn align_up(size: int, alignment: int) -> int {
    ((size + alignment - 1) / alignment) * alignment
}

/// The cache-line size resolved from the L1 and L2 data-cache line sizes the host reports.
pub open spec fn resolved_cacheline(l1: Option<usize>, l2: Option<usize>) -> int {
    let a = match l1 {
        Some(s) => if s > MIN_CACHELINE { s as int } else { MIN_CACHELINE as int },
        None => MIN_CACHELINE as int,
    };
    match l2 {
        Some(s) => if s > a { s as int } else { a },
        None => a,
    }
}

/// Relies on cache_size::cache_line_size: the line size of the data cache of the given level,
/// as the processor reports it; `None` where it reports none.
#[verifier::external_body]
fn data_cache_line_size(level: u8) -> (r: Option<usize>) {
    cache_size::cache_line_size(level, cache_size::CacheType::Data)
}

/// Combines the reported L1 and L2 data-cache line sizes: the largest of them and of
/// `MIN_CACHELINE`.
pub fn resolve_cacheline_size(l1: Option<usize>, l2: Option<usize>) -> (r: usize)
    ensures
        r == resolved_cacheline(l1, l2),
        r >= MIN_CACHELINE,
{
    let mut cls: usize = MIN_CACHELINE;
    if let Some(s) = l1 {
        if s > cls {
            cls = s;
        }
    }
    if let Some(s) = l2 {
        if s > cls {
            cls = s;
        }
    }
    cls
}

/// The cache-line size of this host: at least `MIN_CACHELINE`, and the largest of the L1 and L2
/// data-cache line sizes.
pub fn max_cacheline_size() -> (r: usize)
    ensures
        r >= MIN_CACHELINE,
{
    let l1 = data_cache_line_size(1);
    let l2 = data_cache_line_size(2);
    resolve_cacheline_size(l1, l2)
}

/// Rounds `size` up to a multiple of `alignment`.
pub fn mem_align(size: usize, alignment: usize) -> (r: usize)
    requires
        alignment > 0,
        size + alignment - 1 <= usize::MAX,
    ensures
        r == align_up(size as int, alignment as int),
        r % alignment == 0,
        size <= r < size + alignment,
{
    let q = (size + (alignment - 1)) / alignment;
    proof {
        let s = size as int;
        let a = alignment as int;
        let qq = (s + a - 1) / a;
        assert(qq * a <= s + a - 1 && s + a - 1 < qq * a + a) by (nonlinear_arith)
            requires a > 0, qq == (s + a - 1) / a;
        assert((qq * a) % a == 0) by (nonlinear_arith) requires a > 0;
        assert(qq * a <= usize::MAX);
    }
    q * alignment
}

/// Rounds `size` up to a multiple of the cache-line size `cacheline`.
pub fn cacheline_aligned(size: usize, cacheline: usize) -> (r: usize)
    requires
        cacheline > 0,
        size + cacheline - 1 <= usize::MAX,
    ensures
        r == align_up(size as int, cacheline as int),
        r % cacheline == 0,
        size <= r < size + cacheline,
{
    mem_align(size, cacheline)
}

} // verus!
