use vstd::prelude::*;

verus! {

/// Errors of memory layout: bounds, alignment, a stored value, an index.
#[derive(Debug, Clone, Copy, PartialEq, Eq, Structural)]
pub enum MemError {
    Size,
    Alignment,
    Value,
    Index,
}

} // verus!

verus! {

/// Errors of header validation, one per field, so that a caller can tell an ABI mismatch from an
/// identity mismatch.
#[derive(Debug, Clone, Copy, PartialEq, Eq, Structural)]
pub enum HeaderError {
    Size,
    Magic,
    Version,
    Cookie,
    CachelineSize,
    AtomicSize,
}

/// Errors of taking a channel handle.
#[derive(Debug, Clone, Copy, PartialEq, Eq, Structural)]
pub enum ChannelError {
    /// The handle was already taken.
    Index,
    Mem(MemError),
}


/// Declares the error type of the operating-system calls, carried through unchanged.
#[verifier::external_type_specification]
#[verifier::external_body]
pub struct ExErrno(nix::errno::Errno);

/// Errors of creating or attaching a region.
#[derive(Debug)]
pub enum CreateError {
    Argument,
    Mem(MemError),
    Header(HeaderError),
    Errno(nix::errno::Errno),
    Unknown(u32),
}


impl From<MemError> for ChannelError {
    fn from(e: MemError) -> (r: ChannelError) {
        ChannelError::Mem(e)
    }
}

impl vstd::std_specs::convert::FromSpecImpl<MemError> for ChannelError {
    open spec fn obeys_from_spec() -> bool {
        true
    }

    open spec fn from_spec(e: MemError) -> ChannelError {
        ChannelError::Mem(e)
    }
}

/// Any layout error while reading a header means it does not fit.
impl From<MemError> for HeaderError {
    fn from(e: MemError) -> (r: HeaderError) {
        HeaderError::Size
    }
}

impl vstd::std_specs::convert::FromSpecImpl<MemError> for HeaderError {
    open spec fn obeys_from_spec() -> bool {
        true
    }

    open spec fn from_spec(e: MemError) -> HeaderError {
        HeaderError::Size
    }
}

impl From<MemError> for CreateError {
    fn from(e: MemError) -> (r: CreateError) {
        CreateError::Mem(e)
    }
}

impl vstd::std_specs::convert::FromSpecImpl<MemError> for CreateError {
    open spec fn obeys_from_spec() -> bool {
        true
    }

    open spec fn from_spec(e: MemError) -> CreateError {
        CreateError::Mem(e)
    }
}

impl From<HeaderError> for CreateError {
    fn from(e: HeaderError) -> (r: CreateError) {
        CreateError::Header(e)
    }
}

impl vstd::std_specs::convert::FromSpecImpl<HeaderError> for CreateError {
    open spec fn obeys_from_spec() -> bool {
        true
    }

    open spec fn from_spec(e: HeaderError) -> CreateError {
        CreateError::Header(e)
    }
}

impl From<nix::errno::Errno> for CreateError {
    fn from(e: nix::errno::Errno) -> (r: CreateError) {
        CreateError::Errno(e)
    }
}

impl vstd::std_specs::convert::FromSpecImpl<nix::errno::Errno> for CreateError {
    open spec fn obeys_from_spec() -> bool {
        true
    }

    open spec fn from_spec(e: nix::errno::Errno) -> CreateError {
        CreateError::Errno(e)
    }
}

} // verus!
