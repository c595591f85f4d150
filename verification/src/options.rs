use vstd::prelude::*;

verus! {

/// Configuration for one dump operation, resolved to concrete values by the
/// caller before rendering begins.
#[derive(Clone, Copy, Debug)]
pub struct DumpOptions {
    /// Number of bytes rendered per output line; must be positive.
    pub bytes_per_line: u64,
    /// Byte offset into the source buffer where rendering begins.
    pub start_offset: u64,
    /// Number of bytes to render starting at `start_offset`.
    pub dump_length: u64,
    /// Selects uppercase or lowercase hex digits.
    pub uppercase: bool,
}

/// Why a dump request was rejected.
#[derive(Clone, Copy, Debug, PartialEq, Eq, Structural)]
pub enum DumpError {
    /// `bytes_per_line` is zero.
    InvalidConfiguration,
    /// The window does not lie inside the buffer.
    InvalidRange,
}

/// The window `[start_offset, start_offset + dump_length)` lies inside the
/// buffer, and a non-empty buffer rejects a start offset at or past its end.
/// An empty buffer admits only the empty window at offset zero.
pub open spec fn valid_range(opts: DumpOptions, buffer_len: nat) -> bool {
    &&& opts.start_offset + opts.dump_length <= buffer_len
    &&& (opts.start_offset < buffer_len || buffer_len == 0)
}

/// The whole configuration is acceptable for a buffer of the given length.
pub open spec fn valid_options(opts: DumpOptions, buffer_len: nat) -> bool {
    opts.bytes_per_line > 0 && valid_range(opts, buffer_len)
}

} // verus!
