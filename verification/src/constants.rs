use vstd::prelude::*;

verus! {

/// The default prime, `3 * 2^30 + 1`.
pub const DEFAULT_FIELD_SIZE: i128 = 3221225473;

/// How many times longer the extended trace is than the trace itself.
pub const EXTENSION_FACTOR: usize = 4;

} // verus!
