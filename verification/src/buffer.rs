//! Buffers of bytes, as the contracts speak of them.

use vstd::prelude::*;

verus! {

/// The `len` bytes of `data` from `start` on.
pub open spec fn window(data: Seq<u8>, start: int, len: nat) -> Seq<u8> {
    data.subrange(start, start + len)
}

/// A window of `len` bytes that starts at `start` lies inside `data`.
pub open spec fn is_window(data: Seq<u8>, start: int, len: nat) -> bool {
    0 <= start && start + len <= data.len()
}

} // verus!
