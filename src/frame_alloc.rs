//! The physical frame allocator the mapper draws new tables from.
use vstd::prelude::*;
use crate::addr::Frame;

verus! {

/// A source of free physical frames; `None` means memory is exhausted.
pub trait FrameAllocator {
    fn allocate_frame(&mut self) -> Option<Frame>;
}

} // verus!
