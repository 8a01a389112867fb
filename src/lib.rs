use vstd::prelude::*;

pub mod addr;
pub mod entry;
pub mod memory;
pub mod frame_alloc;
pub mod tlb;
pub mod state;
pub mod tree;
pub mod recursive;
pub mod laws;
