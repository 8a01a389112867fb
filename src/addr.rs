//! Physical and virtual addresses, pages and frames for a three-level
//! (Sv39-style) paging scheme: 4 KiB pages, 512 entries per table.
use vstd::prelude::*;
use vstd::arithmetic::div_mod::lemma_fundamental_div_mod_converse;

verus! {

/// Bytes in one page or frame.
pub const PAGE_SIZE: u64 = 4096;

/// Entries in one page table.
pub const ENTRY_COUNT: usize = 512;

/// Number of distinct virtual page numbers (27 bits of index).
pub const PAGE_NUMBER_LIMIT: usize = 134217728;

/// Number of distinct physical frame numbers (44 bits of frame number).
pub const FRAME_NUMBER_LIMIT: u64 = 17592186044416;

/// Index into the level-1 (leaf) table for a virtual page number.
pub open spec fn p1_of(n: nat) -> nat {
    n % 512
}

/// Index into the level-2 table for a virtual page number.
pub open spec fn p2_of(n: nat) -> nat {
    (n / 512) % 512
}

/// Index into the level-3 (root) table for a virtual page number.
pub open spec fn p3_of(n: nat) -> nat {
    (n / 262144) % 512
}

/// The virtual page number with the given table indices.
pub open spec fn page_number_of(p3: nat, p2: nat, p1: nat) -> nat {
    p3 * 262144 + p2 * 512 + p1
}

/// Splitting a page number built from three indices gives the indices back.
pub proof fn lemma_indices_round_trip(p3: nat, p2: nat, p1: nat)
    requires
        p3 < 512,
        p2 < 512,
        p1 < 512,
    ensures
        p3_of(page_number_of(p3, p2, p1)) == p3,
        p2_of(page_number_of(p3, p2, p1)) == p2,
        p1_of(page_number_of(p3, p2, p1)) == p1,
        page_number_of(p3, p2, p1) < PAGE_NUMBER_LIMIT,
{
    let n = page_number_of(p3, p2, p1);
    let hi = p3 * 512 + p2;
    assert(n == hi * 512 + p1);
    lemma_fundamental_div_mod_converse(n as int, 512, hi as int, p1 as int);
    lemma_fundamental_div_mod_converse(hi as int, 512, p3 as int, p2 as int);
    lemma_fundamental_div_mod_converse(n as int, 262144, p3 as int, (p2 * 512 + p1) as int);
    lemma_fundamental_div_mod_converse(p3 as int, 512, 0, p3 as int);
}

/// A physical address.
#[derive(Clone, Copy, Debug, PartialEq, Eq, Structural)]
pub struct PhysAddr(pub u64);

/// A virtual address.
#[derive(Clone, Copy, Debug, PartialEq, Eq, Structural)]
pub struct VirtAddr(pub u64);

impl PhysAddr {
    pub fn new(addr: u64) -> (r: PhysAddr)
        ensures
            r.0 == addr,
    {
        PhysAddr(addr)
    }

    pub fn as_u64(&self) -> (r: u64)
        ensures
            r == self.0,
    {
        self.0
    }
}

impl VirtAddr {
    pub fn new(addr: u64) -> (r: VirtAddr)
        ensures
            r.0 == addr,
    {
        VirtAddr(addr)
    }

    pub fn as_u64(&self) -> (r: u64)
        ensures
            r == self.0,
    {
        self.0
    }
}

/// A 4 KiB page of virtual memory, identified by its page number.
#[derive(Clone, Copy, Debug, PartialEq, Eq, Structural)]
pub struct Page {
    number: usize,
}

impl View for Page {
    type V = nat;

    closed spec fn view(&self) -> nat {
        self.number as nat
    }
}

impl Page {
    #[verifier::type_invariant]
    spec fn in_range(self) -> bool {
        self.number < PAGE_NUMBER_LIMIT
    }

    /// The page that contains `addr`; address bits above the indexed range are ignored.
    pub fn of_addr(addr: VirtAddr) -> (r: Page)
        ensures
            r@ == (addr.0 as nat / 4096) % (PAGE_NUMBER_LIMIT as nat),
    {
        Page { number: ((addr.0 / PAGE_SIZE) % 134217728) as usize }
    }

    /// The page whose table indices are `p3`, `p2` and `p1`, from the root down.
    pub fn from_page_table_indices(p3: usize, p2: usize, p1: usize) -> (r: Page)
        requires
            p3 < ENTRY_COUNT,
            p2 < ENTRY_COUNT,
            p1 < ENTRY_COUNT,
        ensures
            r@ == page_number_of(p3 as nat, p2 as nat, p1 as nat),
            p3_of(r@) == p3,
            p2_of(r@) == p2,
            p1_of(r@) == p1,
    {
        proof {
            lemma_indices_round_trip(p3 as nat, p2 as nat, p1 as nat);
        }
        Page { number: p3 * 262144 + p2 * 512 + p1 }
    }

    pub fn start_address(&self) -> (r: VirtAddr)
        ensures
            r.0 == self@ * 4096,
    {
        proof {
            use_type_invariant(self);
        }
        VirtAddr(self.number as u64 * PAGE_SIZE)
    }

    pub fn p3_index(&self) -> (r: usize)
        ensures
            r == p3_of(self@),
            r < ENTRY_COUNT,
    {
        (self.number / 262144) % ENTRY_COUNT
    }

    pub fn p2_index(&self) -> (r: usize)
        ensures
            r == p2_of(self@),
            r < ENTRY_COUNT,
    {
        (self.number / ENTRY_COUNT) % ENTRY_COUNT
    }

    pub fn p1_index(&self) -> (r: usize)
        ensures
            r == p1_of(self@),
            r < ENTRY_COUNT,
    {
        self.number % ENTRY_COUNT
    }
}

/// A 4 KiB frame of physical memory, identified by its frame number.
#[derive(Clone, Copy, Debug, PartialEq, Eq, Structural)]
pub struct Frame {
    number: u64,
}

impl View for Frame {
    type V = nat;

    closed spec fn view(&self) -> nat {
        self.number as nat
    }
}

impl Frame {
    #[verifier::type_invariant]
    spec fn in_range(self) -> bool {
        self.number < FRAME_NUMBER_LIMIT
    }

    /// Two frames with the same number are the same frame.
    pub broadcast proof fn lemma_view_injective(a: Frame, b: Frame)
        ensures
            #[trigger] (a@) == #[trigger] (b@) <==> a == b,
    {
    }

    /// The frame that contains `addr`; address bits above the frame-number range are ignored.
    pub fn of_addr(addr: PhysAddr) -> (r: Frame)
        ensures
            r@ == (addr.0 as nat / 4096) % (FRAME_NUMBER_LIMIT as nat),
    {
        Frame { number: (addr.0 / PAGE_SIZE) % FRAME_NUMBER_LIMIT }
    }

    /// The frame with the given number.
    pub fn from_number(number: u64) -> (r: Frame)
        requires
            number < FRAME_NUMBER_LIMIT,
        ensures
            r@ == number,
    {
        Frame { number }
    }

    pub fn number(&self) -> (r: u64)
        ensures
            r == self@,
    {
        self.number
    }

    pub fn start_address(&self) -> (r: PhysAddr)
        ensures
            r.0 == self@ * 4096,
    {
        proof {
            use_type_invariant(self);
        }
        PhysAddr(self.number * PAGE_SIZE)
    }
}

} // verus!
