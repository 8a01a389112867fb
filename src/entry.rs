//! Page-table entries and their flag set.
use vstd::prelude::*;
use crate::addr::Frame;

verus! {

broadcast use crate::addr::Frame::lemma_view_injective;

/// The permission and status bits of a page-table entry.
///
/// An entry with `valid` set and neither `readable` nor `writable` points at
/// the next table down; with either of those set it maps a page.
#[derive(Clone, Copy, Debug, PartialEq, Eq, Structural)]
pub struct PageTableFlags {
    pub valid: bool,
    pub readable: bool,
    pub writable: bool,
    pub executable: bool,
    pub user: bool,
    pub global: bool,
    pub accessed: bool,
    pub dirty: bool,
}

impl PageTableFlags {
    pub open spec fn spec_empty() -> PageTableFlags {
        PageTableFlags {
            valid: false,
            readable: false,
            writable: false,
            executable: false,
            user: false,
            global: false,
            accessed: false,
            dirty: false,
        }
    }

    /// No flag set.
    pub fn empty() -> (r: PageTableFlags)
        ensures
            r == Self::spec_empty(),
    {
        PageTableFlags {
            valid: false,
            readable: false,
            writable: false,
            executable: false,
            user: false,
            global: false,
            accessed: false,
            dirty: false,
        }
    }

    /// Only `valid`: the flags of an entry that points at a lower table.
    pub fn table_pointer() -> (r: PageTableFlags)
        ensures
            r == (PageTableFlags { valid: true, ..Self::spec_empty() }),
    {
        PageTableFlags { valid: true, ..Self::empty() }
    }
}

/// One slot of a page table: a frame and the flags that govern it.
#[derive(Clone, Copy, Debug, PartialEq, Eq, Structural)]
pub struct PageTableEntry {
    pub frame: Frame,
    pub flags: PageTableFlags,
}

impl PageTableEntry {
    /// An all-zero entry: no frame, no flag.
    pub open spec fn spec_is_unused(self) -> bool {
        self.frame@ == 0 && self.flags == PageTableFlags::spec_empty()
    }

    /// A valid entry that grants neither read nor write access: the walk descends
    /// through it to the next table.
    pub open spec fn spec_is_table_pointer(self) -> bool {
        self.flags.valid && !self.flags.readable && !self.flags.writable
    }

    /// A valid entry above the leaf level that grants read or write access
    /// maps a huge page instead of pointing at a table.
    pub open spec fn spec_is_huge(self) -> bool {
        self.flags.valid && (self.flags.readable || self.flags.writable)
    }

    pub fn new(frame: Frame, flags: PageTableFlags) -> (r: PageTableEntry)
        ensures
            r == (PageTableEntry { frame, flags }),
    {
        PageTableEntry { frame, flags }
    }

    /// The all-zero entry.
    pub fn unused() -> (r: PageTableEntry)
        ensures
            r.spec_is_unused(),
    {
        PageTableEntry { frame: Frame::from_number(0), flags: PageTableFlags::empty() }
    }

    pub fn is_table_pointer(&self) -> (r: bool)
        ensures
            r == self.spec_is_table_pointer(),
    {
        self.flags.valid && !self.flags.readable && !self.flags.writable
    }

    pub fn is_huge(&self) -> (r: bool)
        ensures
            r == self.spec_is_huge(),
    {
        self.flags.valid && (self.flags.readable || self.flags.writable)
    }

    pub fn is_unused(&self) -> (r: bool)
        ensures
            r == self.spec_is_unused(),
    {
        self.frame.number() == 0 && self.flags == PageTableFlags::empty()
    }
}

} // verus!
