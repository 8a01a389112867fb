//! Physical memory as an arena of page tables, one table per frame.
use vstd::prelude::*;
use crate::addr::{Frame, ENTRY_COUNT};
use crate::entry::PageTableEntry;
use vstd::arithmetic::div_mod::lemma_fundamental_div_mod;

verus! {

/// Physical memory seen as page tables: the frame numbered `f` holds the table
/// whose entries are `f * 512 .. f * 512 + 512` of the arena.
#[derive(Clone, Debug, PartialEq, Eq)]
pub struct PhysicalMemory {
    entries: Vec<PageTableEntry>,
}

impl View for PhysicalMemory {
    type V = Seq<PageTableEntry>;

    closed spec fn view(&self) -> Seq<PageTableEntry> {
        self.entries@
    }
}

impl PhysicalMemory {
    /// How many frames the arena holds.
    pub open spec fn frame_count(self) -> nat {
        self@.len() / 512
    }

    /// Entry `i` of the table in frame `f`.
    pub open spec fn at(self, f: nat, i: nat) -> PageTableEntry {
        self@[(f * 512 + i) as int]
    }

    pub open spec fn wf(self) -> bool {
        self@.len() % 512 == 0
    }

    /// `other` differs from `self` at most in entry `i` of frame `f`, which is `e`.
    pub open spec fn updated(self, other: PhysicalMemory, f: nat, i: nat, e: PageTableEntry) -> bool {
        other@ == self@.update((f * 512 + i) as int, e)
    }

    /// Memory of `frame_count` frames, every entry unused.
    pub fn new(frame_count: usize) -> (r: PhysicalMemory)
        requires
            frame_count * 512 <= usize::MAX,
        ensures
            r.wf(),
            r.frame_count() == frame_count,
            forall|f: nat, i: nat| f < frame_count && i < 512 ==> (#[trigger] r.at(f, i)).spec_is_unused(),
    {
        let total: usize = frame_count * ENTRY_COUNT;
        proof {
            lemma_fundamental_div_mod(total as int, 512);
        }
        let mut entries: Vec<PageTableEntry> = Vec::new();
        let mut k: usize = 0;
        while k < total
            invariant
                k <= total,
                total == frame_count * 512,
                entries@.len() == k,
                forall|j: int| 0 <= j < k ==> (#[trigger] entries@[j]).spec_is_unused(),
            decreases total - k,
        {
            entries.push(PageTableEntry::unused());
            k = k + 1;
        }
        let r = PhysicalMemory { entries };
        assert forall|f: nat, i: nat| f < frame_count && i < 512 implies (#[trigger] r.at(f, i)).spec_is_unused() by {
            assert(f * 512 + i < frame_count * 512) by (nonlinear_arith)
                requires f < frame_count, i < 512;
        }
        proof {
            lemma_fundamental_div_mod(total as int, 512);
            vstd::arithmetic::div_mod::lemma_fundamental_div_mod_converse(total as int, 512, frame_count as int, 0);
        }
        r
    }

    /// The number of frames, as an integer.
    pub fn num_frames(&self) -> (r: usize)
        requires
            self.wf(),
        ensures
            r == self.frame_count(),
    {
        self.entries.len() / ENTRY_COUNT
    }

    /// Entry `index` of the table in `frame`.
    pub fn entry(&self, frame: Frame, index: usize) -> (r: PageTableEntry)
        requires
            self.wf(),
            frame@ < self.frame_count(),
            index < 512,
        ensures
            r == self.at(frame@, index as nat),
    {
        let len = self.entries.len();
        proof {
            lemma_slot_in_range(self@.len(), frame@, index as nat);
            assert(frame@ * 512 + index < len);
        }
        self.entries[frame.number() as usize * ENTRY_COUNT + index]
    }

    /// Overwrites entry `index` of the table in `frame`.
    pub fn set_entry(&mut self, frame: Frame, index: usize, e: PageTableEntry)
        requires
            old(self).wf(),
            frame@ < old(self).frame_count(),
            index < 512,
        ensures
            final(self).wf(),
            final(self).frame_count() == old(self).frame_count(),
            old(self).updated(*final(self), frame@, index as nat, e),
    {
        let len = self.entries.len();
        proof {
            lemma_slot_in_range(self@.len(), frame@, index as nat);
            assert(frame@ * 512 + index < len);
        }
        self.entries.set(frame.number() as usize * ENTRY_COUNT + index, e);
    }

    /// Makes every entry of the table in `frame` unused.
    pub fn zero_table(&mut self, frame: Frame)
        requires
            old(self).wf(),
            frame@ < old(self).frame_count(),
        ensures
            final(self).wf(),
            final(self).frame_count() == old(self).frame_count(),
            forall|i: nat| i < 512 ==> (#[trigger] final(self).at(frame@, i)).spec_is_unused(),
            forall|f: nat, i: nat| f < old(self).frame_count() && f != frame@ && i < 512 ==> #[trigger] final(self).at(f, i) == old(self).at(f, i),
    {
        let mut i: usize = 0;
        while i < ENTRY_COUNT
            invariant
                self.wf(),
                self.frame_count() == old(self).frame_count(),
                frame@ < self.frame_count(),
                i <= 512,
                forall|j: nat| j < i ==> (#[trigger] self.at(frame@, j)).spec_is_unused(),
                forall|f: nat, j: nat| f < self.frame_count() && f != frame@ && j < 512 ==> #[trigger] self.at(f, j) == old(self).at(f, j),
            decreases 512 - i,
        {
            let ghost before = *self;
            proof {
                lemma_slot_in_range(before@.len(), frame@, i as nat);
            }
            self.set_entry(frame, i, PageTableEntry::unused());
            proof {
                assert forall|f: nat, j: nat| f < self.frame_count() && f != frame@ && j < 512 implies #[trigger] self.at(f, j) == before.at(f, j) by {
                    lemma_slots_distinct(f, j, frame@, i as nat);
                    lemma_slot_in_range(before@.len(), f, j);
                    assert(self.at(f, j) == before.at(f, j));
                }
                assert forall|j: nat| j < i + 1 implies (#[trigger] self.at(frame@, j)).spec_is_unused() by {
                    if j < i {
                        lemma_slots_distinct(frame@, j, frame@, i as nat);
                        lemma_slot_in_range(before@.len(), frame@, j);
                        assert(self.at(frame@, j) == before.at(frame@, j));
                    }
                }
            }
            i = i + 1;
        }
    }
}

/// The arena slot of a table entry lies inside the arena.
pub proof fn lemma_slot_in_range(len: nat, f: nat, i: nat)
    requires
        f < len / 512,
        i < 512,
    ensures
        f * 512 + i < len,
{
    let q = len / 512;
    lemma_fundamental_div_mod(len as int, 512);
    assert(f * 512 + i < q * 512) by (nonlinear_arith)
        requires f < q, i < 512;
}

/// Distinct (frame, index) pairs occupy distinct arena slots.
pub proof fn lemma_slots_distinct(f: nat, i: nat, g: nat, j: nat)
    requires
        i < 512,
        j < 512,
        f != g || i != j,
    ensures
        f * 512 + i != g * 512 + j,
{
    if f < g {
        assert(f * 512 + i < g * 512 + j) by (nonlinear_arith)
            requires f < g, i < 512;
    } else if g < f {
        assert(g * 512 + j < f * 512 + i) by (nonlinear_arith)
            requires g < f, j < 512;
    }
}

} // verus!
