//! Translation-cache invalidation, injected into the page table.
use vstd::prelude::*;
use crate::addr::VirtAddr;

verus! {

/// One invalidation asked of a translation cache.
#[derive(Clone, Copy, Debug, PartialEq, Eq, Structural)]
pub enum TlbFlush {
    /// Every cached translation.
    All,
    /// The cached translation of the page that holds the address.
    Page(VirtAddr),
}

/// `new` is `old` followed by full invalidations only.
pub open spec fn full_flushes_after(old: Seq<TlbFlush>, new: Seq<TlbFlush>) -> bool {
    &&& old.len() <= new.len()
    &&& forall|i: int| 0 <= i < old.len() ==> #[trigger] new[i] == old[i]
    &&& forall|i: int| old.len() <= i < new.len() ==> #[trigger] new[i] == TlbFlush::All
}

/// Invalidation of cached address translations.
pub trait Tlb {
    /// The invalidations asked of this cache so far, oldest first.
    spec fn flushes(self) -> Seq<TlbFlush>;

    /// Drops every cached translation.
    fn flush_all(&mut self)
        ensures
            final(self).flushes() == old(self).flushes().push(TlbFlush::All),
    ;

    /// Drops any cached translation of the page that holds `addr`.
    fn flush_page(&mut self, addr: VirtAddr)
        ensures
            final(self).flushes() == old(self).flushes().push(TlbFlush::Page(addr)),
    ;
}

/// A translation cache that holds nothing and only counts the invalidations
/// asked of it, for running the mapper on a simulated memory.
pub struct FlushCounter {
    pub all: u64,
    pub pages: u64,
    pub log: Ghost<Seq<TlbFlush>>,
}

impl FlushCounter {
    pub fn new() -> (r: FlushCounter)
        ensures
            r.all == 0,
            r.pages == 0,
            r.flushes() == Seq::<TlbFlush>::empty(),
    {
        FlushCounter { all: 0, pages: 0, log: Ghost(Seq::empty()) }
    }
}

impl Tlb for FlushCounter {
    open spec fn flushes(self) -> Seq<TlbFlush> {
        self.log@
    }

    fn flush_all(&mut self) {
        if self.all < u64::MAX {
            self.all = self.all + 1;
        }
        self.log = Ghost(self.log@.push(TlbFlush::All));
    }

    fn flush_page(&mut self, addr: VirtAddr) {
        if self.pages < u64::MAX {
            self.pages = self.pages + 1;
        }
        self.log = Ghost(self.log@.push(TlbFlush::Page(addr)));
    }
}

} // verus!
