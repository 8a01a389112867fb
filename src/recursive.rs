//! The recursively mapped page table and the mapper built on it.
use vstd::prelude::*;
use crate::addr::{Frame, Page, PhysAddr, VirtAddr, ENTRY_COUNT, p1_of, p2_of, p3_of};
use crate::entry::{PageTableEntry, PageTableFlags};
use crate::frame_alloc::FrameAllocator;
use crate::memory::PhysicalMemory;
use crate::state::{
    lemma_kept_path_keeps_self_mapping,
    lemma_install_lower, lemma_install_upper, lemma_leaf_set, lemma_open_set_close,
    lemma_update_elsewhere, lemma_wf_walkable, with_access,
    PagingState, TableRole,
};
use crate::tlb::{full_flushes_after, Tlb, TlbFlush};
use crate::tree::{root_index_of, scan_roles, scanned, recursively_mapped, self_mapped, tree_shaped};

verus! {

broadcast use crate::addr::Frame::lemma_view_injective;

/// A pending invalidation of one page's cached translation, handed out by
/// every change of a mapping: the caller flushes it, or ignores it on purpose.
#[must_use]
pub struct MapperFlush(Page);

impl View for MapperFlush {
    type V = Page;

    closed spec fn view(&self) -> Page {
        self.0
    }
}

impl MapperFlush {
    fn new(page: Page) -> (r: MapperFlush)
        ensures
            r@ == page,
    {
        MapperFlush(page)
    }

    /// Invalidates the page's cached translation, so that the new mapping is used.
    pub fn flush<T: Tlb>(self, table: &mut RecursivePageTable<T>)
        ensures
            final(table).state() == old(table).state(),
            final(table).flush_log() == old(table).flush_log().push(TlbFlush::Page(VirtAddr((self@@ * 4096) as u64))),
    {
        table.tlb.flush_page(self.0.start_address());
    }

    /// Leaves the cached translation as it is.
    pub fn ignore(self) {
    }
}

/// Why a mapping could not be made.
#[derive(Clone, Copy, Debug, PartialEq, Eq, Structural)]
pub enum MapToError {
    /// A new table was needed and the allocator gave no usable frame.
    FrameAllocationFailed,
    /// An upper entry maps a huge page that covers the page.
    ParentEntryHugePage,
    /// The page is mapped already.
    PageAlreadyMapped,
}

/// Why a mapping could not be removed.
#[derive(Clone, Copy, Debug, PartialEq, Eq, Structural)]
pub enum UnmapError {
    /// An upper entry maps a huge page that covers the page.
    ParentEntryHugePage,
    /// The page is not mapped.
    PageNotMapped,
    /// The entry of the page holds an invalid physical address.
    InvalidFrameAddress(PhysAddr),
}

/// The given root table does not map itself as a recursive page table must.
#[derive(Clone, Copy, Debug, PartialEq, Eq, Structural)]
pub struct NotRecursivelyMapped;

/// What `map_to` of virtual page number `vpn` to `frame` with `flags` leaves
/// behind, from state `s` to state `t` with result `r`.
pub open spec fn map_to_post(
    s: PagingState,
    t: PagingState,
    vpn: nat,
    frame: Frame,
    flags: PageTableFlags,
    r: Result<MapperFlush, MapToError>,
) -> bool {
    &&& t.wf()
    &&& t.root == s.root
    &&& t.recursive_index == s.recursive_index
    &&& (s.translate_page(vpn) is Some <==> r == Err::<MapperFlush, MapToError>(MapToError::PageAlreadyMapped))
    &&& (s.blocked(p3_of(vpn), p2_of(vpn)) <==> r == Err::<MapperFlush, MapToError>(MapToError::ParentEntryHugePage))
    &&& (s.chain_exists_page(vpn) && s.translate_page(vpn) is None ==> r is Ok)
    &&& t.upper(s.recursive_index) == s.upper(s.recursive_index)
    &&& t.upper(s.recursive_index + 1) == s.upper(s.recursive_index + 1)
    &&& path_kept(s, t, p3_of(vpn), p2_of(vpn))
    &&& match r {
        Ok(fl) => {
            &&& s.kept_but_path(t, p3_of(vpn), p2_of(vpn), p1_of(vpn))
            &&& fl@@ == vpn
            &&& t.chain_exists_page(vpn)
            &&& t.leaf_of_page(vpn) == (PageTableEntry { frame, flags })
            &&& s.same_translations_except(t, p3_of(vpn), p2_of(vpn), p1_of(vpn))
            &&& (s.chain_exists_page(vpn) ==> s.leaf_set(t, p3_of(vpn), p2_of(vpn), p1_of(vpn), PageTableEntry { frame, flags }))
            &&& (!s.chain_exists_page(vpn) ==> forall|z: nat| z < 512 && z != p1_of(vpn) ==> (#[trigger] t.leaf(p3_of(vpn), p2_of(vpn), z)).spec_is_unused())
            &&& (s.upper(p3_of(vpn)).spec_is_unused() ==> forall|y: nat| y < 512 && y != p2_of(vpn) ==> (#[trigger] t.lower(p3_of(vpn), y)).spec_is_unused())
        },
        Err(MapToError::PageAlreadyMapped) => t == s,
        Err(MapToError::FrameAllocationFailed) => {
            &&& !s.chain_exists_page(vpn)
            &&& s.same_translations(t)
            &&& s.kept_but_path(t, p3_of(vpn), p2_of(vpn), p1_of(vpn))
        },
        Err(MapToError::ParentEntryHugePage) => t == s,
    }
}

/// The two entries above the leaf on the way to the pages `(a, b, _)` go from
/// `s` to `t` without opening access: root entry `a` is kept, or an unused one
/// now points at a table whose other entries are unused; a used level-2 entry
/// `b` is kept; and one that maps a huge page in `t` did so in `s`.
pub open spec fn path_kept(s: PagingState, t: PagingState, a: nat, b: nat) -> bool {
    &&& (t.upper(a) == s.upper(a) || (s.upper(a).spec_is_unused() && t.upper(a).spec_is_table_pointer()))
    &&& (t.upper(a).spec_is_table_pointer() && t.lower(a, b).spec_is_huge() ==> t.upper(a) == s.upper(a) && t.lower(a, b)
        == s.lower(a, b))
    &&& (s.upper(a).spec_is_table_pointer() && !s.lower(a, b).spec_is_unused() ==> t.lower(a, b) == s.lower(a, b))
    &&& (s.upper(a).spec_is_unused() && t.upper(a).spec_is_table_pointer() ==> forall|y: nat|
        y < 512 && y != b ==> (#[trigger] t.lower(a, y)).spec_is_unused())
}

/// What `unmap` of virtual page number `vpn` leaves behind, from state `s` to
/// state `t` with result `r`.
pub open spec fn unmap_post(s: PagingState, t: PagingState, vpn: nat, r: Result<(Frame, MapperFlush), UnmapError>) -> bool {
    let mapped = s.translate_page(vpn) is Some;
    &&& t.wf()
    &&& t.root == s.root
    &&& t.recursive_index == s.recursive_index
    &&& (mapped <==> r is Ok)
    &&& match r {
        Ok((frame, fl)) => {
            &&& s.translate_page(vpn) == Some(frame)
            &&& fl@@ == vpn
            &&& t.chain_exists_page(vpn)
            &&& t.leaf_of_page(vpn).spec_is_unused()
            &&& s.leaf_set(t, p3_of(vpn), p2_of(vpn), p1_of(vpn), t.leaf_of_page(vpn))
            &&& t.translate_page(vpn) is None
            &&& s.same_translations_except(t, p3_of(vpn), p2_of(vpn), p1_of(vpn))
        },
        Err(e) => {
            &&& t == s
            &&& (e == UnmapError::ParentEntryHugePage <==> s.blocked(p3_of(vpn), p2_of(vpn)))
            &&& (e == UnmapError::PageNotMapped || e == UnmapError::ParentEntryHugePage)
        },
    }
}

/// What `translate_page` of virtual page number `vpn` leaves behind, from
/// state `s` to state `t` with result `r`: the state is as it was. Pages of
/// the self-mapping's own range are reported as unmapped.
pub open spec fn translate_post(s: PagingState, t: PagingState, vpn: nat, r: Option<Frame>) -> bool {
    &&& t == s
    &&& r == (if s.reserved_page(vpn) { None } else { s.translate_page(vpn) })
}

/// The virtual page number whose address equals the start address of frame `f`.
pub open spec fn identity_vpn(f: Frame) -> nat {
    f@ % (crate::addr::PAGE_NUMBER_LIMIT as nat)
}

/// The operations of a page table on mappings of single pages.
pub trait Mapper {
    /// The state the contracts speak of.
    spec fn paging_state(self) -> PagingState;

    /// The invalidations asked of the translation cache so far.
    spec fn tlb_flushes(self) -> Seq<TlbFlush>;

    /// Maps `page` to `frame` with `flags`, creating the tables above it from
    /// `allocator` where they are missing. A page that is mapped already is
    /// left as it is.
    fn map_to<A: FrameAllocator>(&mut self, page: Page, frame: Frame, flags: PageTableFlags, allocator: &mut A) -> (r: Result<MapperFlush, MapToError>)
        requires
            old(self).paging_state().wf(),
            !old(self).paging_state().reserved_page(page@),
        ensures
            map_to_post(old(self).paging_state(), final(self).paging_state(), page@, frame, flags, r),
            old(self).paging_state().chain_exists_page(page@) || old(self).paging_state().blocked(p3_of(page@), p2_of(page@))
                ==> *final(allocator) == *old(allocator),
            full_flushes_after(old(self).tlb_flushes(), final(self).tlb_flushes()),
    ;

    /// Removes the mapping of `page` and returns the frame it was mapped to.
    /// No table is freed.
    fn unmap(&mut self, page: Page) -> (r: Result<(Frame, MapperFlush), UnmapError>)
        requires
            old(self).paging_state().wf(),
            !old(self).paging_state().reserved_page(page@),
        ensures
            unmap_post(old(self).paging_state(), final(self).paging_state(), page@, r),
            full_flushes_after(old(self).tlb_flushes(), final(self).tlb_flushes()),
    ;

    /// The frame that `page` is mapped to, if any; every entry is left as it
    /// was found.
    fn translate_page(&mut self, page: Page) -> (r: Option<Frame>)
        requires
            old(self).paging_state().wf(),
        ensures
            translate_post(old(self).paging_state(), final(self).paging_state(), page@, r),
            full_flushes_after(old(self).tlb_flushes(), final(self).tlb_flushes()),
    ;

    /// Maps `frame` at the virtual page whose address equals the frame's
    /// physical address.
    fn identity_map<A: FrameAllocator>(&mut self, frame: Frame, flags: PageTableFlags, allocator: &mut A) -> (r: Result<MapperFlush, MapToError>)
        requires
            old(self).paging_state().wf(),
            !old(self).paging_state().reserved_page(identity_vpn(frame)),
        ensures
            map_to_post(old(self).paging_state(), final(self).paging_state(), identity_vpn(frame), frame, flags, r),
            old(self).paging_state().chain_exists_page(identity_vpn(frame)) || old(self).paging_state().blocked(
                p3_of(identity_vpn(frame)),
                p2_of(identity_vpn(frame)),
            ) ==> *final(allocator) == *old(allocator),
            full_flushes_after(old(self).tlb_flushes(), final(self).tlb_flushes()),
    {
        let page = Page::of_addr(VirtAddr::new(frame.start_address().as_u64()));
        proof {
            vstd::arithmetic::div_mod::lemma_div_by_multiple(frame@ as int, 4096);
        }
        self.map_to(page, frame, flags, allocator)
    }
}

/// A page table whose root maps itself, so that every table of the tree can be
/// reached at a virtual address computed from its place in the tree.
///
/// Root entry `recursive_index` points back at the root as a table; entry
/// `recursive_index + 1` maps the root as a readable and writable page.
pub struct RecursivePageTable<T: Tlb> {
    memory: PhysicalMemory,
    root: Frame,
    recursive_index: usize,
    roles: Vec<TableRole>,
    tlb: T,
}

impl<T: Tlb> RecursivePageTable<T> {
    /// The mapper's state, as the contracts speak of it.
    pub closed spec fn state(self) -> PagingState {
        PagingState {
            entries: self.memory@,
            root: self.root@,
            recursive_index: self.recursive_index as nat,
            roles: self.roles@,
        }
    }

    pub open spec fn wf(self) -> bool {
        self.state().wf()
    }

    /// The invalidations asked of the table's translation cache so far.
    pub closed spec fn flush_log(self) -> Seq<TlbFlush> {
        self.tlb.flushes()
    }

    /// Sets read and write access of entry `i` of the table in frame `f` to
    /// `on`, then invalidates every cached translation.
    fn set_access(&mut self, f: Frame, i: usize, on: bool)
        requires
            old(self).state().entries.len() % 512 == 0,
            f@ < old(self).state().frame_count(),
            i < 512,
        ensures
            final(self).state() == (PagingState {
                entries: old(self).state().entries.update(
                    (f@ * 512 + i) as int,
                    with_access(old(self).state().at(f@, i as nat), on),
                ),
                ..old(self).state()
            }),
            final(self).flush_log() == old(self).flush_log().push(TlbFlush::All),
    {
        let e = self.memory.entry(f, i);
        let flags = PageTableFlags { readable: on, writable: on, ..e.flags };
        self.memory.set_entry(f, i, PageTableEntry { flags, ..e });
        self.tlb.flush_all();
    }

    /// The frame that the hardware walk reaches for `page` when it is mapped
    /// as a readable and writable 4 KiB page: how software reaches a table
    /// through its recursive alias.
    fn walk_alias(&self, page: Page) -> (r: Option<Frame>)
        requires
            self.state().entries.len() % 512 == 0,
            self.state().root < self.state().frame_count(),
        ensures
            r == self.state().alias_walk(p3_of(page@), p2_of(page@), p1_of(page@)),
    {
        let count = self.memory.num_frames();
        let e2 = self.memory.entry(self.root, page.p3_index());
        if !(e2.is_table_pointer() && e2.frame.number() < count as u64) {
            return None;
        }
        let e1 = self.memory.entry(e2.frame, page.p2_index());
        if !(e1.is_table_pointer() && e1.frame.number() < count as u64) {
            return None;
        }
        let e0 = self.memory.entry(e1.frame, page.p1_index());
        if e0.flags.valid && e0.flags.readable && e0.flags.writable {
            Some(e0.frame)
        } else {
            None
        }
    }

    /// Opens the level-1 table under root entry `a` and level-2 entry `b`:
    /// grants access on the way down, one level at a time, and returns its frame.
    /// On return entry `b` of the level-2 table maps the level-1 table as a
    /// readable and writable page, which stays so until `leave_p1`.
    fn enter_p1(&mut self, a: usize, b: usize) -> (r: Frame)
        requires
            old(self).state().walkable(a as nat),
            b < 512,
            old(self).state().lower(a as nat, b as nat).spec_is_table_pointer(),
            old(self).state().lower(a as nat, b as nat).frame@ < old(self).state().frame_count(),
        ensures
            final(self).state() == old(self).state().with_lower_access(a as nat, b as nat, true),
            r == old(self).state().lower(a as nat, b as nat).frame,
            final(self).flush_log() == old(self).flush_log().push(TlbFlush::All).push(TlbFlush::All).push(TlbFlush::All),
    {
        let ghost s0 = self.state();
        let rec = self.recursive_index;
        let root = self.root;
        let ghost f2 = s0.upper(a as nat).frame@;
        self.set_access(root, a, true);
        proof {
            lemma_update_elsewhere(s0, self.state(), s0.root, a as nat, self.state().at(s0.root, a as nat), s0.root, rec as nat);
        }
        let f2x = self.walk_alias(Page::from_page_table_indices(rec, rec, a)).unwrap();
        let ghost s1 = self.state();
        self.set_access(f2x, b, true);
        let ghost s2 = self.state();
        proof {
            lemma_update_elsewhere(s0, s1, s0.root, a as nat, s1.at(s0.root, a as nat), f2, b as nat);
            lemma_update_elsewhere(s1, s2, f2, b as nat, s2.at(f2, b as nat), s0.root, a as nat);
        }
        self.set_access(root, a, false);
        proof {
            let t = s0.with_lower_access(a as nat, b as nat, true);
            crate::memory::lemma_slots_distinct(s0.root, a as nat, f2, b as nat);
            crate::memory::lemma_slot_in_range(s0.entries.len(), s0.root, a as nat);
            crate::memory::lemma_slot_in_range(s0.entries.len(), f2, b as nat);
            assert(self.state().entries =~= t.entries);
            lemma_update_elsewhere(s0, t, f2, b as nat, with_access(s0.lower(a as nat, b as nat), true), s0.root, rec as nat);
            lemma_update_elsewhere(s0, t, f2, b as nat, with_access(s0.lower(a as nat, b as nat), true), s0.root, a as nat);
        }
        self.walk_alias(Page::from_page_table_indices(rec, a, b)).unwrap()
    }

    /// Closes what `enter_p1` opened: takes back access on entry `b` of the
    /// level-2 table under root entry `a`, reaching that table through its alias.
    fn leave_p1(&mut self, a: usize, b: usize)
        requires
            old(self).state().walkable(a as nat),
            b < 512,
        ensures
            final(self).state() == old(self).state().with_lower_access(a as nat, b as nat, false),
            final(self).flush_log() == old(self).flush_log().push(TlbFlush::All).push(TlbFlush::All).push(TlbFlush::All),
    {
        let ghost s0 = self.state();
        let rec = self.recursive_index;
        let root = self.root;
        let ghost f2 = s0.upper(a as nat).frame@;
        self.set_access(root, a, true);
        proof {
            lemma_update_elsewhere(s0, self.state(), s0.root, a as nat, self.state().at(s0.root, a as nat), s0.root, rec as nat);
        }
        let f2x = self.walk_alias(Page::from_page_table_indices(rec, rec, a)).unwrap();
        let ghost s1 = self.state();
        self.set_access(f2x, b, false);
        let ghost s2 = self.state();
        proof {
            lemma_update_elsewhere(s0, s1, s0.root, a as nat, s1.at(s0.root, a as nat), f2, b as nat);
            lemma_update_elsewhere(s1, s2, f2, b as nat, s2.at(f2, b as nat), s0.root, a as nat);
        }
        self.set_access(root, a, false);
        proof {
            let t = s0.with_lower_access(a as nat, b as nat, false);
            crate::memory::lemma_slots_distinct(s0.root, a as nat, f2, b as nat);
            crate::memory::lemma_slot_in_range(s0.entries.len(), s0.root, a as nat);
            crate::memory::lemma_slot_in_range(s0.entries.len(), f2, b as nat);
            assert(self.state().entries =~= t.entries);
        }
    }

    /// Whether `f` lies in the arena and is no table of the tree.
    fn frame_is_free(&self, f: Frame) -> (r: bool)
        requires
            self.state().entries.len() % 512 == 0,
            self.state().roles.len() == self.state().frame_count(),
        ensures
            r == (f@ < self.state().frame_count() && self.state().roles[f@ as int] == TableRole::Free),
    {
        let count = self.memory.num_frames();
        f.number() < count as u64 && self.roles[f.number() as usize] == TableRole::Free
    }

    /// Installs `fresh`, what the allocator handed out, as an empty level-2
    /// table in unused root slot `a`. Fails, changing nothing, unless it is a
    /// frame of the arena that no table of the tree uses.
    fn install_upper(&mut self, a: usize, fresh: Option<Frame>) -> (r: Result<(), MapToError>)
        requires
            old(self).wf(),
            a < 512,
            !old(self).state().reserved(a as nat),
            old(self).state().upper(a as nat).spec_is_unused(),
        ensures
            final(self).wf(),
            final(self).state().root == old(self).state().root,
            final(self).state().recursive_index == old(self).state().recursive_index,
            old(self).state().same_translations(final(self).state()),
            r is Ok <==> (match fresh {
                Some(f) => f@ < old(self).state().frame_count() && old(self).state().roles[f@ as int] == TableRole::Free,
                None => false,
            }),
            r is Ok ==> (match fresh {
                Some(f) => old(self).state().installed(final(self).state(), old(self).state().root, a as nat, f, TableRole::Upper { slot: a as usize }),
                None => false,
            }),
            r is Ok ==> final(self).state().upper(a as nat).spec_is_table_pointer(),
            r is Err ==> r == Err::<(), MapToError>(MapToError::FrameAllocationFailed) && final(self).state() == old(self).state(),
            full_flushes_after(old(self).flush_log(), final(self).flush_log()),
    {
        let root = self.root;
        let rec = self.recursive_index;
        let fresh = match fresh {
            Some(f) => f,
            None => {
                return Err(MapToError::FrameAllocationFailed);
            },
        };
        if !self.frame_is_free(fresh) {
            return Err(MapToError::FrameAllocationFailed);
        }
        let ghost s0 = self.state();
        proof {
            crate::memory::lemma_slot_in_range(s0.entries.len(), s0.root, a as nat);
        }
        let n_roles = self.roles.len();
        proof {
            assert(fresh@ < n_roles);
        }
        let ptr = PageTableEntry::new(fresh, PageTableFlags::table_pointer());
        self.memory.set_entry(root, a, ptr);
        self.roles.set(fresh.number() as usize, TableRole::Upper { slot: a });
        let ghost s1 = self.state();
        proof {
            assert(s1.entries == s0.entries.update((s0.root * 512 + a) as int, ptr));
            lemma_update_elsewhere(s0, s1, s0.root, a as nat, ptr, s0.root, rec as nat);
        }
        self.set_access(root, a, true);
        let ghost s2 = self.state();
        proof {
            lemma_update_elsewhere(s1, s2, s0.root, a as nat, s2.at(s0.root, a as nat), s0.root, rec as nat);
        }
        let f2 = self.walk_alias(Page::from_page_table_indices(rec, rec, a)).unwrap();
        proof {
            assert(s1.at(s0.root, a as nat) == ptr);
            assert(f2 == fresh);
            assert(fresh@ != s0.root);
        }
        let ghost m2 = self.memory;
        self.memory.zero_table(f2);
        let ghost s3 = self.state();
        proof {
            assert(self.memory.at(s0.root, a as nat) == m2.at(s0.root, a as nat));
            assert forall|f: nat, i: nat| f < s0.frame_count() && f != fresh@ && i < 512 implies #[trigger] s3.at(f, i) == s2.at(f, i) by {
                assert(self.memory.at(f, i) == m2.at(f, i));
            }
            assert forall|i: nat| i < 512 implies (#[trigger] s3.at(fresh@, i)).spec_is_unused() by {
                assert(self.memory.at(fresh@, i).spec_is_unused());
            }
        }
        self.set_access(root, a, false);
        let ghost s4 = self.state();
        proof {
            assert(s3.at(s0.root, a as nat) == s2.at(s0.root, a as nat));
            assert forall|i: nat| i < 512 implies (#[trigger] s4.at(fresh@, i)).spec_is_unused() by {
                lemma_update_elsewhere(s3, s4, s0.root, a as nat, s4.at(s0.root, a as nat), fresh@, i);
            }
            assert forall|f: nat, i: nat|
                f < s0.frame_count() && i < 512 && f != fresh@ && !(f == s0.root && i == a)
                    implies #[trigger] s4.at(f, i) == s0.at(f, i) by {
                lemma_update_elsewhere(s3, s4, s0.root, a as nat, s4.at(s0.root, a as nat), f, i);
                lemma_update_elsewhere(s1, s2, s0.root, a as nat, s2.at(s0.root, a as nat), f, i);
                lemma_update_elsewhere(s0, s1, s0.root, a as nat, ptr, f, i);
            }
            crate::memory::lemma_slot_in_range(s0.entries.len(), s0.root, a as nat);
            assert(s0.installed(s4, s0.root, a as nat, fresh, TableRole::Upper { slot: a }));
            lemma_install_upper(s0, s4, a as nat, fresh);
        }
        Ok(())
    }

    /// Makes root entry `a` point at a level-2 table, asking `allocator` for a
    /// frame if there is none.
    fn ensure_upper<A: FrameAllocator>(&mut self, a: usize, allocator: &mut A) -> (r: Result<(), MapToError>)
        requires
            old(self).wf(),
            a < 512,
            !old(self).state().reserved(a as nat),
        ensures
            final(self).wf(),
            final(self).state().root == old(self).state().root,
            final(self).state().recursive_index == old(self).state().recursive_index,
            old(self).state().same_translations(final(self).state()),
            old(self).state().kept_but(final(self).state(), old(self).state().root, a as nat),
            r is Ok ==> final(self).state().upper(a as nat).spec_is_table_pointer(),
            old(self).state().upper(a as nat).spec_is_table_pointer() ==> r is Ok && final(self).state() == old(self).state(),
            old(self).state().upper(a as nat).spec_is_huge() <==> r == Err::<(), MapToError>(MapToError::ParentEntryHugePage),
            r is Err ==> final(self).state() == old(self).state(),
            old(self).state().upper(a as nat).spec_is_unused() && r is Ok ==> forall|b: nat| b < 512 ==> (#[trigger] final(self).state().lower(a as nat, b)).spec_is_unused(),
            final(self).state().upper(a as nat) == old(self).state().upper(a as nat) || (old(self).state().upper(a as nat).spec_is_unused() && final(self).state().upper(a as nat).spec_is_table_pointer()),
            !old(self).state().upper(a as nat).spec_is_unused() ==> *final(allocator) == *old(allocator),
            r == Err::<(), MapToError>(MapToError::FrameAllocationFailed) ==> old(self).state().upper(a as nat).spec_is_unused(),
            r is Err ==> r == Err::<(), MapToError>(MapToError::FrameAllocationFailed) || r == Err::<(), MapToError>(MapToError::ParentEntryHugePage),
            full_flushes_after(old(self).flush_log(), final(self).flush_log()),
    {
        let e3 = self.memory.entry(self.root, a);
        proof {
            assert(old(self).state().upper_ok(a as nat));
        }
        if e3.is_table_pointer() {
            return Ok(());
        }
        if !e3.is_unused() {
            return Err(MapToError::ParentEntryHugePage);
        }
        let fresh = allocator.allocate_frame();
        let r = self.install_upper(a, fresh);
        proof {
            if r is Ok {
                let f = fresh->Some_0;
                lemma_install_upper(old(self).state(), self.state(), a as nat, f);
            }
        }
        r
    }

    /// Installs `fresh`, what the allocator handed out, as an empty level-1
    /// table in unused slot `b` of the level-2 table under root entry `a`.
    /// Fails, changing nothing, unless it is a frame of the arena that no table
    /// of the tree uses.
    fn install_lower(&mut self, a: usize, b: usize, fresh: Option<Frame>) -> (r: Result<(), MapToError>)
        requires
            old(self).wf(),
            a < 512,
            b < 512,
            !old(self).state().reserved(a as nat),
            old(self).state().upper(a as nat).spec_is_table_pointer(),
            old(self).state().lower(a as nat, b as nat).spec_is_unused(),
        ensures
            final(self).wf(),
            final(self).state().root == old(self).state().root,
            final(self).state().recursive_index == old(self).state().recursive_index,
            old(self).state().same_translations(final(self).state()),
            r is Ok <==> (match fresh {
                Some(f) => f@ < old(self).state().frame_count() && old(self).state().roles[f@ as int] == TableRole::Free,
                None => false,
            }),
            r is Ok ==> (match fresh {
                Some(f) => old(self).state().installed(final(self).state(), old(self).state().upper(a as nat).frame@, b as nat, f, TableRole::Lower { slot: a as usize, sub: b as usize }),
                None => false,
            }),
            r is Ok ==> final(self).state().chain_exists(a as nat, b as nat),
            r is Err ==> r == Err::<(), MapToError>(MapToError::FrameAllocationFailed) && final(self).state() == old(self).state(),
            full_flushes_after(old(self).flush_log(), final(self).flush_log()),
    {
        let root = self.root;
        let rec = self.recursive_index;
        let ghost s0 = self.state();
        let ghost f2s = s0.upper(a as nat).frame@;
        let ghost ka = (s0.root * 512 + a) as int;
        proof {
            assert(s0.upper_ok(a as nat));
            assert(s0.lower_ok(a as nat, b as nat));
            crate::memory::lemma_slot_in_range(s0.entries.len(), s0.root, a as nat);
        }
        self.set_access(root, a, true);
        let ghost s1 = self.state();
        proof {
            lemma_update_elsewhere(s0, s1, s0.root, a as nat, s1.at(s0.root, a as nat), s0.root, rec as nat);
            lemma_update_elsewhere(s0, s1, s0.root, a as nat, s1.at(s0.root, a as nat), f2s, b as nat);
            assert(s0.entries.update(ka, with_access(s1.at(s0.root, a as nat), false)) =~= s0.entries);
        }
        let f2 = self.walk_alias(Page::from_page_table_indices(rec, rec, a)).unwrap();
        let fresh = match fresh {
            Some(f) => f,
            None => {
                self.set_access(root, a, false);
                proof {
                    assert(self.state().entries =~= s0.entries);
                }
                return Err(MapToError::FrameAllocationFailed);
            },
        };
        if !self.frame_is_free(fresh) {
            self.set_access(root, a, false);
            proof {
                assert(self.state().entries =~= s0.entries);
            }
            return Err(MapToError::FrameAllocationFailed);
        }
        let n_roles = self.roles.len();
        proof {
            assert(fresh@ < n_roles);
        }
        let ptr = PageTableEntry::new(fresh, PageTableFlags::table_pointer());
        self.memory.set_entry(f2, b, ptr);
        self.roles.set(fresh.number() as usize, TableRole::Lower { slot: a, sub: b });
        self.set_access(root, a, false);
        let ghost s3 = self.state();
        let ghost kb = (f2s * 512 + b) as int;
        proof {
            crate::memory::lemma_slot_in_range(s0.entries.len(), f2s, b as nat);
            crate::memory::lemma_slots_distinct(s0.root, a as nat, f2s, b as nat);
            assert(s3.entries =~= s0.entries.update(kb, ptr));
            assert(s3.roles == s0.roles.update(fresh@ as int, TableRole::Lower { slot: a, sub: b }));
            lemma_update_elsewhere(s0, s3, f2s, b as nat, ptr, s0.root, rec as nat);
            lemma_update_elsewhere(s0, s3, f2s, b as nat, ptr, s0.root, a as nat);
        }
        proof {
            assert(f2@ == f2s);
            assert(s3.at(f2s, b as nat) == ptr);
            assert(fresh@ != s0.root);
        }
        let f1 = self.enter_p1(a, b);
        let ghost s4 = self.state();
        proof {
            assert(f1 == fresh);
        }
        let ghost m4 = self.memory;
        self.memory.zero_table(f1);
        let ghost s5 = self.state();
        proof {
            assert forall|f: nat, i: nat| f < s0.frame_count() && f != fresh@ && i < 512 implies #[trigger] s5.at(f, i) == s4.at(f, i) by {
                assert(self.memory.at(f, i) == m4.at(f, i));
            }
            assert forall|i: nat| i < 512 implies (#[trigger] s5.at(fresh@, i)).spec_is_unused() by {
                assert(self.memory.at(fresh@, i).spec_is_unused());
            }
        }
        proof {
            lemma_update_elsewhere(s3, s4, f2s, b as nat, s4.at(f2s, b as nat), s0.root, rec as nat);
            lemma_update_elsewhere(s3, s4, f2s, b as nat, s4.at(f2s, b as nat), s0.root, a as nat);
            assert(s5.upper(rec as nat) == s4.upper(rec as nat));
            assert(s5.upper(a as nat) == s4.upper(a as nat));
            assert(s5.at(f2s, b as nat) == s4.at(f2s, b as nat));
        }
        self.leave_p1(a, b);
        let ghost s6 = self.state();
        proof {
            assert forall|i: nat| i < 512 implies (#[trigger] s6.at(fresh@, i)).spec_is_unused() by {
                lemma_update_elsewhere(s5, s6, f2s, b as nat, s6.at(f2s, b as nat), fresh@, i);
            }
            assert forall|f: nat, i: nat|
                f < s0.frame_count() && i < 512 && f != fresh@ && !(f == f2s && i == b)
                    implies #[trigger] s6.at(f, i) == s0.at(f, i) by {
                lemma_update_elsewhere(s5, s6, f2s, b as nat, s6.at(f2s, b as nat), f, i);
                lemma_update_elsewhere(s3, s4, f2s, b as nat, s4.at(f2s, b as nat), f, i);
                lemma_update_elsewhere(s0, s3, f2s, b as nat, ptr, f, i);
            }
            assert(s6.at(f2s, b as nat) == ptr);
            assert(s0.installed(s6, f2s, b as nat, fresh, TableRole::Lower { slot: a, sub: b }));
            lemma_install_lower(s0, s6, a as nat, b as nat, fresh);
        }
        Ok(())
    }

    /// Entry `b` of the level-2 table under root entry `a`, read through the
    /// table's recursive alias: access on root entry `a` is granted, with a
    /// flush, for the read and taken back, with a flush, after it.
    fn read_lower(&mut self, a: usize, b: usize) -> (r: PageTableEntry)
        requires
            old(self).wf(),
            a < 512,
            b < 512,
            !old(self).state().reserved(a as nat),
            old(self).state().upper(a as nat).spec_is_table_pointer(),
        ensures
            final(self).state() == old(self).state(),
            r == old(self).state().lower(a as nat, b as nat),
            final(self).flush_log() == old(self).flush_log().push(TlbFlush::All).push(TlbFlush::All),
    {
        let root = self.root;
        let rec = self.recursive_index;
        let ghost s0 = self.state();
        let ghost f2s = s0.upper(a as nat).frame@;
        proof {
            assert(s0.upper_ok(a as nat));
            crate::memory::lemma_slot_in_range(s0.entries.len(), s0.root, a as nat);
        }
        self.set_access(root, a, true);
        let ghost s1 = self.state();
        proof {
            lemma_update_elsewhere(s0, s1, s0.root, a as nat, s1.at(s0.root, a as nat), s0.root, rec as nat);
            lemma_update_elsewhere(s0, s1, s0.root, a as nat, s1.at(s0.root, a as nat), f2s, b as nat);
        }
        let f2 = self.walk_alias(Page::from_page_table_indices(rec, rec, a)).unwrap();
        let e2 = self.memory.entry(f2, b);
        self.set_access(root, a, false);
        proof {
            assert(self.state().entries =~= s0.entries);
        }
        e2
    }

    /// Makes entry `b` of the level-2 table under root entry `a` point at a
    /// level-1 table, asking `allocator` for a frame if there is none.
    fn ensure_lower<A: FrameAllocator>(&mut self, a: usize, b: usize, allocator: &mut A) -> (r: Result<(), MapToError>)
        requires
            old(self).wf(),
            a < 512,
            b < 512,
            !old(self).state().reserved(a as nat),
            old(self).state().upper(a as nat).spec_is_table_pointer(),
        ensures
            final(self).wf(),
            final(self).state().root == old(self).state().root,
            final(self).state().recursive_index == old(self).state().recursive_index,
            old(self).state().same_translations(final(self).state()),
            old(self).state().kept_but(final(self).state(), old(self).state().upper(a as nat).frame@, b as nat),
            r is Ok ==> final(self).state().chain_exists(a as nat, b as nat),
            !old(self).state().chain_exists(a as nat, b as nat) && r is Ok ==> forall|c: nat| c < 512 ==> (#[trigger] final(self).state().leaf(a as nat, b as nat, c)).spec_is_unused(),
            final(self).state().upper(a as nat) == old(self).state().upper(a as nat),
            forall|y: nat| y < 512 && y != b ==> #[trigger] final(self).state().lower(a as nat, y) == old(self).state().lower(a as nat, y),
            old(self).state().chain_exists(a as nat, b as nat) ==> r is Ok && final(self).state() == old(self).state(),
            old(self).state().lower(a as nat, b as nat).spec_is_huge() <==> r == Err::<(), MapToError>(MapToError::ParentEntryHugePage),
            r is Err ==> final(self).state() == old(self).state(),
            final(self).state().lower(a as nat, b as nat) == old(self).state().lower(a as nat, b as nat) || (old(self).state().lower(a as nat, b as nat).spec_is_unused() && final(self).state().lower(a as nat, b as nat).spec_is_table_pointer()),
            !old(self).state().lower(a as nat, b as nat).spec_is_unused() ==> *final(allocator) == *old(allocator),
            r == Err::<(), MapToError>(MapToError::FrameAllocationFailed) ==> old(self).state().lower(a as nat, b as nat).spec_is_unused(),
            r is Err ==> r == Err::<(), MapToError>(MapToError::FrameAllocationFailed) || r == Err::<(), MapToError>(MapToError::ParentEntryHugePage),
            full_flushes_after(old(self).flush_log(), final(self).flush_log()),
    {
        let ghost s0 = self.state();
        proof {
            assert(s0.upper_ok(a as nat));
            assert(s0.lower_ok(a as nat, b as nat));
        }
        let e2 = self.read_lower(a, b);
        if e2.is_table_pointer() {
            return Ok(());
        }
        if !e2.is_unused() {
            return Err(MapToError::ParentEntryHugePage);
        }
        let fresh = allocator.allocate_frame();
        let r = self.install_lower(a, b, fresh);
        proof {
            if r is Ok {
                let f = fresh->Some_0;
                lemma_install_lower(s0, self.state(), a as nat, b as nat, f);
                let f2 = s0.upper(a as nat).frame@;
                assert(self.state().upper(a as nat) == s0.upper(a as nat));
                assert forall|y: nat| y < 512 && y != b implies #[trigger] self.state().lower(a as nat, y) == s0.lower(a as nat, y) by {
                    assert(self.state().at(f2, y) == s0.at(f2, y));
                }
            }
        }
        r
    }

    /// Makes sure the level-2 and level-1 tables above the leaf entries of root
    /// slot `a` and level-2 slot `b` exist, allocating any that is missing.
    ///
    /// Fails with `ParentEntryHugePage`, changing nothing, where a huge page
    /// covers the way. On failure no access granted on the way stays open, and
    /// no translation has changed; a table installed before the failure stays,
    /// empty.
    fn create_p1_if_not_exist<A: FrameAllocator>(&mut self, a: usize, b: usize, allocator: &mut A) -> (r: Result<(), MapToError>)
        requires
            old(self).wf(),
            a < 512,
            b < 512,
            !old(self).state().reserved(a as nat),
        ensures
            final(self).wf(),
            final(self).state().root == old(self).state().root,
            final(self).state().recursive_index == old(self).state().recursive_index,
            old(self).state().same_translations(final(self).state()),
            old(self).state().kept_but_path(final(self).state(), a as nat, b as nat, 512),
            r is Ok ==> final(self).state().chain_exists(a as nat, b as nat),
            !old(self).state().chain_exists(a as nat, b as nat) && r is Ok ==> forall|c: nat| c < 512 ==> (#[trigger] final(self).state().leaf(a as nat, b as nat, c)).spec_is_unused(),
            old(self).state().upper(a as nat).spec_is_unused() && r is Ok ==> forall|y: nat| y < 512 && y != b ==> (#[trigger] final(self).state().lower(a as nat, y)).spec_is_unused(),
            final(self).state().upper(a as nat) == old(self).state().upper(a as nat) || (old(self).state().upper(a as nat).spec_is_unused() && final(self).state().upper(a as nat).spec_is_table_pointer()),
            final(self).state().upper(a as nat).spec_is_table_pointer() && final(self).state().lower(a as nat, b as nat).spec_is_huge()
                ==> final(self).state().upper(a as nat) == old(self).state().upper(a as nat) && final(self).state().lower(a as nat, b as nat) == old(self).state().lower(a as nat, b as nat),
            old(self).state().upper(a as nat).spec_is_table_pointer() && !old(self).state().lower(a as nat, b as nat).spec_is_unused()
                ==> final(self).state().lower(a as nat, b as nat) == old(self).state().lower(a as nat, b as nat),
            old(self).state().upper(a as nat).spec_is_huge() || (old(self).state().upper(a as nat).spec_is_table_pointer() && !old(self).state().lower(a as nat, b as nat).spec_is_unused())
                ==> *final(allocator) == *old(allocator),
            old(self).state().upper(a as nat).spec_is_unused() && final(self).state().upper(a as nat).spec_is_table_pointer()
                ==> forall|y: nat| y < 512 && y != b ==> (#[trigger] final(self).state().lower(a as nat, y)).spec_is_unused(),
            old(self).state().chain_exists(a as nat, b as nat) ==> r is Ok && final(self).state() == old(self).state(),
            old(self).state().blocked(a as nat, b as nat) <==> r == Err::<(), MapToError>(MapToError::ParentEntryHugePage),
            r == Err::<(), MapToError>(MapToError::ParentEntryHugePage) ==> final(self).state() == old(self).state(),
            r == Err::<(), MapToError>(MapToError::FrameAllocationFailed) ==> !old(self).state().chain_exists(a as nat, b as nat),
            r is Err ==> r == Err::<(), MapToError>(MapToError::FrameAllocationFailed) || r == Err::<(), MapToError>(MapToError::ParentEntryHugePage),
            full_flushes_after(old(self).flush_log(), final(self).flush_log()),
    {
        let ghost s0 = self.state();
        match self.ensure_upper(a, allocator) {
            Ok(()) => {},
            Err(e) => {
                return Err(e);
            },
        }
        let ghost s1 = self.state();
        proof {
            assert(s0.upper_ok(a as nat));
            if s0.upper(a as nat).spec_is_unused() {
                assert(s1.lower(a as nat, b as nat).spec_is_unused());
                assert(!s0.blocked(a as nat, b as nat));
            } else {
                assert(s0.upper(a as nat).spec_is_table_pointer());
                assert(s1 == s0);
            }
        }
        let r = self.ensure_lower(a, b, allocator);
        proof {
            let s2 = self.state();
            assert forall|x: nat, y: nat, z: nat|
                x < 512 && y < 512 && z < 512 && !s0.reserved(x) implies #[trigger] s2.translate(x, y, z)
                    == s0.translate(x, y, z) by {
                assert(s1.translate(x, y, z) == s0.translate(x, y, z));
            }
            assert(s1.upper_ok(a as nat));
            let f2 = s1.upper(a as nat).frame@;
            assert(f2 != s1.root);
            assert(s2.upper(a as nat) == s1.upper(a as nat));
            assert forall|f: nat, i: nat|
                f < s0.frame_count() && i < 512 && s0.roles[f as int] != TableRole::Free
                    && !(f == s0.root && i == a)
                    && !(s2.upper(a as nat).spec_is_table_pointer() && f == s2.upper(a as nat).frame@ && i == b)
                    && !(s2.chain_exists(a as nat, b as nat) && f == s2.lower(a as nat, b as nat).frame@ && i == 512)
                    implies #[trigger] s2.at(f, i) == s0.at(f, i) by {
                assert(s1.at(f, i) == s0.at(f, i));
                assert(s1.roles[f as int] != TableRole::Free);
            }
        }
        r
    }

    /// Whether a huge page, mapped by root entry `a` or by entry `b` of the
    /// level-2 table under it, covers the pages with indices `(a, b, _)`.
    /// Leaves every entry as it found it.
    fn is_blocked(&mut self, a: usize, b: usize) -> (r: bool)
        requires
            old(self).wf(),
            a < 512,
            b < 512,
            !old(self).state().reserved(a as nat),
        ensures
            final(self).state() == old(self).state(),
            r == old(self).state().blocked(a as nat, b as nat),
            full_flushes_after(old(self).flush_log(), final(self).flush_log()),
    {
        let e3 = self.memory.entry(self.root, a);
        proof {
            assert(old(self).state().upper_ok(a as nat));
        }
        if e3.is_huge() {
            return true;
        }
        if !e3.is_table_pointer() {
            return false;
        }
        self.read_lower(a, b).is_huge()
    }

    /// Whether the page with table indices `(a, b, c)` is mapped: walks the
    /// tree through the recursive aliases, granting and taking back access on
    /// the way, and leaves every entry as it found it.
    pub fn is_mapped(&mut self, a: usize, b: usize, c: usize) -> (r: bool)
        requires
            old(self).wf(),
            a < 512,
            b < 512,
            c < 512,
            !old(self).state().reserved(a as nat),
        ensures
            final(self).state() == old(self).state(),
            r == old(self).state().translate(a as nat, b as nat, c as nat) is Some,
            full_flushes_after(old(self).flush_log(), final(self).flush_log()),
    {
        let ghost s0 = self.state();
        let e3 = self.memory.entry(self.root, a);
        if !e3.is_table_pointer() {
            return false;
        }
        let e2 = self.read_lower(a, b);
        if !e2.is_table_pointer() {
            return false;
        }
        proof {
            lemma_open_set_close(s0, a as nat, b as nat, c as nat, s0.leaf(a as nat, b as nat, c as nat));
            lemma_wf_walkable(s0, a as nat, b as nat);
        }
        let f1 = self.enter_p1(a, b);
        let e1 = self.memory.entry(f1, c);
        self.leave_p1(a, b);
        !e1.is_unused()
    }

    /// Puts the table together and records the role of each table of the
    /// tree; where the tables are not `tree_shaped` no role is recorded, and the
    /// result is not well formed.
    fn assemble(memory: PhysicalMemory, root: Frame, rec: usize, tlb: T) -> (r: Self)
        requires
            memory.wf(),
            self_mapped(memory, root, rec as nat),
        ensures
            r.wf() <==> tree_shaped(memory, root@, rec as nat),
            r.state().entries == memory@,
            r.state().root == root@,
            r.state().recursive_index == rec,
    {
        match scan_roles(&memory, root, rec) {
            Some(roles) => {
                let ghost s = scanned(memory, root@, rec as nat, roles@);
                let t = RecursivePageTable { memory, root, recursive_index: rec, roles, tlb };
                proof {
                    assert(t.state() == s);
                    assert forall|x: nat| x < 512 && !s.reserved(x) implies #[trigger] s.upper_ok(x) by {
                        assert(x != rec && x != rec + 1);
                    }
                }
                t
            },
            None => RecursivePageTable { memory, root, recursive_index: rec, roles: Vec::new(), tlb },
        }
    }

    /// Takes charge of the page tables in `memory` whose root, in frame
    /// `active_root` (the root the hardware uses), is seen at virtual address
    /// `table_addr`. Fails unless the root is `recursively_mapped`, and then
    /// hands `memory` back. The table is well formed, and so open to the
    /// mapping operations, exactly when the tables below the root are
    /// `tree_shaped` (see `check_tree`).
    pub fn new(memory: PhysicalMemory, table_addr: VirtAddr, active_root: Frame, tlb: T) -> (r: Result<Self, (NotRecursivelyMapped, PhysicalMemory)>)
        requires
            memory.wf(),
        ensures
            r is Ok <==> recursively_mapped(memory, table_addr, active_root),
            r matches Err((_, m)) ==> m@ == memory@,
            r matches Ok(t) ==> {
                &&& (t.wf() <==> tree_shaped(memory, active_root@, root_index_of(table_addr)))
                &&& t.state().entries == memory@
                &&& t.state().root == active_root@
                &&& t.state().recursive_index == root_index_of(table_addr)
            },
    {
        let count = memory.num_frames();
        if active_root.number() >= count as u64 {
            return Err((NotRecursivelyMapped, memory));
        }
        let page = Page::of_addr(table_addr);
        let rec = page.p3_index();
        if !(rec + 1 < ENTRY_COUNT && page.p2_index() == rec && page.p1_index() == rec + 1) {
            return Err((NotRecursivelyMapped, memory));
        }
        let e_rec = memory.entry(active_root, rec);
        let e_self = memory.entry(active_root, rec + 1);
        if !(e_rec.frame == active_root && e_rec.is_table_pointer() && e_self.frame == active_root
            && e_self.flags.valid && e_self.flags.readable && e_self.flags.writable) {
            return Err((NotRecursivelyMapped, memory));
        }
        Ok(Self::assemble(memory, active_root, rec, tlb))
    }

    /// Takes charge of the page tables in `memory` under root `root`, whose
    /// recursive index the caller gives, checking nothing of the root: the
    /// caller vouches that it maps itself. The table is well formed exactly
    /// when the tables below the root are `tree_shaped`.
    pub fn new_unchecked(memory: PhysicalMemory, root: Frame, recursive_index: usize, tlb: T) -> (r: Self)
        requires
            memory.wf(),
            self_mapped(memory, root, recursive_index as nat),
        ensures
            r.wf() <==> tree_shaped(memory, root@, recursive_index as nat),
            r.state().entries == memory@,
            r.state().root == root@,
            r.state().recursive_index == recursive_index,
    {
        Self::assemble(memory, root, recursive_index, tlb)
    }

    /// The arena of tables.
    pub fn memory(&self) -> (r: &PhysicalMemory)
        ensures
            r@ == self.state().entries,
    {
        &self.memory
    }

    /// The frame of the root table.
    pub fn root_frame(&self) -> (r: Frame)
        ensures
            r@ == self.state().root,
    {
        self.root
    }

    pub fn recursive_index(&self) -> (r: usize)
        ensures
            r == self.state().recursive_index,
    {
        self.recursive_index
    }

    /// The translation cache the table invalidates.
    pub fn tlb(&self) -> (r: &T)
        ensures
            r.flushes() == self.flush_log(),
    {
        &self.tlb
    }
}

impl<T: Tlb> Mapper for RecursivePageTable<T> {
    open spec fn paging_state(self) -> PagingState {
        self.state()
    }

    open spec fn tlb_flushes(self) -> Seq<TlbFlush> {
        self.flush_log()
    }

    /// Maps `page` to `frame` with `flags`, creating the tables above it from
    /// `allocator` where they are missing. A page that is mapped already is
    /// left as it is.
    fn map_to<A: FrameAllocator>(&mut self, page: Page, frame: Frame, flags: PageTableFlags, allocator: &mut A) -> (r: Result<MapperFlush, MapToError>)
    {
        let ghost s0 = self.state();
        let a = page.p3_index();
        let b = page.p2_index();
        let c = page.p1_index();
        match self.create_p1_if_not_exist(a, b, allocator) {
            Ok(()) => {},
            Err(e) => {
                proof {
                    let t = self.state();
                    assert forall|f: nat, i: nat|
                        f < s0.frame_count() && i < 512 && s0.roles[f as int] != TableRole::Free
                            && !(f == s0.root && i == a)
                            && !(t.upper(a as nat).spec_is_table_pointer() && f == t.upper(a as nat).frame@ && i == b)
                            && !(t.chain_exists(a as nat, b as nat) && f == t.lower(a as nat, b as nat).frame@ && i == c)
                            implies #[trigger] t.at(f, i) == s0.at(f, i) by {}
                    lemma_kept_path_keeps_self_mapping(s0, t, a as nat, b as nat, c as nat);
                }
                return Err(e);
            },
        }
        let ghost s1 = self.state();
        let e = PageTableEntry::new(frame, flags);
        proof {
            lemma_wf_walkable(s1, a as nat, b as nat);
            lemma_open_set_close(s1, a as nat, b as nat, c as nat, e);
        }
        let f1 = self.enter_p1(a, b);
        let cur = self.memory.entry(f1, c);
        if !cur.is_unused() {
            self.leave_p1(a, b);
            proof {
                assert(s1.translate(a as nat, b as nat, c as nat) is Some);
            }
            return Err(MapToError::PageAlreadyMapped);
        }
        self.memory.set_entry(f1, c, e);
        self.leave_p1(a, b);
        proof {
            let t = self.state();
            assert(s1.leaf_set(t, a as nat, b as nat, c as nat, e));
            lemma_leaf_set(s1, t, a as nat, b as nat, c as nat, e);
            assert(s1.translate(a as nat, b as nat, c as nat) is None);
            let f1s = s1.lower(a as nat, b as nat).frame@;
            let f2s = s1.upper(a as nat).frame@;
            lemma_wf_walkable(s1, a as nat, b as nat);
            lemma_update_elsewhere(s1, t, f1s, c as nat, e, s1.root, a as nat);
            lemma_update_elsewhere(s1, t, f1s, c as nat, e, f2s, b as nat);
            assert forall|f: nat, i: nat|
                f < s0.frame_count() && i < 512 && s0.roles[f as int] != TableRole::Free
                    && !(f == s0.root && i == a)
                    && !(t.upper(a as nat).spec_is_table_pointer() && f == t.upper(a as nat).frame@ && i == b)
                    && !(t.chain_exists(a as nat, b as nat) && f == t.lower(a as nat, b as nat).frame@ && i == c)
                    implies #[trigger] t.at(f, i) == s0.at(f, i) by {
                assert(s1.at(f, i) == s0.at(f, i));
                lemma_update_elsewhere(s1, t, f1s, c as nat, e, f, i);
            }
            lemma_kept_path_keeps_self_mapping(s0, t, a as nat, b as nat, c as nat);
            assert forall|z: nat| z < 512 && z != c implies #[trigger] t.leaf(a as nat, b as nat, z) == s1.leaf(a as nat, b as nat, z) by {
                lemma_update_elsewhere(s1, t, f1s, c as nat, e, f1s, z);
            }
            assert forall|y: nat| y < 512 implies #[trigger] t.lower(a as nat, y) == s1.lower(a as nat, y) by {
                lemma_update_elsewhere(s1, t, f1s, c as nat, e, f2s, y);
            }
            assert forall|x: nat, y: nat, z: nat|
                x < 512 && y < 512 && z < 512 && !s0.reserved(x) && !(x == a && y == b && z == c)
                    implies #[trigger] t.translate(x, y, z) == s0.translate(x, y, z) by {
                assert(s1.translate(x, y, z) == s0.translate(x, y, z));
            }
        }
        Ok(MapperFlush::new(page))
    }

    /// Removes the mapping of `page` and returns the frame it was mapped to.
    /// No table is freed.
    fn unmap(&mut self, page: Page) -> (r: Result<(Frame, MapperFlush), UnmapError>)
    {
        let ghost s0 = self.state();
        let a = page.p3_index();
        let b = page.p2_index();
        let c = page.p1_index();
        if !self.is_mapped(a, b, c) {
            if self.is_blocked(a, b) {
                return Err(UnmapError::ParentEntryHugePage);
            }
            return Err(UnmapError::PageNotMapped);
        }
        let e = PageTableEntry::unused();
        proof {
            lemma_wf_walkable(s0, a as nat, b as nat);
            lemma_open_set_close(s0, a as nat, b as nat, c as nat, e);
        }
        let f1 = self.enter_p1(a, b);
        let cur = self.memory.entry(f1, c);
        self.memory.set_entry(f1, c, e);
        self.leave_p1(a, b);
        proof {
            let t = self.state();
            assert(s0.leaf_set(t, a as nat, b as nat, c as nat, e));
            lemma_leaf_set(s0, t, a as nat, b as nat, c as nat, e);
        }
        Ok((cur.frame, MapperFlush::new(page)))
    }

    /// The frame that `page` is mapped to, if any. Walks the tree as
    /// `is_mapped` does and leaves every entry as it found it.
    fn translate_page(&mut self, page: Page) -> (r: Option<Frame>)
    {
        let ghost s0 = self.state();
        let a = page.p3_index();
        let b = page.p2_index();
        let c = page.p1_index();
        if a == self.recursive_index || a == self.recursive_index + 1 {
            return None;
        }
        if !self.is_mapped(a, b, c) {
            return None;
        }
        proof {
            lemma_wf_walkable(s0, a as nat, b as nat);
            lemma_open_set_close(s0, a as nat, b as nat, c as nat, s0.leaf(a as nat, b as nat, c as nat));
        }
        let f1 = self.enter_p1(a, b);
        let e = self.memory.entry(f1, c);
        self.leave_p1(a, b);
        if e.is_unused() {
            None
        } else {
            Some(e.frame)
        }
    }
}

} // verus!
