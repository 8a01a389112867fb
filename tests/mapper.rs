use recursive_paging::addr::{Frame, Page, PhysAddr, VirtAddr};
use recursive_paging::entry::{PageTableEntry, PageTableFlags};
use recursive_paging::frame_alloc::FrameAllocator;
use recursive_paging::memory::PhysicalMemory;
use recursive_paging::recursive::{
    MapToError, Mapper, NotRecursivelyMapped, RecursivePageTable, UnmapError,
};
use recursive_paging::tlb::FlushCounter;
use recursive_paging::tree::check_tree;

const FRAMES: usize = 16;
const ROOT: u64 = 2;

struct StackAllocator {
    frames: Vec<Frame>,
    handed_out: usize,
}

impl StackAllocator {
    fn with_frames(numbers: &[u64]) -> StackAllocator {
        StackAllocator {
            frames: numbers.iter().rev().map(|n| Frame::from_number(*n)).collect(),
            handed_out: 0,
        }
    }
}

impl FrameAllocator for StackAllocator {
    fn allocate_frame(&mut self) -> Option<Frame> {
        let f = self.frames.pop();
        if f.is_some() {
            self.handed_out += 1;
        }
        f
    }
}

fn rw() -> PageTableFlags {
    PageTableFlags { valid: true, readable: true, writable: true, ..PageTableFlags::empty() }
}

fn root_table_addr(rec: usize) -> VirtAddr {
    Page::from_page_table_indices(rec, rec, rec + 1).start_address()
}

fn recursive_memory(rec: usize) -> PhysicalMemory {
    let mut m = PhysicalMemory::new(FRAMES);
    let root = Frame::from_number(ROOT);
    m.set_entry(root, rec, PageTableEntry::new(root, PageTableFlags::table_pointer()));
    m.set_entry(root, rec + 1, PageTableEntry::new(root, rw()));
    m
}

fn table(rec: usize) -> RecursivePageTable<FlushCounter> {
    match RecursivePageTable::new(recursive_memory(rec), root_table_addr(rec), Frame::from_number(ROOT), FlushCounter::new()) {
        Ok(t) => t,
        Err(_) => panic!("the table is recursively mapped"),
    }
}

fn fresh_allocator() -> StackAllocator {
    StackAllocator::with_frames(&[3, 4, 5, 6, 7, 8, 9, 10])
}

/// Every entry above the leaves, outside the self-mapping, grants no read or write access.
fn access_closed(t: &RecursivePageTable<FlushCounter>) -> bool {
    let m = t.memory();
    let root = t.root_frame();
    let rec = t.recursive_index();
    for a in 0..512 {
        if a == rec || a == rec + 1 {
            continue;
        }
        let e = m.entry(root, a);
        if e.flags.readable || e.flags.writable {
            return false;
        }
        if !e.is_unused() {
            for b in 0..512 {
                let e2 = m.entry(e.frame, b);
                if e2.flags.readable || e2.flags.writable {
                    return false;
                }
            }
        }
    }
    true
}

#[test]
fn scenario_map_translate_unmap() {
    let mut t = table(510);
    let mut alloc = fresh_allocator();
    let page = Page::from_page_table_indices(3, 7, 9);
    let frame = Frame::of_addr(PhysAddr::new(0x1000));
    match t.map_to(page, frame, rw(), &mut alloc) {
        Ok(flush) => flush.flush(&mut t),
        Err(e) => panic!("map_to failed: {:?}", e),
    }
    assert_eq!(t.translate_page(page), Some(frame));
    assert_eq!(frame.start_address().as_u64(), 0x1000);
    match t.unmap(page) {
        Ok((f, flush)) => {
            assert_eq!(f, frame);
            flush.ignore();
        }
        Err(e) => panic!("unmap failed: {:?}", e),
    }
    assert_eq!(t.translate_page(page), None);
    assert!(matches!(t.unmap(page), Err(UnmapError::PageNotMapped)));
}

#[test]
fn round_trip_on_fresh_path() {
    let mut t = table(510);
    let mut alloc = fresh_allocator();
    let page = Page::from_page_table_indices(100, 200, 300);
    let frame = Frame::from_number(0x12345);
    assert_eq!(t.translate_page(page), None);
    assert!(t.map_to(page, frame, rw(), &mut alloc).is_ok());
    assert_eq!(alloc.handed_out, 2);
    assert_eq!(t.translate_page(page), Some(frame));
    let (f, flush) = match t.unmap(page) {
        Ok(x) => x,
        Err(e) => panic!("unmap failed: {:?}", e),
    };
    flush.ignore();
    assert_eq!(f, frame);
    assert_eq!(t.translate_page(page), None);
}

#[test]
fn mapping_reuses_existing_tables() {
    let mut t = table(510);
    let mut alloc = fresh_allocator();
    let p1 = Page::from_page_table_indices(3, 7, 9);
    let p2 = Page::from_page_table_indices(3, 7, 10);
    let p3 = Page::from_page_table_indices(3, 8, 10);
    assert!(t.map_to(p1, Frame::from_number(40), rw(), &mut alloc).is_ok());
    assert_eq!(alloc.handed_out, 2);
    assert!(t.map_to(p2, Frame::from_number(41), rw(), &mut alloc).is_ok());
    assert_eq!(alloc.handed_out, 2);
    assert!(t.map_to(p3, Frame::from_number(42), rw(), &mut alloc).is_ok());
    assert_eq!(alloc.handed_out, 3);
    assert_eq!(t.translate_page(p1), Some(Frame::from_number(40)));
    assert_eq!(t.translate_page(p2), Some(Frame::from_number(41)));
    assert_eq!(t.translate_page(p3), Some(Frame::from_number(42)));
    assert_eq!(t.translate_page(Page::from_page_table_indices(3, 8, 9)), None);
}

#[test]
fn double_map_is_refused_and_changes_nothing() {
    let mut t = table(510);
    let mut alloc = fresh_allocator();
    let page = Page::from_page_table_indices(3, 7, 9);
    let first = Frame::from_number(40);
    assert!(t.map_to(page, first, rw(), &mut alloc).is_ok());
    let before = t.memory().clone();
    let handed_out = alloc.handed_out;
    let r = t.map_to(page, Frame::from_number(41), rw(), &mut alloc);
    assert!(matches!(r, Err(MapToError::PageAlreadyMapped)));
    assert_eq!(t.memory(), &before);
    assert_eq!(alloc.handed_out, handed_out);
    assert_eq!(t.translate_page(page), Some(first));
}

#[test]
fn unmapping_a_never_mapped_page_changes_nothing() {
    let mut t = table(510);
    let mut alloc = fresh_allocator();
    assert!(t.map_to(Page::from_page_table_indices(3, 7, 9), Frame::from_number(40), rw(), &mut alloc).is_ok());
    let before = t.memory().clone();
    let never = [
        Page::from_page_table_indices(3, 7, 10),
        Page::from_page_table_indices(3, 8, 9),
        Page::from_page_table_indices(4, 7, 9),
    ];
    for page in never {
        assert!(matches!(t.unmap(page), Err(UnmapError::PageNotMapped)));
        assert_eq!(t.memory(), &before);
    }
}

#[test]
fn unmap_takes_any_used_leaf_entry() {
    let mut t = table(510);
    let mut alloc = fresh_allocator();
    let page = Page::from_page_table_indices(5, 6, 7);
    let flags = PageTableFlags { readable: true, ..PageTableFlags::empty() };
    assert!(t.map_to(page, Frame::from_number(40), flags, &mut alloc).is_ok());
    assert_eq!(t.translate_page(page), Some(Frame::from_number(40)));
    match t.unmap(page) {
        Ok((f, flush)) => {
            assert_eq!(f, Frame::from_number(40));
            flush.ignore();
        }
        Err(e) => panic!("unmap failed: {:?}", e),
    }
    assert_eq!(t.translate_page(page), None);
}

#[test]
fn translate_page_reports_self_mapping_pages_as_unmapped() {
    let mut t = table(510);
    let before = t.memory().clone();
    assert_eq!(t.translate_page(Page::from_page_table_indices(510, 510, 511)), None);
    assert_eq!(t.translate_page(Page::from_page_table_indices(511, 0, 0)), None);
    assert_eq!(t.memory(), &before);
}

#[test]
fn unmap_leaves_every_other_entry_alone() {
    let mut t = table(510);
    let mut alloc = fresh_allocator();
    let page = Page::from_page_table_indices(3, 7, 9);
    assert!(t.map_to(page, Frame::from_number(40), rw(), &mut alloc).is_ok());
    let before = t.memory().clone();
    assert!(t.unmap(page).is_ok());
    let after = t.memory();
    let root = t.root_frame();
    let p2 = before.entry(root, 3).frame;
    let p1 = before.entry(p2, 7).frame;
    for f in 0..FRAMES as u64 {
        for i in 0..512 {
            let fr = Frame::from_number(f);
            if fr == p1 && i == 9 {
                assert!(after.entry(fr, i).is_unused());
            } else {
                assert_eq!(after.entry(fr, i), before.entry(fr, i));
            }
        }
    }
}

#[test]
fn no_access_left_open_after_operations() {
    let mut t = table(510);
    assert!(access_closed(&t));
    let mut alloc = fresh_allocator();
    let page = Page::from_page_table_indices(3, 7, 9);
    assert!(t.map_to(page, Frame::from_number(40), rw(), &mut alloc).is_ok());
    assert!(access_closed(&t));
    assert!(t.map_to(page, Frame::from_number(41), rw(), &mut alloc).is_err());
    assert!(access_closed(&t));
    assert!(t.translate_page(page).is_some());
    assert!(access_closed(&t));
    assert!(t.unmap(page).is_ok());
    assert!(access_closed(&t));
    assert!(t.unmap(page).is_err());
    assert!(access_closed(&t));
    let mut empty = StackAllocator::with_frames(&[]);
    assert!(t.map_to(Page::from_page_table_indices(9, 9, 9), Frame::from_number(40), rw(), &mut empty).is_err());
    assert!(access_closed(&t));
}

#[test]
fn allocator_exhaustion_leaves_no_open_access_and_retry_succeeds() {
    for n in 0..2 {
        let numbers: Vec<u64> = (3..3 + n as u64).collect();
        let mut t = table(510);
        let page = Page::from_page_table_indices(20, 30, 40);
        let frame = Frame::from_number(77);
        let mut short = StackAllocator::with_frames(&numbers);
        let r = t.map_to(page, frame, rw(), &mut short);
        assert!(matches!(r, Err(MapToError::FrameAllocationFailed)));
        assert_eq!(short.handed_out, n);
        assert!(access_closed(&t));
        assert_eq!(t.translate_page(page), None);
        let mut enough = StackAllocator::with_frames(&[8, 9]);
        assert!(t.map_to(page, frame, rw(), &mut enough).is_ok());
        assert_eq!(t.translate_page(page), Some(frame));
        assert!(access_closed(&t));
    }
}

#[test]
fn unusable_frame_from_allocator_fails_the_mapping() {
    let mut t = table(510);
    let page = Page::from_page_table_indices(20, 30, 40);
    let before = t.memory().clone();
    let mut gives_root = StackAllocator::with_frames(&[ROOT]);
    assert!(matches!(t.map_to(page, Frame::from_number(77), rw(), &mut gives_root), Err(MapToError::FrameAllocationFailed)));
    assert_eq!(t.memory(), &before);
    let mut out_of_range = StackAllocator::with_frames(&[FRAMES as u64]);
    assert!(matches!(t.map_to(page, Frame::from_number(77), rw(), &mut out_of_range), Err(MapToError::FrameAllocationFailed)));
    assert_eq!(t.memory(), &before);
    let mut twice = StackAllocator::with_frames(&[5, 5]);
    assert!(matches!(t.map_to(page, Frame::from_number(77), rw(), &mut twice), Err(MapToError::FrameAllocationFailed)));
    assert!(access_closed(&t));
    assert_eq!(t.translate_page(page), None);
}

#[test]
fn translate_twice_agrees_and_changes_nothing() {
    let mut t = table(510);
    let mut alloc = fresh_allocator();
    let page = Page::from_page_table_indices(3, 7, 9);
    assert!(t.map_to(page, Frame::from_number(40), rw(), &mut alloc).is_ok());
    for probe in [page, Page::from_page_table_indices(3, 7, 8), Page::from_page_table_indices(6, 6, 6)] {
        let before = t.memory().clone();
        let first = t.translate_page(probe);
        let second = t.translate_page(probe);
        assert_eq!(first, second);
        assert_eq!(t.memory(), &before);
    }
}

#[test]
fn identity_map_places_frame_at_its_own_address() {
    let mut t = table(510);
    let mut alloc = fresh_allocator();
    let frame = Frame::of_addr(PhysAddr::new(0x8020_0000));
    assert!(t.identity_map(frame, rw(), &mut alloc).is_ok());
    let page = Page::of_addr(VirtAddr::new(frame.start_address().as_u64()));
    assert_eq!(page.start_address().as_u64(), 0x8020_0000);
    assert_eq!(t.translate_page(page), Some(frame));
}

#[test]
fn is_mapped_follows_the_chain() {
    let mut t = table(510);
    let mut alloc = fresh_allocator();
    assert!(!t.is_mapped(3, 7, 9));
    assert!(t.map_to(Page::from_page_table_indices(3, 7, 9), Frame::from_number(40), rw(), &mut alloc).is_ok());
    assert!(t.is_mapped(3, 7, 9));
    assert!(!t.is_mapped(3, 7, 10));
    assert!(!t.is_mapped(3, 8, 9));
    assert!(!t.is_mapped(4, 7, 9));
}

#[test]
fn walker_flushes_around_each_access_change() {
    let mut t = table(510);
    let mut alloc = fresh_allocator();
    assert_eq!(t.tlb().all, 0);
    let flush = match t.map_to(Page::from_page_table_indices(3, 7, 9), Frame::from_number(40), rw(), &mut alloc) {
        Ok(f) => f,
        Err(e) => panic!("map_to failed: {:?}", e),
    };
    assert!(t.tlb().all > 0);
    assert_eq!(t.tlb().all % 2, 0);
    assert_eq!(t.tlb().pages, 0);
    flush.flush(&mut t);
    assert_eq!(t.tlb().pages, 1);
}

#[test]
fn new_accepts_a_recursively_mapped_root() {
    let t = table(510);
    assert_eq!(t.recursive_index(), 510);
    assert_eq!(t.root_frame(), Frame::from_number(ROOT));
    let t = table(0);
    assert_eq!(t.recursive_index(), 0);
}

#[test]
fn new_accepts_existing_tables_below_the_root() {
    let mut m = recursive_memory(510);
    let root = Frame::from_number(ROOT);
    m.set_entry(root, 3, PageTableEntry::new(Frame::from_number(4), PageTableFlags::table_pointer()));
    m.set_entry(Frame::from_number(4), 7, PageTableEntry::new(Frame::from_number(5), PageTableFlags::table_pointer()));
    m.set_entry(Frame::from_number(5), 9, PageTableEntry::new(Frame::from_number(40), rw()));
    let mut t = match RecursivePageTable::new(m, root_table_addr(510), root, FlushCounter::new()) {
        Ok(t) => t,
        Err(_) => panic!("the tree is well formed"),
    };
    assert_eq!(t.translate_page(Page::from_page_table_indices(3, 7, 9)), Some(Frame::from_number(40)));
}

fn new_fails(m: PhysicalMemory, addr: VirtAddr, root: Frame) -> bool {
    let copy = m.clone();
    match RecursivePageTable::new(m, addr, root, FlushCounter::new()) {
        Err((NotRecursivelyMapped, back)) => back == copy,
        Ok(_) => false,
    }
}

#[test]
fn new_refuses_a_root_that_is_not_recursively_mapped() {
    let root = Frame::from_number(ROOT);
    // address indices not of the form (r, r, r + 1)
    assert!(new_fails(recursive_memory(510), Page::from_page_table_indices(510, 510, 510).start_address(), root));
    // another root than the active one
    assert!(new_fails(recursive_memory(510), root_table_addr(510), Frame::from_number(3)));
    // root outside the arena
    assert!(new_fails(recursive_memory(510), root_table_addr(510), Frame::from_number(FRAMES as u64)));
    // recursive entry executable but neither readable nor writable is accepted
    let mut m = recursive_memory(510);
    m.set_entry(root, 510, PageTableEntry::new(root, PageTableFlags { valid: true, executable: true, ..PageTableFlags::empty() }));
    assert!(RecursivePageTable::new(m, root_table_addr(510), root, FlushCounter::new()).is_ok());
    // recursive entry readable
    let mut m = recursive_memory(510);
    m.set_entry(root, 510, PageTableEntry::new(root, rw()));
    assert!(new_fails(m, root_table_addr(510), root));
    // self-mapping entry not writable
    let mut m = recursive_memory(510);
    m.set_entry(root, 511, PageTableEntry::new(root, PageTableFlags { valid: true, readable: true, ..PageTableFlags::empty() }));
    assert!(new_fails(m, root_table_addr(510), root));
    // no self-mapping at all
    assert!(new_fails(PhysicalMemory::new(FRAMES), root_table_addr(510), root));
}

fn accepted_but_not_a_tree(m: PhysicalMemory) -> bool {
    let root = Frame::from_number(ROOT);
    let shaped = check_tree(&m, root, 510);
    match RecursivePageTable::new(m, root_table_addr(510), root, FlushCounter::new()) {
        Ok(t) => !shaped && !check_tree(t.memory(), t.root_frame(), t.recursive_index()),
        Err(_) => false,
    }
}

#[test]
fn new_accepts_but_flags_tables_that_do_not_form_a_tree() {
    let root = Frame::from_number(ROOT);
    // two root entries share one level-2 table
    let mut m = recursive_memory(510);
    m.set_entry(root, 3, PageTableEntry::new(Frame::from_number(4), PageTableFlags::table_pointer()));
    m.set_entry(root, 5, PageTableEntry::new(Frame::from_number(4), PageTableFlags::table_pointer()));
    assert!(accepted_but_not_a_tree(m));
    // a root entry points back at the root
    let mut m = recursive_memory(510);
    m.set_entry(root, 3, PageTableEntry::new(root, PageTableFlags::table_pointer()));
    assert!(accepted_but_not_a_tree(m));
    // an entry above the leaves that is neither unused nor valid
    let mut m = recursive_memory(510);
    m.set_entry(root, 3, PageTableEntry::new(Frame::from_number(4), PageTableFlags { readable: true, ..PageTableFlags::empty() }));
    assert!(accepted_but_not_a_tree(m));
    // a well-formed tree passes the check
    assert!(check_tree(&recursive_memory(510), root, 510));
}

#[test]
fn page_indices_and_addresses() {
    let page = Page::from_page_table_indices(3, 7, 9);
    assert_eq!(page.p3_index(), 3);
    assert_eq!(page.p2_index(), 7);
    assert_eq!(page.p1_index(), 9);
    assert_eq!(page.start_address().as_u64(), (3u64 << 30) | (7 << 21) | (9 << 12));
    let page = Page::of_addr(VirtAddr::new(0x0000_003f_c020_1abc));
    assert_eq!(page.p3_index(), 255);
    assert_eq!(page.p2_index(), 1);
    assert_eq!(page.p1_index(), 1);
    assert_eq!(page.start_address().as_u64(), 0x0000_003f_c020_1000);
    let frame = Frame::of_addr(PhysAddr::new(0x8020_0fff));
    assert_eq!(frame.number(), 0x80200);
    assert_eq!(frame.start_address().as_u64(), 0x8020_0000);
}

#[test]
fn entries_and_flags() {
    assert!(PageTableEntry::unused().is_unused());
    let e = PageTableEntry::new(Frame::from_number(0), PageTableFlags::table_pointer());
    assert!(!e.is_unused());
    assert!(e.is_table_pointer());
    assert!(!PageTableEntry::new(Frame::from_number(1), rw()).is_table_pointer());
    assert!(!PageTableEntry::new(Frame::from_number(1), PageTableFlags::empty()).is_unused());
    let m = PhysicalMemory::new(3);
    assert_eq!(m.num_frames(), 3);
    assert!(m.entry(Frame::from_number(2), 511).is_unused());
}

#[test]
fn new_unchecked_takes_the_given_index() {
    let mut t = RecursivePageTable::new_unchecked(recursive_memory(510), Frame::from_number(ROOT), 510, FlushCounter::new());
    assert_eq!(t.recursive_index(), 510);
    let mut alloc = fresh_allocator();
    let page = Page::from_page_table_indices(3, 7, 9);
    assert!(t.map_to(page, Frame::from_number(40), rw(), &mut alloc).is_ok());
    assert_eq!(t.translate_page(page), Some(Frame::from_number(40)));
    assert!(access_closed(&t));
}

#[test]
fn huge_pages_above_the_leaves_are_accepted_and_block_mapping() {
    let root = Frame::from_number(ROOT);
    let mut m = recursive_memory(510);
    // root entry 3 maps a huge page
    m.set_entry(root, 3, PageTableEntry::new(Frame::from_number(0x40000), rw()));
    // root entry 4 points at a level-2 table whose entry 7 maps a huge page
    m.set_entry(root, 4, PageTableEntry::new(Frame::from_number(5), PageTableFlags::table_pointer()));
    m.set_entry(Frame::from_number(5), 7, PageTableEntry::new(Frame::from_number(0x200), rw()));
    let mut t = match RecursivePageTable::new(m, root_table_addr(510), root, FlushCounter::new()) {
        Ok(t) => t,
        Err(_) => panic!("huge pages are allowed above the leaves"),
    };
    let mut alloc = StackAllocator::with_frames(&[8, 9]);
    let before = t.memory().clone();
    let under_root_huge = Page::from_page_table_indices(3, 7, 9);
    assert!(matches!(t.map_to(under_root_huge, Frame::from_number(40), rw(), &mut alloc), Err(MapToError::ParentEntryHugePage)));
    let under_lower_huge = Page::from_page_table_indices(4, 7, 9);
    assert!(matches!(t.map_to(under_lower_huge, Frame::from_number(40), rw(), &mut alloc), Err(MapToError::ParentEntryHugePage)));
    assert_eq!(t.memory(), &before);
    assert_eq!(alloc.handed_out, 0);
    assert_eq!(t.translate_page(under_root_huge), None);
    assert!(matches!(t.unmap(under_root_huge), Err(UnmapError::ParentEntryHugePage)));
    assert!(matches!(t.unmap(under_lower_huge), Err(UnmapError::ParentEntryHugePage)));
    assert!(matches!(t.unmap(Page::from_page_table_indices(4, 8, 9)), Err(UnmapError::PageNotMapped)));
    assert_eq!(t.memory(), &before);
    let beside = Page::from_page_table_indices(4, 8, 9);
    assert!(t.map_to(beside, Frame::from_number(40), rw(), &mut alloc).is_ok());
    assert_eq!(alloc.handed_out, 1);
    assert_eq!(t.translate_page(beside), Some(Frame::from_number(40)));
    assert_eq!(t.memory().entry(root, 3), before.entry(root, 3));
}
