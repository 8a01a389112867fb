//! Properties of the mapper that relate several of its operations.
use vstd::prelude::*;
use crate::addr::{Frame, p1_of, p2_of, p3_of};
use crate::entry::{PageTableEntry, PageTableFlags};
use crate::recursive::{
    identity_vpn, map_to_post, translate_post, unmap_post, MapToError, MapperFlush, UnmapError,
};
use crate::state::{lemma_wf_access_closed, PagingState};

verus! {

/// Mapping an unmapped page to a frame, with an entry that is not all zero,
/// makes it translate to that frame; unmapping it then hands that frame back, after which the page
/// translates to nothing.
pub proof fn lemma_map_unmap_round_trip(
    s0: PagingState,
    s1: PagingState,
    s2: PagingState,
    vpn: nat,
    frame: Frame,
    flags: PageTableFlags,
    mapped: Result<MapperFlush, MapToError>,
    unmapped: Result<(Frame, MapperFlush), UnmapError>,
)
    requires
        s0.wf(),
        !s0.reserved_page(vpn),
        s0.translate_page(vpn) is None,
        !(PageTableEntry { frame, flags }).spec_is_unused(),
        map_to_post(s0, s1, vpn, frame, flags, mapped),
        mapped is Ok,
        unmap_post(s1, s2, vpn, unmapped),
    ensures
        s1.translate_page(vpn) == Some(frame),
        unmapped matches Ok((f, _)) && f == frame,
        s2.translate_page(vpn) is None,
{
}

/// Mapping a page that is mapped already fails with `PageAlreadyMapped` and
/// changes nothing.
pub proof fn lemma_no_double_map(
    s0: PagingState,
    s1: PagingState,
    vpn: nat,
    frame: Frame,
    flags: PageTableFlags,
    r: Result<MapperFlush, MapToError>,
)
    requires
        s0.wf(),
        s0.translate_page(vpn) is Some,
        map_to_post(s0, s1, vpn, frame, flags, r),
    ensures
        r == Err::<MapperFlush, MapToError>(MapToError::PageAlreadyMapped),
        s1 == s0,
{
}

/// Unmapping a page that is not mapped, and lies under no huge page, fails
/// with `PageNotMapped` and changes nothing.
pub proof fn lemma_no_phantom_unmap(
    s0: PagingState,
    s1: PagingState,
    vpn: nat,
    r: Result<(Frame, MapperFlush), UnmapError>,
)
    requires
        s0.wf(),
        s0.translate_page(vpn) is None,
        !s0.blocked(p3_of(vpn), p2_of(vpn)),
        unmap_post(s0, s1, vpn, r),
    ensures
        r == Err::<(Frame, MapperFlush), UnmapError>(UnmapError::PageNotMapped),
        s1 == s0,
{
}

/// After a mapping or an unmapping, whatever its outcome, no entry that leads
/// to a table of the tree is left open for reading or writing.
pub proof fn lemma_access_closed_after_ops(
    s0: PagingState,
    s1: PagingState,
    s2: PagingState,
    vpn: nat,
    frame: Frame,
    flags: PageTableFlags,
    mapped: Result<MapperFlush, MapToError>,
    unmapped: Result<(Frame, MapperFlush), UnmapError>,
)
    requires
        map_to_post(s0, s1, vpn, frame, flags, mapped),
        unmap_post(s0, s2, vpn, unmapped),
    ensures
        s1.access_closed(),
        s2.access_closed(),
{
    lemma_wf_access_closed(s1);
    lemma_wf_access_closed(s2);
}

/// When the allocator runs out while `map_to` builds tables, no access is left
/// open, no page translates differently, the page is still unmapped, and a
/// retry from the resulting state cannot fail with `PageAlreadyMapped`: if it
/// succeeds, the page translates to the frame.
pub proof fn lemma_allocation_failure(
    s0: PagingState,
    s1: PagingState,
    s2: PagingState,
    vpn: nat,
    frame: Frame,
    flags: PageTableFlags,
    first: Result<MapperFlush, MapToError>,
    retry: Result<MapperFlush, MapToError>,
)
    requires
        s0.wf(),
        !s0.reserved_page(vpn),
        map_to_post(s0, s1, vpn, frame, flags, first),
        first == Err::<MapperFlush, MapToError>(MapToError::FrameAllocationFailed),
        map_to_post(s1, s2, vpn, frame, flags, retry),
    ensures
        s1.access_closed(),
        s0.same_translations(s1),
        s1.translate_page(vpn) is None,
        retry != Err::<MapperFlush, MapToError>(MapToError::PageAlreadyMapped),
        retry is Ok && !(PageTableEntry { frame, flags }).spec_is_unused() ==> s2.translate_page(vpn) == Some(frame),
{
    lemma_wf_access_closed(s1);
}

/// Two translations in a row, with nothing in between, agree and change
/// nothing.
pub proof fn lemma_translate_twice(
    s0: PagingState,
    s1: PagingState,
    s2: PagingState,
    vpn: nat,
    first: Option<Frame>,
    second: Option<Frame>,
)
    requires
        translate_post(s0, s1, vpn, first),
        translate_post(s1, s2, vpn, second),
    ensures
        first == second,
        s2 == s0,
        first == (if s0.reserved_page(vpn) { None } else { s0.translate_page(vpn) }),
{
}

/// A successful identity mapping makes the page whose address equals the
/// frame's address translate to the frame, unless the entry written is the
/// all-zero one.
pub proof fn lemma_identity_map_placement(
    s0: PagingState,
    s1: PagingState,
    frame: Frame,
    flags: PageTableFlags,
    r: Result<MapperFlush, MapToError>,
)
    requires
        map_to_post(s0, s1, identity_vpn(frame), frame, flags, r),
        r is Ok,
        !(PageTableEntry { frame, flags }).spec_is_unused(),
    ensures
        s1.translate_page(identity_vpn(frame)) == Some(frame),
{
}

/// Whatever its outcome, `map_to` leaves no entry above the leaves newly open
/// for reading or writing: every such entry that grants access afterwards (a
/// huge page) was there, the same, before.
pub proof fn lemma_map_to_opens_no_access(
    s: PagingState,
    t: PagingState,
    vpn: nat,
    frame: Frame,
    flags: PageTableFlags,
    r: Result<MapperFlush, MapToError>,
)
    requires
        s.wf(),
        !s.reserved_page(vpn),
        map_to_post(s, t, vpn, frame, flags, r),
    ensures
        forall|x: nat| x < 512 && !s.reserved(x) && (#[trigger] t.upper(x)).spec_is_huge() ==> t.upper(x) == s.upper(x),
        forall|x: nat, y: nat|
            x < 512 && y < 512 && !s.reserved(x) && t.upper(x).spec_is_table_pointer() && (#[trigger] t.lower(x, y)).spec_is_huge()
                ==> t.upper(x) == s.upper(x) && t.lower(x, y) == s.lower(x, y),
{
    let a = p3_of(vpn);
    let b = p2_of(vpn);
    let c = p1_of(vpn);
    if r is Ok || r == Err::<MapperFlush, MapToError>(MapToError::FrameAllocationFailed) {
        assert(s.kept_but_path(t, a, b, c));
        assert(t.upper_ok(a));
        if t.upper(a).spec_is_table_pointer() {
            assert(t.lower_ok(a, b));
        }
        assert forall|x: nat| x < 512 && !s.reserved(x) && (#[trigger] t.upper(x)).spec_is_huge() implies t.upper(x) == s.upper(x) by {
            if x != a {
                assert(t.at(s.root, x) == s.at(s.root, x));
            }
        }
        assert forall|x: nat, y: nat|
            x < 512 && y < 512 && !s.reserved(x) && t.upper(x).spec_is_table_pointer() && (#[trigger] t.lower(x, y)).spec_is_huge()
                implies t.upper(x) == s.upper(x) && t.lower(x, y) == s.lower(x, y) by {
            assert(t.upper_ok(x));
            if x != a {
                assert(t.at(s.root, x) == s.at(s.root, x));
                assert(s.upper_ok(x));
                let f2 = s.upper(x).frame@;
                assert(t.at(f2, y) == s.at(f2, y));
            } else if y != b {
                if t.upper(a) == s.upper(a) {
                    assert(s.upper_ok(a));
                    let f2 = s.upper(a).frame@;
                    assert(t.lower_ok(a, b));
                    assert(t.at(f2, y) == s.at(f2, y));
                }
            }
        }
    }
}

} // verus!
