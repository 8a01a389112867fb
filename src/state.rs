//! The abstract state of a recursively mapped three-level page table, its
//! well-formedness, and what it translates each virtual page to.
use vstd::prelude::*;
use crate::addr::{Frame, p1_of, p2_of, p3_of};
use crate::entry::{PageTableEntry, PageTableFlags};
use crate::memory::{lemma_slot_in_range, lemma_slots_distinct};

verus! {

/// What a frame of the arena is used for, as far as the table tree goes.
///
/// Each table of the tree records its own place in it, so that two places
/// never share a frame, and a frame that is not in the tree is known to be free.
#[derive(Clone, Copy, Debug, PartialEq, Eq, Structural)]
pub enum TableRole {
    /// Not a table of the tree.
    Free,
    /// The root table.
    Root,
    /// The level-2 table under root slot `slot`.
    Upper { slot: usize },
    /// The level-1 table under root slot `slot` and level-2 slot `sub`.
    Lower { slot: usize, sub: usize },
}

/// The flags of an entry that points at a lower table.
pub open spec fn pointer_flags() -> PageTableFlags {
    PageTableFlags { valid: true, ..PageTableFlags::spec_empty() }
}

/// `e` with its read and write permission both set to `on`.
pub open spec fn with_access(e: PageTableEntry, on: bool) -> PageTableEntry {
    PageTableEntry { flags: PageTableFlags { readable: on, writable: on, ..e.flags }, ..e }
}

/// Everything the mapper's behaviour depends on: the arena's entries, the root
/// frame, the recursive index, and the role of each frame.
pub struct PagingState {
    pub entries: Seq<PageTableEntry>,
    pub root: nat,
    pub recursive_index: nat,
    pub roles: Seq<TableRole>,
}

impl PagingState {
    pub open spec fn frame_count(self) -> nat {
        self.entries.len() / 512
    }

    /// Entry `i` of the table in frame `f`.
    pub open spec fn at(self, f: nat, i: nat) -> PageTableEntry {
        self.entries[(f * 512 + i) as int]
    }

    /// Root slots that hold the self-mapping.
    pub open spec fn reserved(self, a: nat) -> bool {
        a == self.recursive_index || a == self.recursive_index + 1
    }

    /// Root entry `a`.
    pub open spec fn upper(self, a: nat) -> PageTableEntry {
        self.at(self.root, a)
    }

    /// Entry `b` of the level-2 table under root entry `a`.
    pub open spec fn lower(self, a: nat, b: nat) -> PageTableEntry {
        self.at(self.upper(a).frame@, b)
    }

    /// Entry `c` of the level-1 table under `a` and `b`.
    pub open spec fn leaf(self, a: nat, b: nat, c: nat) -> PageTableEntry {
        self.at(self.lower(a, b).frame@, c)
    }

    /// `e` points at a table of the arena that records the place `role`.
    pub open spec fn refers(self, e: PageTableEntry, role: TableRole) -> bool {
        &&& e.spec_is_table_pointer()
        &&& e.frame@ < self.frame_count()
        &&& self.roles[e.frame@ as int] == role
    }

    /// `e` maps a huge page, at a frame that is not the table of the place `role`.
    pub open spec fn huge_ok(self, e: PageTableEntry, role: TableRole) -> bool {
        &&& e.spec_is_huge()
        &&& !(e.frame@ < self.frame_count() && self.roles[e.frame@ as int] == role)
    }

    pub open spec fn lower_ok(self, a: nat, b: nat) -> bool {
        ||| self.lower(a, b).spec_is_unused()
        ||| self.huge_ok(self.lower(a, b), TableRole::Lower { slot: a as usize, sub: b as usize })
        ||| self.refers(self.lower(a, b), TableRole::Lower { slot: a as usize, sub: b as usize })
    }

    pub open spec fn upper_ok(self, a: nat) -> bool {
        ||| self.upper(a).spec_is_unused()
        ||| self.huge_ok(self.upper(a), TableRole::Upper { slot: a as usize })
        ||| {
            &&& self.refers(self.upper(a), TableRole::Upper { slot: a as usize })
            &&& forall|b: nat| b < 512 ==> #[trigger] self.lower_ok(a, b)
        }
    }

    /// Root entry `r` points back at the root as a table, and entry `r + 1`
    /// maps the root as a readable and writable page.
    pub open spec fn recursive_slots_ok(self) -> bool {
        let r = self.recursive_index;
        &&& self.upper(r).frame@ == self.root
        &&& self.upper(r).spec_is_table_pointer()
        &&& self.upper(r + 1).frame@ == self.root
        &&& self.upper(r + 1).flags.valid
        &&& self.upper(r + 1).flags.readable
        &&& self.upper(r + 1).flags.writable
    }

    pub open spec fn wf(self) -> bool {
        &&& self.entries.len() % 512 == 0
        &&& self.root < self.frame_count()
        &&& self.recursive_index + 1 < 512
        &&& self.roles.len() == self.frame_count()
        &&& self.roles[self.root as int] == TableRole::Root
        &&& self.recursive_slots_ok()
        &&& forall|a: nat| a < 512 && !self.reserved(a) ==> #[trigger] self.upper_ok(a)
    }

    /// No entry above the leaf level, outside the self-mapping, that points at
    /// the table recorded for its place grants read or write access. (A huge
    /// page grants them by nature, and never maps a table of the tree.)
    pub open spec fn access_closed(self) -> bool {
        &&& forall|a: nat|
            a < 512 && !self.reserved(a) && self.upper(a).frame@ < self.frame_count()
                && self.roles[self.upper(a).frame@ as int] == (TableRole::Upper { slot: a as usize })
                ==> !(#[trigger] self.upper(a)).flags.readable && !self.upper(a).flags.writable
        &&& forall|a: nat, b: nat|
            a < 512 && b < 512 && !self.reserved(a) && self.upper(a).spec_is_table_pointer()
                && self.lower(a, b).frame@ < self.frame_count()
                && self.roles[self.lower(a, b).frame@ as int] == (TableRole::Lower { slot: a as usize, sub: b as usize })
                ==> !(#[trigger] self.lower(a, b)).flags.readable && !self.lower(a, b).flags.writable
    }

    /// Both tables above the leaf entry of `(a, b, _)` are present, each
    /// pointed at by a table entry.
    pub open spec fn chain_exists(self, a: nat, b: nat) -> bool {
        self.upper(a).spec_is_table_pointer() && self.lower(a, b).spec_is_table_pointer()
    }

    /// A huge page, mapped by root entry `a` or by entry `b` of the level-2
    /// table under it, covers the pages with indices `(a, b, _)`.
    pub open spec fn blocked(self, a: nat, b: nat) -> bool {
        ||| self.upper(a).spec_is_huge()
        ||| (self.upper(a).spec_is_table_pointer() && self.lower(a, b).spec_is_huge())
    }

    /// The frame that the page with indices `(a, b, c)` is mapped to.
    pub open spec fn translate(self, a: nat, b: nat, c: nat) -> Option<Frame> {
        if self.chain_exists(a, b) && !self.leaf(a, b, c).spec_is_unused() {
            Some(self.leaf(a, b, c).frame)
        } else {
            None
        }
    }

    /// The frame that virtual page number `vpn` is mapped to.
    pub open spec fn translate_page(self, vpn: nat) -> Option<Frame> {
        self.translate(p3_of(vpn), p2_of(vpn), p1_of(vpn))
    }

    /// Both tables above the leaf entry of virtual page number `vpn` are present.
    pub open spec fn chain_exists_page(self, vpn: nat) -> bool {
        self.chain_exists(p3_of(vpn), p2_of(vpn))
    }

    /// The leaf entry of virtual page number `vpn`, when its tables are present.
    pub open spec fn leaf_of_page(self, vpn: nat) -> PageTableEntry {
        self.leaf(p3_of(vpn), p2_of(vpn), p1_of(vpn))
    }

    /// Virtual page number `vpn` lies in the range the self-mapping occupies.
    pub open spec fn reserved_page(self, vpn: nat) -> bool {
        self.reserved(p3_of(vpn))
    }

    /// Every page outside the self-mapping translates in `other` as in `self`.
    pub open spec fn same_translations(self, other: PagingState) -> bool {
        forall|x: nat, y: nat, z: nat|
            x < 512 && y < 512 && z < 512 && !self.reserved(x) ==> #[trigger] other.translate(x, y, z)
                == self.translate(x, y, z)
    }

    /// Every page outside the self-mapping but `(a, b, c)` translates in
    /// `other` as in `self`.
    pub open spec fn same_translations_except(self, other: PagingState, a: nat, b: nat, c: nat) -> bool {
        forall|x: nat, y: nat, z: nat|
            x < 512 && y < 512 && z < 512 && !self.reserved(x) && !(x == a && y == b && z == c)
                ==> #[trigger] other.translate(x, y, z) == self.translate(x, y, z)
    }

    /// The frame a hardware walk reaches for the virtual page with indices
    /// `(a, b, c)`, when that page is a readable and writable 4 KiB page.
    pub open spec fn alias_walk(self, a: nat, b: nat, c: nat) -> Option<Frame> {
        let e2 = self.upper(a);
        if !(e2.spec_is_table_pointer() && e2.frame@ < self.frame_count()) {
            None
        } else {
            let e1 = self.at(e2.frame@, b);
            if !(e1.spec_is_table_pointer() && e1.frame@ < self.frame_count()) {
                None
            } else {
                let e0 = self.at(e1.frame@, c);
                if e0.flags.valid && e0.flags.readable && e0.flags.writable {
                    Some(e0.frame)
                } else {
                    None
                }
            }
        }
    }

    /// The root's self-mapping and root entry `a` are in place to reach the
    /// level-2 table under `a` through its recursive alias.
    pub open spec fn walkable(self, a: nat) -> bool {
        &&& self.entries.len() % 512 == 0
        &&& self.root < self.frame_count()
        &&& self.recursive_index + 1 < 512
        &&& self.upper(self.recursive_index).frame@ == self.root
        &&& self.upper(self.recursive_index).spec_is_table_pointer()
        &&& a < 512
        &&& a != self.recursive_index
        &&& self.upper(a).spec_is_table_pointer()
        &&& self.upper(a).frame@ < self.frame_count()
        &&& self.upper(a).frame@ != self.root
    }

    /// The arena slot of entry `b` of the level-2 table under root entry `a`.
    pub open spec fn lower_slot(self, a: nat, b: nat) -> int {
        (self.upper(a).frame@ * 512 + b) as int
    }

    /// `self` with read and write access set to `on` on entry `b` of the
    /// level-2 table under root entry `a`.
    pub open spec fn with_lower_access(self, a: nat, b: nat, on: bool) -> PagingState {
        PagingState {
            entries: self.entries.update(self.lower_slot(a, b), with_access(self.lower(a, b), on)),
            ..self
        }
    }

    /// Every entry of a table that `self` already holds (a frame whose role is
    /// not free) is the same in `t`, but for slot `i0` of frame `f0`.
    pub open spec fn kept_but(self, t: PagingState, f0: nat, i0: nat) -> bool {
        &&& t.frame_count() == self.frame_count()
        &&& forall|f: nat| f < self.frame_count() && self.roles[f as int] != TableRole::Free ==> #[trigger] t.roles[f as int] == self.roles[f as int]
        &&& forall|f: nat, i: nat|
            f < self.frame_count() && i < 512 && self.roles[f as int] != TableRole::Free && !(f == f0 && i == i0)
                ==> #[trigger] t.at(f, i) == self.at(f, i)
    }

    /// Every entry of a table that `self` already holds is the same in `t`, but
    /// for those on the way to the page with indices `(a, b, c)` in `t`: root
    /// entry `a`, entry `b` of the level-2 table it points at, and entry `c` of
    /// the level-1 table that one points at.
    pub open spec fn kept_but_path(self, t: PagingState, a: nat, b: nat, c: nat) -> bool {
        &&& t.frame_count() == self.frame_count()
        &&& forall|f: nat, i: nat|
            f < self.frame_count() && i < 512 && self.roles[f as int] != TableRole::Free
                && !(f == self.root && i == a)
                && !(t.upper(a).spec_is_table_pointer() && f == t.upper(a).frame@ && i == b)
                && !(t.chain_exists(a, b) && f == t.lower(a, b).frame@ && i == c)
                ==> #[trigger] t.at(f, i) == self.at(f, i)
    }

    /// `t` is `self` with a new, empty table in frame `fresh` installed in slot
    /// `slot` of the table in frame `parent`, its role recorded.
    pub open spec fn installed(self, t: PagingState, parent: nat, slot: nat, fresh: Frame, role: TableRole) -> bool {
        &&& t.entries.len() == self.entries.len()
        &&& t.root == self.root
        &&& t.recursive_index == self.recursive_index
        &&& t.roles == self.roles.update(fresh@ as int, role)
        &&& t.at(parent, slot) == (PageTableEntry { frame: fresh, flags: pointer_flags() })
        &&& forall|i: nat| i < 512 ==> (#[trigger] t.at(fresh@, i)).spec_is_unused()
        &&& forall|f: nat, i: nat|
            f < self.frame_count() && i < 512 && f != fresh@ && !(f == parent && i == slot)
                ==> #[trigger] t.at(f, i) == self.at(f, i)
    }

    /// `t` is `self` with entry `c` of the level-1 table under `(a, b)` set to `e`.
    pub open spec fn leaf_set(self, t: PagingState, a: nat, b: nat, c: nat, e: PageTableEntry) -> bool {
        &&& t.root == self.root
        &&& t.recursive_index == self.recursive_index
        &&& t.roles == self.roles
        &&& t.entries == self.entries.update((self.lower(a, b).frame@ * 512 + c) as int, e)
    }
}

/// In a well-formed state no entry that leads to a table of the tree is left
/// open for reading or writing.
pub proof fn lemma_wf_access_closed(s: PagingState)
    requires
        s.wf(),
    ensures
        s.access_closed(),
{
    assert forall|a: nat|
        a < 512 && !s.reserved(a) && s.upper(a).frame@ < s.frame_count()
            && s.roles[s.upper(a).frame@ as int] == (TableRole::Upper { slot: a as usize })
            implies !(#[trigger] s.upper(a)).flags.readable && !s.upper(a).flags.writable by {
        assert(s.upper_ok(a));
    }
    assert forall|a: nat, b: nat|
        a < 512 && b < 512 && !s.reserved(a) && s.upper(a).spec_is_table_pointer()
            && s.lower(a, b).frame@ < s.frame_count()
            && s.roles[s.lower(a, b).frame@ as int] == (TableRole::Lower { slot: a as usize, sub: b as usize })
            implies !(#[trigger] s.lower(a, b)).flags.readable && !s.lower(a, b).flags.writable by {
        assert(s.upper_ok(a));
        assert(s.lower_ok(a, b));
    }
}

/// Installing an empty level-2 table in an unused root slot keeps the state
/// well formed and changes no translation.
pub proof fn lemma_install_upper(s: PagingState, t: PagingState, a: nat, fresh: Frame)
    requires
        s.wf(),
        a < 512,
        !s.reserved(a),
        s.upper(a).spec_is_unused(),
        fresh@ < s.frame_count(),
        s.roles[fresh@ as int] == TableRole::Free,
        s.installed(t, s.root, a, fresh, TableRole::Upper { slot: a as usize }),
    ensures
        t.wf(),
        s.same_translations(t),
        t.upper(a).frame == fresh,
        t.upper(a).spec_is_table_pointer(),
        forall|b: nat| b < 512 ==> (#[trigger] t.lower(a, b)).spec_is_unused(),
{
    assert(t.frame_count() == s.frame_count());
    let r = s.recursive_index;
    assert(t.upper(r) == s.upper(r));
    assert(t.upper(r + 1) == s.upper(r + 1));
    assert forall|x: nat| x < 512 && !t.reserved(x) implies #[trigger] t.upper_ok(x) by {
        assert(s.upper_ok(x));
        if x == a {
            assert forall|b: nat| b < 512 implies #[trigger] t.lower_ok(a, b) by {
                assert(t.at(fresh@, b).spec_is_unused());
            }
        } else {
            assert(t.upper(x) == s.upper(x));
            if s.upper(x).spec_is_table_pointer() {
                let f2 = s.upper(x).frame@;
                assert(f2 != fresh@);
                assert(f2 != s.root);
                assert forall|b: nat| b < 512 implies #[trigger] t.lower_ok(x, b) by {
                    assert(s.lower_ok(x, b));
                    assert(t.lower(x, b) == s.lower(x, b));
                }
            }
        }
    }
    assert forall|x: nat, y: nat, z: nat|
        x < 512 && y < 512 && z < 512 && !s.reserved(x) implies #[trigger] t.translate(x, y, z)
            == s.translate(x, y, z) by {
        assert(s.upper_ok(x));
        if x == a {
            assert(t.lower(x, y).spec_is_unused());
        } else {
            assert(t.upper(x) == s.upper(x));
            if s.upper(x).spec_is_table_pointer() {
                let f2 = s.upper(x).frame@;
                assert(f2 != fresh@);
                assert(f2 != s.root);
                assert(s.lower_ok(x, y));
                assert(t.lower(x, y) == s.lower(x, y));
                if s.lower(x, y).spec_is_table_pointer() {
                    let f1 = s.lower(x, y).frame@;
                    assert(f1 != fresh@);
                    assert(f1 != s.root);
                    assert(t.leaf(x, y, z) == s.leaf(x, y, z));
                }
            }
        }
    }
    assert forall|b: nat| b < 512 implies (#[trigger] t.lower(a, b)).spec_is_unused() by {
        assert(t.at(fresh@, b).spec_is_unused());
    }
}

/// Installing an empty level-1 table in an unused slot of a present level-2
/// table keeps the state well formed and changes no translation.
pub proof fn lemma_install_lower(s: PagingState, t: PagingState, a: nat, b: nat, fresh: Frame)
    requires
        s.wf(),
        a < 512,
        b < 512,
        !s.reserved(a),
        s.upper(a).spec_is_table_pointer(),
        s.lower(a, b).spec_is_unused(),
        fresh@ < s.frame_count(),
        s.roles[fresh@ as int] == TableRole::Free,
        s.installed(t, s.upper(a).frame@, b, fresh, TableRole::Lower { slot: a as usize, sub: b as usize }),
    ensures
        t.wf(),
        s.same_translations(t),
        t.upper(a) == s.upper(a),
        t.lower(a, b).frame == fresh,
        t.chain_exists(a, b),
        forall|c: nat| c < 512 ==> (#[trigger] t.leaf(a, b, c)).spec_is_unused(),
{
    assert(t.frame_count() == s.frame_count());
    assert(s.upper_ok(a));
    let p = s.upper(a).frame@;
    assert(p != s.root);
    assert(p != fresh@);
    let r = s.recursive_index;
    assert(t.upper(r) == s.upper(r));
    assert(t.upper(r + 1) == s.upper(r + 1));
    assert(t.upper(a) == s.upper(a));
    assert forall|x: nat| x < 512 && !t.reserved(x) implies #[trigger] t.upper_ok(x) by {
        assert(s.upper_ok(x));
        assert(t.upper(x) == s.upper(x));
        if s.upper(x).spec_is_table_pointer() {
            let f2 = s.upper(x).frame@;
            assert(f2 != fresh@);
            assert(f2 != s.root);
            assert forall|y: nat| y < 512 implies #[trigger] t.lower_ok(x, y) by {
                assert(s.lower_ok(x, y));
                if x == a && y == b {
                } else {
                    if x != a {
                        assert(f2 != p);
                    }
                    assert(t.lower(x, y) == s.lower(x, y));
                }
            }
        }
    }
    assert forall|x: nat, y: nat, z: nat|
        x < 512 && y < 512 && z < 512 && !s.reserved(x) implies #[trigger] t.translate(x, y, z)
            == s.translate(x, y, z) by {
        assert(s.upper_ok(x));
        assert(t.upper(x) == s.upper(x));
        if s.upper(x).spec_is_table_pointer() {
            let f2 = s.upper(x).frame@;
            assert(f2 != fresh@);
            assert(f2 != s.root);
            assert(s.lower_ok(x, y));
            if x == a && y == b {
                assert(t.at(fresh@, z).spec_is_unused());
            } else {
                if x != a {
                    assert(f2 != p);
                }
                assert(t.lower(x, y) == s.lower(x, y));
                if s.lower(x, y).spec_is_table_pointer() {
                    let f1 = s.lower(x, y).frame@;
                    assert(f1 != fresh@);
                    assert(f1 != s.root);
                    assert(f1 != p);
                    assert(t.leaf(x, y, z) == s.leaf(x, y, z));
                }
            }
        }
    }
    assert forall|c: nat| c < 512 implies (#[trigger] t.leaf(a, b, c)).spec_is_unused() by {
        assert(t.at(fresh@, c).spec_is_unused());
    }
}

/// An update of one entry touches no other entry.
pub proof fn lemma_update_elsewhere(s: PagingState, t: PagingState, g: nat, j: nat, e: PageTableEntry, f: nat, i: nat)
    requires
        t.entries == s.entries.update((g * 512 + j) as int, e),
        g < s.frame_count(),
        f < s.frame_count(),
        i < 512,
        j < 512,
        f != g || i != j,
    ensures
        t.at(f, i) == s.at(f, i),
{
    lemma_slot_in_range(s.entries.len(), f, i);
    lemma_slot_in_range(s.entries.len(), g, j);
    lemma_slots_distinct(f, i, g, j);
}

/// Setting one leaf entry under a present chain keeps the state well formed
/// and changes the translation of that page alone.
pub proof fn lemma_leaf_set(s: PagingState, t: PagingState, a: nat, b: nat, c: nat, e: PageTableEntry)
    requires
        s.wf(),
        a < 512,
        b < 512,
        c < 512,
        !s.reserved(a),
        s.chain_exists(a, b),
        s.leaf_set(t, a, b, c, e),
    ensures
        t.wf(),
        s.same_translations_except(t, a, b, c),
        t.chain_exists(a, b),
        t.leaf(a, b, c) == e,
        t.translate(a, b, c) == (if e.spec_is_unused() { None } else { Some(e.frame) }),
{
    assert(s.upper_ok(a));
    assert(s.lower_ok(a, b));
    let f1 = s.lower(a, b).frame@;
    let p = s.upper(a).frame@;
    assert(f1 != s.root);
    assert(f1 != p);
    lemma_slot_in_range(s.entries.len(), f1, c);
    assert(t.entries.len() == s.entries.len());
    let r = s.recursive_index;
    lemma_update_elsewhere(s, t, f1, c, e, s.root, r);
    lemma_update_elsewhere(s, t, f1, c, e, s.root, r + 1);
    assert forall|x: nat| x < 512 && !t.reserved(x) implies #[trigger] t.upper_ok(x) by {
        assert(s.upper_ok(x));
        lemma_update_elsewhere(s, t, f1, c, e, s.root, x);
        if s.upper(x).spec_is_table_pointer() {
            let f2 = s.upper(x).frame@;
            assert(f2 != f1);
            assert forall|y: nat| y < 512 implies #[trigger] t.lower_ok(x, y) by {
                assert(s.lower_ok(x, y));
                lemma_update_elsewhere(s, t, f1, c, e, f2, y);
            }
        }
    }
    assert forall|x: nat, y: nat, z: nat|
        x < 512 && y < 512 && z < 512 && !s.reserved(x) && !(x == a && y == b && z == c)
            implies #[trigger] t.translate(x, y, z) == s.translate(x, y, z) by {
        assert(s.upper_ok(x));
        lemma_update_elsewhere(s, t, f1, c, e, s.root, x);
        if s.upper(x).spec_is_table_pointer() {
            let f2 = s.upper(x).frame@;
            assert(f2 != f1);
            assert(s.lower_ok(x, y));
            lemma_update_elsewhere(s, t, f1, c, e, f2, y);
            if s.lower(x, y).spec_is_table_pointer() {
                let g = s.lower(x, y).frame@;
                if !(x == a && y == b) {
                    assert(g != f1);
                }
                lemma_update_elsewhere(s, t, f1, c, e, g, z);
            }
        }
    }
    lemma_update_elsewhere(s, t, f1, c, e, s.root, a);
    lemma_update_elsewhere(s, t, f1, c, e, p, b);
}

/// In a well-formed state a present chain can be walked through its aliases.
pub proof fn lemma_wf_walkable(s: PagingState, a: nat, b: nat)
    requires
        s.wf(),
        a < 512,
        b < 512,
        !s.reserved(a),
        s.chain_exists(a, b),
    ensures
        s.walkable(a),
        s.lower(a, b).spec_is_table_pointer(),
        s.lower(a, b).frame@ < s.frame_count(),
        s.lower(a, b).frame@ != s.root,
        s.lower(a, b).frame@ != s.upper(a).frame@,
{
    assert(s.upper_ok(a));
    assert(s.lower_ok(a, b));
}

/// Opening the level-1 table under a present chain, setting leaf entry `c`
/// to `e`, and closing it again sets that one leaf entry and nothing else.
pub proof fn lemma_open_set_close(s: PagingState, a: nat, b: nat, c: nat, e: PageTableEntry)
    requires
        s.wf(),
        a < 512,
        b < 512,
        c < 512,
        !s.reserved(a),
        s.chain_exists(a, b),
    ensures
        ({
            let o = s.with_lower_access(a, b, true);
            let f1 = s.lower(a, b).frame@;
            let o2 = PagingState { entries: o.entries.update((f1 * 512 + c) as int, e), ..o };
            &&& o.walkable(a)
            &&& o.at(f1, c) == s.leaf(a, b, c)
            &&& o2.walkable(a)
            &&& o.frame_count() == s.frame_count()
            &&& o2.with_lower_access(a, b, false) == (PagingState {
                entries: s.entries.update((f1 * 512 + c) as int, e),
                ..s
            })
            &&& o.with_lower_access(a, b, false) == s
        }),
{
    lemma_wf_walkable(s, a, b);
    let o = s.with_lower_access(a, b, true);
    let f1 = s.lower(a, b).frame@;
    let f2 = s.upper(a).frame@;
    let o2 = PagingState { entries: o.entries.update((f1 * 512 + c) as int, e), ..o };
    let r = s.recursive_index;
    let opened = with_access(s.lower(a, b), true);
    lemma_slot_in_range(s.entries.len(), f2, b);
    lemma_slot_in_range(s.entries.len(), f1, c);
    lemma_slots_distinct(f1, c, f2, b);
    lemma_update_elsewhere(s, o, f2, b, opened, s.root, r);
    lemma_update_elsewhere(s, o, f2, b, opened, s.root, a);
    lemma_update_elsewhere(s, o, f2, b, opened, f1, c);
    lemma_update_elsewhere(o, o2, f1, c, e, s.root, r);
    lemma_update_elsewhere(o, o2, f1, c, e, s.root, a);
    lemma_update_elsewhere(o, o2, f1, c, e, f2, b);
    assert(o.with_lower_access(a, b, false).entries =~= s.entries);
    assert(o2.with_lower_access(a, b, false).entries =~= s.entries.update((f1 * 512 + c) as int, e));
}

/// Changes confined to the way to one page leave the self-mapping's two root
/// entries as they were.
pub proof fn lemma_kept_path_keeps_self_mapping(s: PagingState, t: PagingState, a: nat, b: nat, c: nat)
    requires
        s.wf(),
        t.wf(),
        t.root == s.root,
        t.recursive_index == s.recursive_index,
        a < 512,
        b < 512,
        !s.reserved(a),
        s.kept_but_path(t, a, b, c),
    ensures
        t.upper(s.recursive_index) == s.upper(s.recursive_index),
        t.upper(s.recursive_index + 1) == s.upper(s.recursive_index + 1),
{
    assert(t.upper_ok(a));
    if t.upper(a).spec_is_table_pointer() {
        assert(t.lower_ok(a, b));
    }
    let r = s.recursive_index;
    assert(t.at(s.root, r) == s.at(s.root, r));
    assert(t.at(s.root, r + 1) == s.at(s.root, r + 1));
}

} // verus!
