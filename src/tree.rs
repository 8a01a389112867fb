//! The shape a recursively mapped page table must have to be taken in charge,
//! and the scan that checks it and records each table's place in the tree.
use vstd::prelude::*;
use crate::addr::{Frame, VirtAddr, ENTRY_COUNT, p1_of, p2_of, p3_of};
use crate::memory::PhysicalMemory;
use crate::state::{PagingState, TableRole};

verus! {

/// The root table in frame `root` maps itself with recursive index `r`: root
/// entry `r` points back at the root as a table, and root entry `r + 1` maps
/// the root as a readable and writable page.
pub open spec fn self_mapped(m: PhysicalMemory, root: Frame, r: nat) -> bool {
    let e = m.at(root@, r);
    let e1 = m.at(root@, r + 1);
    &&& root@ < m.frame_count()
    &&& r + 1 < 512
    &&& e.frame == root
    &&& e.spec_is_table_pointer()
    &&& e1.frame == root
    &&& e1.flags.valid
    &&& e1.flags.readable
    &&& e1.flags.writable
}

/// The root index of virtual address `addr`, which for the root table itself
/// is the recursive index.
pub open spec fn root_index_of(addr: VirtAddr) -> nat {
    p3_of((addr.0 as nat / 4096) % (crate::addr::PAGE_NUMBER_LIMIT as nat))
}

/// The root table in `root`, seen at virtual address `addr`, maps itself as a
/// recursive page table must: with `r` the root index of `addr`, the address's
/// indices are `(r, r, r + 1)`, and the root maps itself with index `r`.
pub open spec fn recursively_mapped(m: PhysicalMemory, addr: VirtAddr, root: Frame) -> bool {
    let vpn = (addr.0 as nat / 4096) % (crate::addr::PAGE_NUMBER_LIMIT as nat);
    let r = p3_of(vpn);
    &&& p2_of(vpn) == r
    &&& p1_of(vpn) == r + 1
    &&& self_mapped(m, root, r)
}

/// Root entry `a` of the tables in `m` under root `root`, outside the
/// self-mapping with index `rec`, points at a table.
pub open spec fn present_upper(m: PhysicalMemory, root: nat, rec: nat, a: nat) -> bool {
    a < 512 && a != rec && a != rec + 1 && m.at(root, a).spec_is_table_pointer()
}

/// Entry `b` of the level-2 table that root entry `a` points at points at a
/// table.
pub open spec fn present_lower(m: PhysicalMemory, root: nat, rec: nat, a: nat, b: nat) -> bool {
    present_upper(m, root, rec, a) && b < 512 && m.at(m.at(root, a).frame@, b).spec_is_table_pointer()
}

pub open spec fn upper_frame(m: PhysicalMemory, root: nat, a: nat) -> nat {
    m.at(root, a).frame@
}

pub open spec fn lower_frame(m: PhysicalMemory, root: nat, a: nat, b: nat) -> nat {
    m.at(upper_frame(m, root, a), b).frame@
}

/// The tables in `m` under root `root` form a tree: every entry above the
/// leaves, outside the self-mapping with index `rec`, is unused, maps a huge
/// page, or points at a table of the arena; and no two entries that point at
/// tables, nor the root, share a frame.
pub open spec fn tree_shaped(m: PhysicalMemory, root: nat, rec: nat) -> bool {
    &&& forall|a: nat|
        a < 512 && a != rec && a != rec + 1 ==> (#[trigger] m.at(root, a)).spec_is_unused() || m.at(root, a).flags.valid
    &&& forall|a: nat, b: nat|
        present_upper(m, root, rec, a) && b < 512 ==> (#[trigger] m.at(upper_frame(m, root, a), b)).spec_is_unused()
            || m.at(upper_frame(m, root, a), b).flags.valid
    &&& forall|a: nat| #[trigger] present_upper(m, root, rec, a) ==> {
        &&& upper_frame(m, root, a) < m.frame_count()
        &&& upper_frame(m, root, a) != root
    }
    &&& forall|a: nat, b: nat| #[trigger] present_lower(m, root, rec, a, b) ==> {
        &&& lower_frame(m, root, a, b) < m.frame_count()
        &&& lower_frame(m, root, a, b) != root
    }
    &&& forall|a: nat, x: nat|
        #[trigger] present_upper(m, root, rec, a) && #[trigger] present_upper(m, root, rec, x) && a != x
            ==> upper_frame(m, root, a) != upper_frame(m, root, x)
    &&& forall|a: nat, b: nat, x: nat, y: nat|
        #[trigger] present_lower(m, root, rec, a, b) && #[trigger] present_lower(m, root, rec, x, y) && !(a == x
            && b == y) ==> lower_frame(m, root, a, b) != lower_frame(m, root, x, y)
    &&& forall|a: nat, x: nat, y: nat|
        #[trigger] present_upper(m, root, rec, a) && #[trigger] present_lower(m, root, rec, x, y)
            ==> upper_frame(m, root, a) != lower_frame(m, root, x, y)
}

/// What the scan of the tree, having passed root entries before `a` (and,
/// where `inside`, entry `a` and its level-2 entries before `b`), has recorded
/// for frame `f`.
spec fn role_explained(m: PhysicalMemory, root: nat, rec: nat, role: TableRole, f: nat, a: nat, b: nat, inside: bool) -> bool {
    match role {
        TableRole::Free => true,
        TableRole::Root => f == root,
        TableRole::Upper { slot } => {
            &&& (slot < a || (inside && slot == a))
            &&& present_upper(m, root, rec, slot as nat)
            &&& upper_frame(m, root, slot as nat) == f
        },
        TableRole::Lower { slot, sub } => {
            &&& (slot < a || (inside && slot == a && sub < b))
            &&& present_lower(m, root, rec, slot as nat, sub as nat)
            &&& lower_frame(m, root, slot as nat, sub as nat) == f
        },
    }
}

/// The state that tables in `m` under root `root`, with recursive index `rec`
/// and frame roles `roles`, make up.
pub(crate) open spec fn scanned(m: PhysicalMemory, root: nat, rec: nat, roles: Seq<TableRole>) -> PagingState {
    PagingState { entries: m@, root, recursive_index: rec, roles }
}

/// Roles recorded for every frame that make each root entry outside the
/// self-mapping consistent leave the tables in the shape of a tree.
proof fn lemma_roles_make_tree(m: PhysicalMemory, root: nat, rec: nat, roles: Seq<TableRole>)
    requires
        roles.len() == m.frame_count(),
        root < m.frame_count(),
        roles[root as int] == TableRole::Root,
        forall|x: nat| x < 512 && x != rec && x != rec + 1 ==> #[trigger] scanned(m, root, rec, roles).upper_ok(x),
    ensures
        tree_shaped(m, root, rec),
{
    let s = scanned(m, root, rec, roles);
    assert forall|a: nat|
        a < 512 && a != rec && a != rec + 1 implies (#[trigger] m.at(root, a)).spec_is_unused() || m.at(root, a).flags.valid by {
        assert(s.upper_ok(a));
    }
    assert forall|a: nat, b: nat|
        present_upper(m, root, rec, a) && b < 512 implies (#[trigger] m.at(upper_frame(m, root, a), b)).spec_is_unused()
            || m.at(upper_frame(m, root, a), b).flags.valid by {
        assert(s.upper_ok(a));
        assert(s.lower_ok(a, b));
    }
    assert forall|a: nat| #[trigger] present_upper(m, root, rec, a) implies {
        &&& upper_frame(m, root, a) < m.frame_count()
        &&& upper_frame(m, root, a) != root
    } by {
        assert(s.upper_ok(a));
    }
    assert forall|a: nat, b: nat| #[trigger] present_lower(m, root, rec, a, b) implies {
        &&& lower_frame(m, root, a, b) < m.frame_count()
        &&& lower_frame(m, root, a, b) != root
    } by {
        assert(s.upper_ok(a));
        assert(s.lower_ok(a, b));
    }
    assert forall|a: nat, x: nat|
        #[trigger] present_upper(m, root, rec, a) && #[trigger] present_upper(m, root, rec, x) && a != x
            implies upper_frame(m, root, a) != upper_frame(m, root, x) by {
        assert(s.upper_ok(a));
        assert(s.upper_ok(x));
    }
    assert forall|a: nat, b: nat, x: nat, y: nat|
        #[trigger] present_lower(m, root, rec, a, b) && #[trigger] present_lower(m, root, rec, x, y) && !(a == x
            && b == y) implies lower_frame(m, root, a, b) != lower_frame(m, root, x, y) by {
        assert(s.upper_ok(a));
        assert(s.lower_ok(a, b));
        assert(s.upper_ok(x));
        assert(s.lower_ok(x, y));
    }
    assert forall|a: nat, x: nat, y: nat|
        #[trigger] present_upper(m, root, rec, a) && #[trigger] present_lower(m, root, rec, x, y)
            implies upper_frame(m, root, a) != lower_frame(m, root, x, y) by {
        assert(s.upper_ok(a));
        assert(s.upper_ok(x));
        assert(s.lower_ok(x, y));
    }
}

/// Records the role of every table under root `root`, or gives `None` when
/// the tables are not `tree_shaped`.
pub(crate) fn scan_roles(memory: &PhysicalMemory, root: Frame, rec: usize) -> (r: Option<Vec<TableRole>>)
    requires
        memory.wf(),
        root@ < memory.frame_count(),
        rec + 1 < 512,
    ensures
        r is Some <==> tree_shaped(*memory, root@, rec as nat),
        r matches Some(roles) ==> {
            &&& roles@.len() == memory.frame_count()
            &&& roles@[root@ as int] == TableRole::Root
            &&& forall|x: nat| x < 512 && x != rec && x != rec + 1 ==> #[trigger] scanned(*memory, root@, rec as nat, roles@).upper_ok(x)
        },
{
    let count = memory.num_frames();
    let ghost m = *memory;
    let ghost rt = root@;
    let mut roles: Vec<TableRole> = Vec::new();
    let mut k: usize = 0;
    while k < count
        invariant
            k <= count,
            roles@.len() == k,
            forall|j: int| 0 <= j < k ==> roles@[j] == TableRole::Free,
        decreases count - k,
    {
        roles.push(TableRole::Free);
        k = k + 1;
    }
    roles.set(root.number() as usize, TableRole::Root);
    let mut a: usize = 0;
    while a < ENTRY_COUNT
        invariant
            m == *memory,
            memory.wf(),
            count == memory.frame_count(),
            rt == root@,
            rt < count,
            rec + 1 < 512,
            roles@.len() == count,
            roles@[rt as int] == TableRole::Root,
            a <= 512,
            forall|x: nat| x < a && x != rec && x != rec + 1 ==> #[trigger] scanned(m, rt, rec as nat, roles@).upper_ok(x),
            forall|f: nat| f < count ==> role_explained(m, rt, rec as nat, #[trigger] roles@[f as int], f, a as nat, 0, false),
        decreases 512 - a,
    {
        if a != rec && a != rec + 1 {
            let e = memory.entry(root, a);
            if e.is_huge() {
                proof {
                    let f = e.frame@;
                    if f < count {
                        assert(role_explained(m, rt, rec as nat, roles@[f as int], f, a as nat, 0, false));
                    }
                    assert(scanned(m, rt, rec as nat, roles@).upper_ok(a as nat));
                    assert forall|f: nat| f < count implies role_explained(m, rt, rec as nat, #[trigger] roles@[f as int], f, a as nat + 1, 0, false) by {
                        assert(role_explained(m, rt, rec as nat, roles@[f as int], f, a as nat, 0, false));
                    }
                }
            } else if !e.is_unused() {
                if !(e.is_table_pointer() && e.frame.number() < count as u64
                    && roles[e.frame.number() as usize] == TableRole::Free) {
                    proof {
                        if tree_shaped(m, rt, rec as nat) {
                            assert(present_upper(m, rt, rec as nat, a as nat));
                            let f = e.frame@;
                            assert(role_explained(m, rt, rec as nat, roles@[f as int], f, a as nat, 0, false));
                            match roles@[f as int] {
                                TableRole::Upper { slot } => {
                                    assert(present_upper(m, rt, rec as nat, slot as nat));
                                },
                                TableRole::Lower { slot, sub } => {
                                    assert(present_lower(m, rt, rec as nat, slot as nat, sub as nat));
                                },
                                _ => {},
                            }
                        }
                    }
                    return None;
                }
                let f2 = e.frame;
                let ghost roles_before = roles@;
                roles.set(f2.number() as usize, TableRole::Upper { slot: a });
                proof {
                    let s_before = scanned(m, rt, rec as nat, roles_before);
                    let s_after = scanned(m, rt, rec as nat, roles@);
                    assert forall|x: nat| x < a && x != rec && x != rec + 1 implies #[trigger] s_after.upper_ok(x) by {
                        assert(s_before.upper_ok(x));
                        if s_before.upper(x).spec_is_table_pointer() {
                            assert forall|y: nat| y < 512 implies #[trigger] s_after.lower_ok(x, y) by {
                                assert(s_before.lower_ok(x, y));
                            }
                        }
                    }
                    assert forall|f: nat| f < count implies role_explained(m, rt, rec as nat, #[trigger] roles@[f as int], f, a as nat, 0, true) by {
                        if f != f2@ {
                            assert(role_explained(m, rt, rec as nat, roles_before[f as int], f, a as nat, 0, false));
                        }
                    }
                }
                let mut b: usize = 0;
                while b < ENTRY_COUNT
                    invariant
                        m == *memory,
                        memory.wf(),
                        count == memory.frame_count(),
                        rt == root@,
                        rt < count,
                        roles@.len() == count,
                        roles@[rt as int] == TableRole::Root,
                        a < 512,
                        a != rec && a != rec + 1,
                        b <= 512,
                        m.at(rt, a as nat) == e,
                        !e.spec_is_unused(),
                        e.spec_is_table_pointer(),
                        e.frame == f2,
                        f2@ < count,
                        roles@[f2@ as int] == (TableRole::Upper { slot: a }),
                        forall|x: nat| x < a && x != rec && x != rec + 1 ==> #[trigger] scanned(m, rt, rec as nat, roles@).upper_ok(x),
                        forall|y: nat| y < b ==> #[trigger] scanned(m, rt, rec as nat, roles@).lower_ok(a as nat, y),
                        forall|f: nat| f < count ==> role_explained(m, rt, rec as nat, #[trigger] roles@[f as int], f, a as nat, b as nat, true),
                    decreases 512 - b,
                {
                    let e2 = memory.entry(f2, b);
                    if e2.is_huge() {
                        proof {
                            let f = e2.frame@;
                            if f < count {
                                assert(role_explained(m, rt, rec as nat, roles@[f as int], f, a as nat, b as nat, true));
                            }
                            let s_now = scanned(m, rt, rec as nat, roles@);
                            assert forall|y: nat| y < b + 1 implies #[trigger] s_now.lower_ok(a as nat, y) by {
                            }
                            assert forall|f: nat| f < count implies role_explained(m, rt, rec as nat, #[trigger] roles@[f as int], f, a as nat, b as nat + 1, true) by {
                                assert(role_explained(m, rt, rec as nat, roles@[f as int], f, a as nat, b as nat, true));
                            }
                        }
                    } else if !e2.is_unused() {
                        if !(e2.is_table_pointer() && e2.frame.number() < count as u64
                            && roles[e2.frame.number() as usize] == TableRole::Free) {
                            proof {
                                if tree_shaped(m, rt, rec as nat) {
                                    assert(present_lower(m, rt, rec as nat, a as nat, b as nat));
                                    let f = e2.frame@;
                                    assert(role_explained(m, rt, rec as nat, roles@[f as int], f, a as nat, b as nat, true));
                                    match roles@[f as int] {
                                        TableRole::Upper { slot } => {
                                            assert(present_upper(m, rt, rec as nat, slot as nat));
                                        },
                                        TableRole::Lower { slot, sub } => {
                                            assert(present_lower(m, rt, rec as nat, slot as nat, sub as nat));
                                        },
                                        _ => {},
                                    }
                                }
                            }
                            return None;
                        }
                        let ghost roles_before = roles@;
                        let f1 = e2.frame;
                        roles.set(f1.number() as usize, TableRole::Lower { slot: a, sub: b });
                        proof {
                            let s_before = scanned(m, rt, rec as nat, roles_before);
                            let s_after = scanned(m, rt, rec as nat, roles@);
                            assert forall|x: nat| x < a && x != rec && x != rec + 1 implies #[trigger] s_after.upper_ok(x) by {
                                assert(s_before.upper_ok(x));
                                if s_before.upper(x).spec_is_table_pointer() {
                                    assert forall|y: nat| y < 512 implies #[trigger] s_after.lower_ok(x, y) by {
                                        assert(s_before.lower_ok(x, y));
                                    }
                                }
                            }
                            assert forall|y: nat| y < b + 1 implies #[trigger] s_after.lower_ok(a as nat, y) by {
                                if y < b {
                                    assert(s_before.lower_ok(a as nat, y));
                                }
                            }
                            assert forall|f: nat| f < count implies role_explained(m, rt, rec as nat, #[trigger] roles@[f as int], f, a as nat, b as nat + 1, true) by {
                                if f != f1@ {
                                    assert(role_explained(m, rt, rec as nat, roles_before[f as int], f, a as nat, b as nat, true));
                                } else {
                                    assert(present_lower(m, rt, rec as nat, a as nat, b as nat));
                                }
                            }
                        }
                    } else {
                        proof {
                            assert forall|f: nat| f < count implies role_explained(m, rt, rec as nat, #[trigger] roles@[f as int], f, a as nat, b as nat + 1, true) by {
                                assert(role_explained(m, rt, rec as nat, roles@[f as int], f, a as nat, b as nat, true));
                            }
                        }
                    }
                    b = b + 1;
                }
                proof {
                    let s_now = scanned(m, rt, rec as nat, roles@);
                    assert(s_now.upper_ok(a as nat));
                    assert forall|f: nat| f < count implies role_explained(m, rt, rec as nat, #[trigger] roles@[f as int], f, a as nat + 1, 0, false) by {
                        assert(role_explained(m, rt, rec as nat, roles@[f as int], f, a as nat, 512, true));
                    }
                }
            } else {
                proof {
                    assert(scanned(m, rt, rec as nat, roles@).upper_ok(a as nat));
                    assert forall|f: nat| f < count implies role_explained(m, rt, rec as nat, #[trigger] roles@[f as int], f, a as nat + 1, 0, false) by {
                        assert(role_explained(m, rt, rec as nat, roles@[f as int], f, a as nat, 0, false));
                    }
                }
            }
        } else {
            proof {
                assert forall|f: nat| f < count implies role_explained(m, rt, rec as nat, #[trigger] roles@[f as int], f, a as nat + 1, 0, false) by {
                    assert(role_explained(m, rt, rec as nat, roles@[f as int], f, a as nat, 0, false));
                }
            }
        }
        a = a + 1;
    }
    proof {
        lemma_roles_make_tree(m, rt, rec as nat, roles@);
    }
    Some(roles)
}

/// Whether the tables in `memory` under root `root` are `tree_shaped` around
/// the self-mapping with index `rec`.
pub fn check_tree(memory: &PhysicalMemory, root: Frame, rec: usize) -> (r: bool)
    requires
        memory.wf(),
        root@ < memory.frame_count(),
        rec + 1 < 512,
    ensures
        r == tree_shaped(*memory, root@, rec as nat),
{
    scan_roles(memory, root, rec).is_some()
}

} // verus!
