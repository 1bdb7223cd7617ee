//! The page-table manager: one address space as a three-level Sv39 radix
//! tree of translation tables, backed by the frame allocator for table
//! storage.
//!
//! The root table is embedded in the address-space value itself; the caller
//! owns its storage.  Every lower table lives in an allocator frame that the
//! mapping operation obtained from `zalloc`, and teardown gives exactly those
//! frames back — never a leaf target, which is caller-managed memory.

use crate::addr::{spec_vpn0, spec_vpn1, spec_vpn2, PAddr, VAddr};
use crate::entry::{
    entry_is_branch, entry_is_leaf, entry_is_valid, entry_target, lemma_branch_entry,
    lemma_leaf_entry, spec_branch_entry, spec_leaf_entry, Entry, EntryFlags, ENTRY_BOUND,
};
use crate::frame_alloc::{
    lemma_frame_addr_in_range, lemma_idx_of_frame_addr, lemma_idx_of_in_range,
    lemma_word_slot_in_range, lemma_word_slots_distinct, FrameAllocator, MemError,
};
use vstd::pervasive::unreached;
use vstd::prelude::*;

verus! {

/// One translation table: exactly 512 entries, the size of one frame.
pub struct Table {
    pub entries: Vec<u64>,
}

impl Table {
    pub open spec fn wf(self) -> bool {
        self.entries@.len() == 512
    }

    /// Number of entries in a table.
    pub fn len() -> (r: usize)
        ensures
            r == 512,
    {
        512
    }

    pub fn get(&self, i: usize) -> (r: u64)
        requires
            self.wf(),
            i < 512,
        ensures
            r == self.entries@[i as int],
    {
        self.entries[i]
    }

    fn set(&mut self, i: usize, e: u64)
        requires
            old(self).wf(),
            i < 512,
        ensures
            final(self).entries@ =~= old(self).entries@.update(i as int, e),
    {
        self.entries.set(i, e);
    }

    fn new_zeroed() -> (r: Self)
        ensures
            r.wf(),
            forall|i: int| 0 <= i < 512 ==> r.entries@[i] == 0,
    {
        let mut entries: Vec<u64> = Vec::new();
        let mut i: usize = 0;
        while i < 512
            invariant
                i <= 512,
                entries@.len() == i,
                forall|k: int| 0 <= k < i ==> entries@[k] == 0,
            decreases 512 - i,
        {
            entries.push(0);
            i = i + 1;
        }
        Table { entries }
    }
}

/// Frame index of the table or page an entry points at, within the arena.
pub open spec fn fidx(a: FrameAllocator, e: u64) -> int {
    a.idx_of(entry_target(e))
}

/// A branch entry in a live tree: it really is a branch, its target is a
/// frame of the arena, and that frame is in use (owned by the tree).
pub open spec fn branch_ok(a: FrameAllocator, e: u64) -> bool {
    &&& entry_is_branch(e)
    &&& e < ENTRY_BOUND
    &&& a.addr_in_range(entry_target(e))
    &&& a.addr_aligned(entry_target(e))
    &&& 0 <= fidx(a, e) < a.n()
    &&& !a.is_free@[fidx(a, e)]
}

/// The frame keeps its allocation tag and all of its content between two
/// allocator states.
pub open spec fn frame_same(pre: FrameAllocator, post: FrameAllocator, f: int) -> bool {
    &&& post.is_free@[f] == pre.is_free@[f]
    &&& forall|w: int| 0 <= w < 512 ==> post.word_at(f, w) == #[trigger] pre.word_at(f, w)
}

/// Number of valid entries among the first `upto` words of table frame `t1`.
pub open spec fn l0_valid_count(a: FrameAllocator, t1: int, upto: int) -> int
    decreases upto,
{
    if upto <= 0 {
        0
    } else {
        l0_valid_count(a, t1, upto - 1) + if entry_is_valid(a.word_at(t1, upto - 1)) {
            1int
        } else {
            0int
        }
    }
}

/// An address space: the root (level-2) table, embedded in the value.
pub struct AddrSpaceHandle {
    pub root: Table,
}

impl AddrSpaceHandle {
    pub open spec fn root_entry(self, i: int) -> u64 {
        self.root.entries@[i]
    }

    /// The root entry at `i` is valid.
    pub open spec fn valid2(self, i: int) -> bool {
        entry_is_valid(self.root_entry(i))
    }

    /// Frame of the level-1 table behind root entry `i`.
    pub open spec fn l1_frame(self, a: FrameAllocator, i: int) -> int {
        fidx(a, self.root_entry(i))
    }

    /// Entry `j` of the level-1 table behind root entry `i`.
    pub open spec fn l1_entry(self, a: FrameAllocator, i: int, j: int) -> u64 {
        a.word_at(self.l1_frame(a, i), j)
    }

    /// The path `i`, `j` reaches a valid level-1 entry.
    pub open spec fn valid1(self, a: FrameAllocator, i: int, j: int) -> bool {
        self.valid2(i) && entry_is_valid(self.l1_entry(a, i, j))
    }

    /// Frame of the level-0 table behind the path `i`, `j`.
    pub open spec fn l0_frame(self, a: FrameAllocator, i: int, j: int) -> int {
        fidx(a, self.l1_entry(a, i, j))
    }

    /// Entry `k` of the level-0 table behind the path `i`, `j`.
    pub open spec fn l0_entry(self, a: FrameAllocator, i: int, j: int, k: int) -> u64 {
        a.word_at(self.l0_frame(a, i, j), k)
    }

    /// `f` is the frame of some level-1 table of this tree.
    pub open spec fn is_l1_frame(self, a: FrameAllocator, f: int) -> bool {
        exists|i: int| 0 <= i < 512 && self.valid2(i) && #[trigger] self.l1_frame(a, i) == f
    }

    /// `f` is the frame of some level-0 table of this tree.
    pub open spec fn is_l0_frame(self, a: FrameAllocator, f: int) -> bool {
        exists|i: int, j: int|
            0 <= i < 512 && 0 <= j < 512 && self.valid1(a, i, j) && #[trigger] self.l0_frame(
                a,
                i,
                j,
            ) == f
    }

    /// `f` holds a branch table of this tree.
    pub open spec fn in_tree(self, a: FrameAllocator, f: int) -> bool {
        self.is_l1_frame(a, f) || self.is_l0_frame(a, f)
    }

    /// No two distinct paths of the tree share a table frame.
    pub open spec fn distinct(self, a: FrameAllocator) -> bool {
        &&& forall|i1: int, i2: int|
            0 <= i1 < 512 && 0 <= i2 < 512 && i1 != i2 && self.valid2(i1) && self.valid2(i2)
                ==> #[trigger] self.l1_frame(a, i1) != #[trigger] self.l1_frame(a, i2)
        &&& forall|i1: int, j1: int, i2: int, j2: int|
            0 <= i1 < 512 && 0 <= j1 < 512 && 0 <= i2 < 512 && 0 <= j2 < 512 && self.valid1(
                a,
                i1,
                j1,
            ) && self.valid1(a, i2, j2) && !(i1 == i2 && j1 == j2)
                ==> #[trigger] self.l0_frame(a, i1, j1) != #[trigger] self.l0_frame(a, i2, j2)
        &&& forall|i1: int, i2: int, j2: int|
            0 <= i1 < 512 && 0 <= i2 < 512 && 0 <= j2 < 512 && self.valid2(i1) && self.valid1(
                a,
                i2,
                j2,
            ) ==> #[trigger] self.l1_frame(a, i1) != #[trigger] self.l0_frame(a, i2, j2)
    }

    /// Well-formedness of the whole tree against the allocator: every valid
    /// entry at levels 2 and 1 is a branch into an in-use arena frame, every
    /// valid level-0 entry is a leaf, and no table frame is shared.
    pub open spec fn wf_in(self, a: FrameAllocator) -> bool {
        &&& a.wf()
        &&& self.root.wf()
        &&& forall|i: int|
            0 <= i < 512 && self.valid2(i) ==> branch_ok(a, #[trigger] self.root_entry(i))
        &&& forall|i: int, j: int|
            0 <= i < 512 && 0 <= j < 512 && self.valid2(i) && entry_is_valid(
                #[trigger] self.l1_entry(a, i, j),
            ) ==> branch_ok(a, self.l1_entry(a, i, j))
        &&& forall|i: int, j: int, k: int|
            0 <= i < 512 && 0 <= j < 512 && 0 <= k < 512 && self.valid1(a, i, j)
                && entry_is_valid(#[trigger] self.l0_entry(a, i, j, k)) ==> (entry_is_leaf(
                self.l0_entry(a, i, j, k),
            ) && self.l0_entry(a, i, j, k) < ENTRY_BOUND)
        &&& self.distinct(a)
    }

    /// What the tree maps the path `i`, `j`, `k` to: the leaf entry found by
    /// walking root entry `i`, then level-1 entry `j`, then level-0 entry
    /// `k`; nothing if the walk meets an invalid entry.
    #[verifier::opaque]
    pub open spec fn translate(self, a: FrameAllocator, i: int, j: int, k: int) -> Option<u64> {
        if !self.valid2(i) {
            None
        } else if !entry_is_valid(self.l1_entry(a, i, j)) {
            None
        } else if entry_is_leaf(self.l0_entry(a, i, j, k)) {
            Some(self.l0_entry(a, i, j, k))
        } else {
            None
        }
    }

    /// What the tree maps a virtual address to, by its VPN fields.
    pub open spec fn translate_va(self, a: FrameAllocator, va: u64) -> Option<u64> {
        self.translate(a, spec_vpn2(va), spec_vpn1(va), spec_vpn0(va))
    }

    /// How many fresh table frames a mapping of `va` must allocate.
    pub open spec fn tables_needed(self, a: FrameAllocator, va: u64) -> int {
        if !self.valid2(spec_vpn2(va)) {
            2
        } else if !entry_is_valid(self.l1_entry(a, spec_vpn2(va), spec_vpn1(va))) {
            1
        } else {
            0
        }
    }

    /// Number of branch-table frames of the tree hanging off root entries
    /// below `upto`: one per valid root entry plus one per valid entry of
    /// its level-1 table.
    pub open spec fn tree_count_upto(self, a: FrameAllocator, upto: int) -> int
        decreases upto,
    {
        if upto <= 0 {
            0
        } else {
            self.tree_count_upto(a, upto - 1) + if self.valid2(upto - 1) {
                1 + l0_valid_count(a, self.l1_frame(a, upto - 1), 512)
            } else {
                0int
            }
        }
    }

    /// Number of branch-table frames owned by the tree.
    pub open spec fn tree_count(self, a: FrameAllocator) -> int {
        self.tree_count_upto(a, 512)
    }

    /// `f` is a level-1 table frame hanging off a root entry below `upto`.
    pub open spec fn is_l1_frame_upto(self, a: FrameAllocator, f: int, upto: int) -> bool {
        exists|i: int| 0 <= i < upto && self.valid2(i) && #[trigger] self.l1_frame(a, i) == f
    }

    /// `f` is a level-0 table frame hanging off a root entry below `upto`.
    pub open spec fn is_l0_frame_upto(self, a: FrameAllocator, f: int, upto: int) -> bool {
        exists|i: int, j: int|
            0 <= i < upto && 0 <= j < 512 && self.valid1(a, i, j) && #[trigger] self.l0_frame(
                a,
                i,
                j,
            ) == f
    }

    /// `f` is a table frame of the subtree hanging off root entries below
    /// `upto`.
    pub open spec fn in_tree_upto(self, a: FrameAllocator, f: int, upto: int) -> bool {
        self.is_l1_frame_upto(a, f, upto) || self.is_l0_frame_upto(a, f, upto)
    }

    /// `f` is a level-0 table frame of row `i`, hanging off a level-1 entry
    /// below `jupto`.
    pub open spec fn in_row_upto(self, a: FrameAllocator, f: int, i: int, jupto: int) -> bool {
        exists|j: int|
            0 <= j < jupto && self.valid1(a, i, j) && #[trigger] self.l0_frame(a, i, j) == f
    }

    /// An empty address space: a zero-filled root.  An all-zero entry is
    /// invalid, so the empty table is well-formed and maps nothing.
    pub fn null() -> (r: Self)
        ensures
            r.root.wf(),
            forall|i: int| 0 <= i < 512 ==> r.root.entries@[i] == 0,
    {
        AddrSpaceHandle { root: Table::new_zeroed() }
    }

    /// Borrow of the root table, e.g. to derive the translation-root address
    /// the hardware wants.
    pub fn get_ptr(&self) -> (r: &Table)
        ensures
            *r == self.root,
    {
        &self.root
    }
}

impl Default for AddrSpaceHandle {
    /// Same as `null`: a fresh, empty address space.
    fn default() -> (r: Self)
        ensures
            r.root.wf(),
            forall|i: int| 0 <= i < 512 ==> r.root.entries@[i] == 0,
    {
        AddrSpaceHandle::null()
    }
}

/// An address space whose root is all zero is well formed against any
/// well-formed allocator, maps nothing, and owns no table frame.
pub proof fn lemma_empty_wf_in(h: AddrSpaceHandle, a: FrameAllocator)
    requires
        a.wf(),
        h.root.wf(),
        forall|i: int| 0 <= i < 512 ==> h.root.entries@[i] == 0,
    ensures
        h.wf_in(a),
        forall|i: int, j: int, k: int|
            0 <= i < 512 && 0 <= j < 512 && 0 <= k < 512 ==> #[trigger] h.translate(a, i, j, k)
                == None::<u64>,
        h.tree_count(a) == 0,
        forall|f: int| 0 <= f < a.n() ==> !#[trigger] h.in_tree(a, f),
{
    reveal(AddrSpaceHandle::translate);
    assert forall|i: int| 0 <= i < 512 implies !h.valid2(i) by {}
    lemma_empty_tree_count(h, a, 512);
}

proof fn lemma_empty_tree_count(h: AddrSpaceHandle, a: FrameAllocator, upto: int)
    requires
        h.root.wf(),
        upto <= 512,
        forall|i: int| 0 <= i < 512 ==> h.root.entries@[i] == 0,
    ensures
        h.tree_count_upto(a, upto) == 0,
    decreases upto,
{
    if upto > 0 {
        lemma_empty_tree_count(h, a, upto - 1);
    }
}

/// The frame index behind a branch entry, recovered from its target address.
fn frame_of_entry(a: &FrameAllocator, e: u64) -> (r: usize)
    requires
        a.wf(),
        branch_ok(*a, e),
    ensures
        r == fidx(*a, e),
        r < a.n(),
        !a.is_free@[r as int],
{
    let t = Entry::new(e).as_address();
    proof {
        lemma_idx_of_in_range(a.base as int, a.n(), t.0 as int);
    }
    ((t.0 - a.base) / 4096) as usize
}

/// A frame address is page-aligned whenever the arena base is.
proof fn lemma_frame_addr_aligned(base: int, t: int)
    requires
        base % 4096 == 0,
        t >= 0,
        base >= 0,
    ensures
        (base + t * 4096) % 4096 == 0,
{
    assert((base + t * 4096) % 4096 == 0) by (nonlinear_arith)
        requires
            base % 4096 == 0,
            t >= 0,
            base >= 0,
    ;
}

impl AddrSpaceHandle {
    /// Makes root entry `v2` a valid branch, allocating and linking a zeroed
    /// level-1 table when the entry is invalid; no translation changes.
    fn ensure_root_branch(&mut self, a: &mut FrameAllocator, v2: usize) -> (t1: usize)
        requires
            old(self).wf_in(*old(a)),
            v2 < 512,
            !old(self).valid2(v2 as int) ==> old(a).fl().len() >= 1,
        ensures
            final(self).wf_in(*final(a)),
            final(a).base == old(a).base,
            final(a).n() == old(a).n(),
            final(self).valid2(v2 as int),
            t1 == final(self).l1_frame(*final(a), v2 as int),
            t1 < final(a).n(),
            !final(a).is_free@[t1 as int],
            forall|x: int|
                0 <= x < 512 && x != v2 ==> final(self).root_entry(x) == old(self).root_entry(x),
            forall|x: int, y: int, z: int|
                0 <= x < 512 && 0 <= y < 512 && 0 <= z < 512 ==> #[trigger] final(self).translate(
                    *final(a),
                    x,
                    y,
                    z,
                ) == old(self).translate(*old(a), x, y, z),
            old(self).valid2(v2 as int) ==> *final(a) == *old(a) && *final(self) == *old(self),
            !old(self).valid2(v2 as int) ==> {
                &&& final(a).fl() =~= old(a).fl().drop_first()
                &&& t1 == old(a).fl()[0]
                &&& final(a).is_free@ =~= old(a).is_free@.update(t1 as int, false)
                &&& forall|j: int|
                    0 <= j < 512 ==> #[trigger] final(self).l1_entry(*final(a), v2 as int, j) == 0
                &&& forall|f: int, w: int|
                    0 <= f < old(a).n() && 0 <= w < 512 && f != t1 as int ==> final(a).word_at(
                        f,
                        w,
                    ) == old(a).word_at(f, w)
            },
            forall|f: int|
                0 <= f < old(a).n() && old(self).in_tree(*old(a), f)
                    ==> #[trigger] final(self).in_tree(*final(a), f),
            forall|f: int|
                0 <= f < old(a).n() && !old(self).in_tree(*old(a), f) && !old(a).is_free@[f]
                    ==> !#[trigger] final(self).in_tree(*final(a), f) && frame_same(
                    *old(a),
                    *final(a),
                    f,
                ),
    {
        let e2 = self.root.get(v2);
        if e2 % 2 == 1 {
            proof {
                assert(e2 == self.root_entry(v2 as int));
                assert(branch_ok(*a, e2));
            }
            let t1 = frame_of_entry(a, e2);
            proof {
                assert forall|f: int|
                    0 <= f < a.n() && old(self).in_tree(*a, f) implies self.in_tree(*a, f) by {}
            }
            t1
        } else {
            let pa1 = match a.zalloc() {
                Ok(p) => p,
                Err(_) => unreached(),
            };
            let t1 = ((pa1.0 - a.base) / 4096) as usize;
            let ghost a0 = *old(a);
            let ghost s0 = *old(self);
            proof {
                lemma_idx_of_frame_addr(a.base as int, a.n(), a0.fl()[0]);
                assert(t1 == a0.fl()[0]);
                lemma_frame_addr_in_range(a.base as int, a.n(), t1 as int);
                lemma_frame_addr_aligned(a.base as int, t1 as int);
            }
            let e2new = pa1.0 / 4 + 1;
            proof {
                lemma_branch_entry(pa1.0);
                assert(e2new == spec_branch_entry(pa1.0));
            }
            self.root.set(v2, e2new);
            proof {
                let a1 = *a;
                let s1 = *self;
                let t = t1 as int;
                // the fresh frame was free, so it is no table of the old tree
                assert forall|i: int| 0 <= i < 512 && s0.valid2(i) implies s0.l1_frame(a0, i)
                    != t by {}
                assert forall|i: int, j: int|
                    0 <= i < 512 && 0 <= j < 512 && s0.valid1(a0, i, j) implies s0.l0_frame(
                    a0,
                    i,
                    j,
                ) != t by {}
                // unchanged structure away from the new row
                assert forall|i: int, j: int|
                    0 <= i < 512 && 0 <= j < 512 && i != v2 && s1.valid2(i) implies s1.l1_entry(
                    a1,
                    i,
                    j,
                ) == s0.l1_entry(a0, i, j) && s1.l1_frame(a1, i) == s0.l1_frame(a0, i) by {
                    assert(s1.root_entry(i) == s0.root_entry(i));
                    assert(branch_ok(a0, s0.root_entry(i)));
                }
                assert forall|i: int, j: int, k: int|
                    0 <= i < 512 && 0 <= j < 512 && 0 <= k < 512 && i != v2 && s1.valid1(
                        a1,
                        i,
                        j,
                    ) implies s1.l0_entry(a1, i, j, k) == s0.l0_entry(a0, i, j, k)
                    && s1.l0_frame(a1, i, j) == s0.l0_frame(a0, i, j) by {
                    assert(branch_ok(a0, s0.l1_entry(a0, i, j)));
                }
                // the new row: a zeroed table
                assert(branch_ok(a1, s1.root_entry(v2 as int))) by {
                    assert(entry_target(e2new) == pa1.0);
                    lemma_idx_of_frame_addr(a1.base as int, a1.n(), t);
                }
                assert forall|j: int| 0 <= j < 512 implies s1.l1_entry(a1, v2 as int, j) == 0 by {
                    assert(s1.l1_frame(a1, v2 as int) == t);
                }
                assert forall|i: int|
                    0 <= i < 512 && s1.valid2(i) implies branch_ok(
                    a1,
                    #[trigger] s1.root_entry(i),
                ) by {
                    if i != v2 as int {
                        assert(branch_ok(a0, s0.root_entry(i)));
                        assert(s0.l1_frame(a0, i) != t);
                    }
                }
                assert forall|i: int, j: int|
                    0 <= i < 512 && 0 <= j < 512 && s1.valid2(i) && entry_is_valid(
                        #[trigger] s1.l1_entry(a1, i, j),
                    ) implies branch_ok(a1, s1.l1_entry(a1, i, j)) by {
                    if i == v2 as int {
                        assert(s1.l1_entry(a1, i, j) == 0);
                    } else {
                        assert(s1.l1_entry(a1, i, j) == s0.l1_entry(a0, i, j));
                        assert(branch_ok(a0, s0.l1_entry(a0, i, j)));
                        assert(s0.l0_frame(a0, i, j) != t);
                        assert(s1.l0_frame(a1, i, j) == s0.l0_frame(a0, i, j));
                    }
                }
                assert forall|i: int, j: int, k: int|
                    0 <= i < 512 && 0 <= j < 512 && 0 <= k < 512 && s1.valid1(a1, i, j)
                        && entry_is_valid(#[trigger] s1.l0_entry(a1, i, j, k)) implies (
                entry_is_leaf(s1.l0_entry(a1, i, j, k)) && s1.l0_entry(a1, i, j, k)
                    < ENTRY_BOUND) by {
                    if i == v2 as int {
                        assert(s1.l1_entry(a1, i, j) == 0);
                    } else {
                        assert(s1.l0_entry(a1, i, j, k) == s0.l0_entry(a0, i, j, k));
                    }
                }
                assert(s1.distinct(a1)) by {
                    assert forall|i1: int, i2: int|
                        0 <= i1 < 512 && 0 <= i2 < 512 && i1 != i2 && s1.valid2(i1) && s1.valid2(
                            i2,
                        ) implies #[trigger] s1.l1_frame(a1, i1) != #[trigger] s1.l1_frame(
                        a1,
                        i2,
                    ) by {
                        if i1 != v2 as int && i2 != v2 as int {
                            assert(s1.l1_frame(a1, i1) == s0.l1_frame(a0, i1));
                            assert(s1.l1_frame(a1, i2) == s0.l1_frame(a0, i2));
                        } else if i1 == v2 as int {
                            assert(s1.l1_frame(a1, i1) == t);
                            assert(s1.l1_frame(a1, i2) == s0.l1_frame(a0, i2));
                            assert(s0.l1_frame(a0, i2) != t);
                        } else {
                            assert(s1.l1_frame(a1, i2) == t);
                            assert(s1.l1_frame(a1, i1) == s0.l1_frame(a0, i1));
                            assert(s0.l1_frame(a0, i1) != t);
                        }
                    }
                    assert forall|i1: int, j1: int, i2: int, j2: int|
                        0 <= i1 < 512 && 0 <= j1 < 512 && 0 <= i2 < 512 && 0 <= j2 < 512
                            && s1.valid1(a1, i1, j1) && s1.valid1(a1, i2, j2) && !(i1 == i2 && j1
                            == j2) implies #[trigger] s1.l0_frame(a1, i1, j1)
                        != #[trigger] s1.l0_frame(a1, i2, j2) by {
                        assert(i1 != v2 as int && i2 != v2 as int);
                        assert(s1.l0_frame(a1, i1, j1) == s0.l0_frame(a0, i1, j1));
                        assert(s1.l0_frame(a1, i2, j2) == s0.l0_frame(a0, i2, j2));
                    }
                    assert forall|i1: int, i2: int, j2: int|
                        0 <= i1 < 512 && 0 <= i2 < 512 && 0 <= j2 < 512 && s1.valid2(i1)
                            && s1.valid1(a1, i2, j2) implies #[trigger] s1.l1_frame(a1, i1)
                        != #[trigger] s1.l0_frame(a1, i2, j2) by {
                        assert(i2 != v2 as int);
                        assert(s1.l0_frame(a1, i2, j2) == s0.l0_frame(a0, i2, j2));
                        if i1 == v2 as int {
                            assert(s1.l1_frame(a1, i1) == t);
                            assert(s0.l0_frame(a0, i2, j2) != t);
                        } else {
                            assert(s1.l1_frame(a1, i1) == s0.l1_frame(a0, i1));
                        }
                    }
                }
                assert(s1.wf_in(a1));
                // translations are unchanged
                reveal(AddrSpaceHandle::translate);
                assert forall|x: int, y: int, z: int|
                    0 <= x < 512 && 0 <= y < 512 && 0 <= z < 512 implies #[trigger] s1.translate(
                    a1,
                    x,
                    y,
                    z,
                ) == s0.translate(a0, x, y, z) by {
                    if x == v2 as int {
                        assert(s1.l1_entry(a1, x, y) == 0);
                    } else {
                        if s1.valid2(x) && entry_is_valid(s1.l1_entry(a1, x, y)) {
                            assert(s1.l0_entry(a1, x, y, z) == s0.l0_entry(a0, x, y, z));
                        }
                    }
                }
                // tree growth is exactly the fresh frame
                assert forall|f: int|
                    0 <= f < a0.n() && s0.in_tree(a0, f) implies s1.in_tree(a1, f) by {
                    if s0.is_l1_frame(a0, f) {
                        let i = choose|i: int|
                            0 <= i < 512 && s0.valid2(i) && #[trigger] s0.l1_frame(a0, i) == f;
                        assert(i != v2 as int);
                        assert(s1.l1_frame(a1, i) == f);
                    } else {
                        let (i, j) = choose|i: int, j: int|
                            0 <= i < 512 && 0 <= j < 512 && s0.valid1(a0, i, j)
                                && #[trigger] s0.l0_frame(a0, i, j) == f;
                        assert(i != v2 as int);
                        assert(s1.valid1(a1, i, j) && s1.l0_frame(a1, i, j) == f);
                    }
                }
                assert forall|f: int|
                    0 <= f < a0.n() && !s0.in_tree(a0, f) && !a0.is_free@[f]
                    implies !s1.in_tree(a1, f) && frame_same(a0, a1, f) by {
                    assert(f != t);
                    if s1.is_l1_frame(a1, f) {
                        let i = choose|i: int|
                            0 <= i < 512 && s1.valid2(i) && #[trigger] s1.l1_frame(a1, i) == f;
                        if i == v2 as int {
                            assert(f == t);
                        } else {
                            assert(s0.l1_frame(a0, i) == f);
                            assert(s0.is_l1_frame(a0, f));
                        }
                    }
                    if s1.is_l0_frame(a1, f) {
                        let (i, j) = choose|i: int, j: int|
                            0 <= i < 512 && 0 <= j < 512 && s1.valid1(a1, i, j)
                                && #[trigger] s1.l0_frame(a1, i, j) == f;
                        if i == v2 as int {
                            assert(s1.l1_entry(a1, i, j) == 0);
                        } else {
                            assert(s1.l1_entry(a1, i, j) == s0.l1_entry(a0, i, j));
                            assert(s0.valid1(a0, i, j));
                            assert(s0.l0_frame(a0, i, j) == f);
                            assert(s0.is_l0_frame(a0, f));
                        }
                    }
                }
            }
            t1
        }
    }

    /// Makes entry `v1` of the level-1 table in frame `t1` a valid branch,
    /// allocating and linking a zeroed level-0 table when the entry is
    /// invalid; no translation changes.
    fn ensure_l1_branch(&self, a: &mut FrameAllocator, v2: usize, t1: usize, v1: usize) -> (t0:
        usize)
        requires
            self.wf_in(*old(a)),
            v2 < 512,
            v1 < 512,
            self.valid2(v2 as int),
            t1 == self.l1_frame(*old(a), v2 as int),
            !entry_is_valid(self.l1_entry(*old(a), v2 as int, v1 as int)) ==> old(a).fl().len()
                >= 1,
        ensures
            self.wf_in(*final(a)),
            final(a).base == old(a).base,
            final(a).n() == old(a).n(),
            self.valid1(*final(a), v2 as int, v1 as int),
            t0 == self.l0_frame(*final(a), v2 as int, v1 as int),
            t0 < final(a).n(),
            !final(a).is_free@[t0 as int],
            forall|x: int, y: int, z: int|
                0 <= x < 512 && 0 <= y < 512 && 0 <= z < 512 ==> #[trigger] self.translate(
                    *final(a),
                    x,
                    y,
                    z,
                ) == self.translate(*old(a), x, y, z),
            entry_is_valid(self.l1_entry(*old(a), v2 as int, v1 as int)) ==> *final(a) == *old(
                a,
            ),
            !entry_is_valid(self.l1_entry(*old(a), v2 as int, v1 as int)) ==> {
                &&& final(a).fl() =~= old(a).fl().drop_first()
                &&& t0 == old(a).fl()[0]
                &&& final(a).is_free@ =~= old(a).is_free@.update(t0 as int, false)
                &&& forall|k: int|
                    0 <= k < 512 ==> #[trigger] self.l0_entry(
                        *final(a),
                        v2 as int,
                        v1 as int,
                        k,
                    ) == 0
                &&& forall|f: int, w: int|
                    0 <= f < old(a).n() && 0 <= w < 512 && f != t0 as int && !(f == t1 as int && w
                        == v1 as int) ==> final(a).word_at(f, w) == old(a).word_at(f, w)
            },
            forall|f: int|
                0 <= f < old(a).n() && self.in_tree(*old(a), f)
                    ==> #[trigger] self.in_tree(*final(a), f),
            forall|f: int|
                0 <= f < old(a).n() && !self.in_tree(*old(a), f) && !old(a).is_free@[f]
                    ==> !#[trigger] self.in_tree(*final(a), f) && frame_same(
                    *old(a),
                    *final(a),
                    f,
                ),
    {
        let e1 = a.read_word(t1, v1);
        if e1 % 2 == 1 {
            proof {
                assert(e1 == self.l1_entry(*a, v2 as int, v1 as int));
                assert(branch_ok(*a, e1));
            }
            let t0 = frame_of_entry(a, e1);
            t0
        } else {
            let ghost a0 = *old(a);
            let pa0 = match a.zalloc() {
                Ok(p) => p,
                Err(_) => unreached(),
            };
            let t0 = ((pa0.0 - a.base) / 4096) as usize;
            proof {
                lemma_idx_of_frame_addr(a.base as int, a.n(), a0.fl()[0]);
                assert(t0 == a0.fl()[0]);
                lemma_frame_addr_in_range(a.base as int, a.n(), t0 as int);
                lemma_frame_addr_aligned(a.base as int, t0 as int);
            }
            let e1new = pa0.0 / 4 + 1;
            proof {
                lemma_branch_entry(pa0.0);
                assert(e1new == spec_branch_entry(pa0.0));
            }
            let ghost a1 = *a;
            a.write_word(t1, v1, e1new);
            proof {
                let a2 = *a;
                let s = *self;
                let t = t0 as int;
                let t1i = t1 as int;
                let v2i = v2 as int;
                let v1i = v1 as int;
                // how the words moved: only the fresh table and the one slot
                assert forall|f: int, w: int|
                    0 <= f < a0.n() && 0 <= w < 512 && f != t && !(f == t1i && w == v1i)
                    implies a2.word_at(f, w) == a0.word_at(f, w) by {
                    lemma_word_slot_in_range(a0.n(), f, w);
                    lemma_word_slot_in_range(a0.n(), t1i, v1i);
                    if f != t1i {
                        lemma_word_slots_distinct(f, w, t1i);
                        assert(f * 512 + w != t1i * 512 + v1i) by (nonlinear_arith)
                            requires
                                0 <= w < 512,
                                0 <= v1i < 512,
                                f != t1i,
                                f >= 0,
                                t1i >= 0,
                        ;
                    }
                }
                assert forall|w: int| 0 <= w < 512 && w != v1i implies a2.word_at(t1i, w)
                    == a0.word_at(t1i, w) by {
                    lemma_word_slot_in_range(a0.n(), t1i, w);
                    lemma_word_slot_in_range(a0.n(), t1i, v1i);
                }
                assert(a2.word_at(t1i, v1i) == e1new) by {
                    lemma_word_slot_in_range(a0.n(), t1i, v1i);
                }
                // the fresh frame was free, so it is no table of the old tree
                assert forall|i: int| 0 <= i < 512 && s.valid2(i) implies s.l1_frame(a0, i)
                    != t by {}
                assert forall|i: int, j: int|
                    0 <= i < 512 && 0 <= j < 512 && s.valid1(a0, i, j) implies s.l0_frame(
                    a0,
                    i,
                    j,
                ) != t by {}
                // roots and their frames are untouched
                assert forall|i: int| 0 <= i < 512 implies s.l1_frame(a2, i) == s.l1_frame(
                    a0,
                    i,
                ) by {}
                // level-1 entries move only at the one slot
                assert forall|i: int, j: int|
                    0 <= i < 512 && 0 <= j < 512 && s.valid2(i) && !(i == v2i && j == v1i)
                    implies s.l1_entry(a2, i, j) == s.l1_entry(a0, i, j) by {
                    assert(branch_ok(a0, s.root_entry(i)));
                    if s.l1_frame(a0, i) == t1i {
                        assert(i == v2i);
                    }
                }
                assert(s.l1_entry(a2, v2i, v1i) == e1new);
                assert(branch_ok(a2, e1new)) by {
                    assert(entry_target(e1new) == pa0.0);
                    lemma_idx_of_frame_addr(a2.base as int, a2.n(), t);
                }
                assert(s.l0_frame(a2, v2i, v1i) == t);
                assert(t != t1i);
                assert forall|k: int| 0 <= k < 512 implies s.l0_entry(a2, v2i, v1i, k) == 0 by {
                    assert(a1.word_at(t, k) == 0);
                    lemma_word_slot_in_range(a0.n(), t, k);
                    lemma_word_slot_in_range(a0.n(), t1i, v1i);
                    lemma_word_slots_distinct(t, k, t1i);
                    assert(a2.word_at(t, k) == a1.word_at(t, k));
                }
                // old level-0 tables are untouched
                assert forall|i: int, j: int, k: int|
                    0 <= i < 512 && 0 <= j < 512 && 0 <= k < 512 && s.valid1(a0, i, j)
                    implies s.l0_entry(a2, i, j, k) == s.l0_entry(a0, i, j, k) && s.l0_frame(
                    a2,
                    i,
                    j,
                ) == s.l0_frame(a0, i, j) by {
                    assert(branch_ok(a0, s.l1_entry(a0, i, j)));
                    assert(s.l1_frame(a0, i) != s.l0_frame(a0, i, j));
                    assert(s.l0_frame(a0, i, j) != t);
                    assert(!(i == v2i && j == v1i));
                    assert(s.l1_entry(a2, i, j) == s.l1_entry(a0, i, j));
                    if s.l0_frame(a0, i, j) == t1i {
                        assert(s.valid2(v2i) && s.valid1(a0, i, j));
                        assert(s.l1_frame(a0, v2i) != s.l0_frame(a0, i, j));
                        assert(false);
                    }
                }
                // well-formedness against the new allocator state
                assert forall|i: int|
                    0 <= i < 512 && s.valid2(i) implies branch_ok(
                    a2,
                    #[trigger] s.root_entry(i),
                ) by {
                    assert(branch_ok(a0, s.root_entry(i)));
                }
                assert forall|i: int, j: int|
                    0 <= i < 512 && 0 <= j < 512 && s.valid2(i) && entry_is_valid(
                        #[trigger] s.l1_entry(a2, i, j),
                    ) implies branch_ok(a2, s.l1_entry(a2, i, j)) by {
                    if i == v2i && j == v1i {
                    } else {
                        assert(s.l1_entry(a2, i, j) == s.l1_entry(a0, i, j));
                        assert(branch_ok(a0, s.l1_entry(a0, i, j)));
                        assert(s.l0_frame(a0, i, j) != t);
                    }
                }
                assert forall|i: int, j: int, k: int|
                    0 <= i < 512 && 0 <= j < 512 && 0 <= k < 512 && s.valid1(a2, i, j)
                        && entry_is_valid(#[trigger] s.l0_entry(a2, i, j, k)) implies (
                entry_is_leaf(s.l0_entry(a2, i, j, k)) && s.l0_entry(a2, i, j, k)
                    < ENTRY_BOUND) by {
                    if i == v2i && j == v1i {
                        assert(s.l0_entry(a2, i, j, k) == 0);
                    } else {
                        assert(s.l1_entry(a2, i, j) == s.l1_entry(a0, i, j));
                        assert(s.valid1(a0, i, j));
                        assert(s.l0_entry(a2, i, j, k) == s.l0_entry(a0, i, j, k));
                    }
                }
                assert(s.distinct(a2)) by {
                    assert forall|i1: int, j1: int, i2: int, j2: int|
                        0 <= i1 < 512 && 0 <= j1 < 512 && 0 <= i2 < 512 && 0 <= j2 < 512
                            && s.valid1(a2, i1, j1) && s.valid1(a2, i2, j2) && !(i1 == i2 && j1
                            == j2) implies #[trigger] s.l0_frame(a2, i1, j1)
                        != #[trigger] s.l0_frame(a2, i2, j2) by {
                        if i1 == v2i && j1 == v1i {
                            assert(s.l0_frame(a2, i1, j1) == t);
                            assert(s.valid1(a0, i2, j2));
                            assert(s.l0_frame(a2, i2, j2) == s.l0_frame(a0, i2, j2));
                            assert(s.l0_frame(a0, i2, j2) != t);
                        } else if i2 == v2i && j2 == v1i {
                            assert(s.l0_frame(a2, i2, j2) == t);
                            assert(s.valid1(a0, i1, j1));
                            assert(s.l0_frame(a2, i1, j1) == s.l0_frame(a0, i1, j1));
                            assert(s.l0_frame(a0, i1, j1) != t);
                        } else {
                            assert(s.valid1(a0, i1, j1) && s.valid1(a0, i2, j2));
                            assert(s.l0_frame(a2, i1, j1) == s.l0_frame(a0, i1, j1));
                            assert(s.l0_frame(a2, i2, j2) == s.l0_frame(a0, i2, j2));
                        }
                    }
                    assert forall|i1: int, i2: int, j2: int|
                        0 <= i1 < 512 && 0 <= i2 < 512 && 0 <= j2 < 512 && s.valid2(i1)
                            && s.valid1(a2, i2, j2) implies #[trigger] s.l1_frame(a2, i1)
                        != #[trigger] s.l0_frame(a2, i2, j2) by {
                        assert(s.l1_frame(a2, i1) == s.l1_frame(a0, i1));
                        if i2 == v2i && j2 == v1i {
                            assert(s.l0_frame(a2, i2, j2) == t);
                            assert(s.l1_frame(a0, i1) != t);
                        } else {
                            assert(s.valid1(a0, i2, j2));
                            assert(s.l0_frame(a2, i2, j2) == s.l0_frame(a0, i2, j2));
                        }
                    }
                }
                assert(s.wf_in(a2));
                // translations are unchanged
                reveal(AddrSpaceHandle::translate);
                assert forall|x: int, y: int, z: int|
                    0 <= x < 512 && 0 <= y < 512 && 0 <= z < 512 implies #[trigger] s.translate(
                    a2,
                    x,
                    y,
                    z,
                ) == s.translate(a0, x, y, z) by {
                    if s.valid2(x) {
                        if x == v2i && y == v1i {
                            assert(s.l0_entry(a2, x, y, z) == 0);
                        } else {
                            assert(s.l1_entry(a2, x, y) == s.l1_entry(a0, x, y));
                            if entry_is_valid(s.l1_entry(a0, x, y)) {
                                assert(s.l0_entry(a2, x, y, z) == s.l0_entry(a0, x, y, z));
                            }
                        }
                    }
                }
                // tree growth is exactly the fresh frame
                assert forall|f: int|
                    0 <= f < a0.n() && s.in_tree(a0, f) implies s.in_tree(a2, f) by {
                    if s.is_l1_frame(a0, f) {
                        let i = choose|i: int|
                            0 <= i < 512 && s.valid2(i) && #[trigger] s.l1_frame(a0, i) == f;
                        assert(s.l1_frame(a2, i) == f);
                    } else {
                        let (i, j) = choose|i: int, j: int|
                            0 <= i < 512 && 0 <= j < 512 && s.valid1(a0, i, j)
                                && #[trigger] s.l0_frame(a0, i, j) == f;
                        assert(s.valid1(a2, i, j) && s.l0_frame(a2, i, j) == f);
                    }
                }
                assert forall|f: int|
                    0 <= f < a0.n() && !s.in_tree(a0, f) && !a0.is_free@[f]
                    implies !s.in_tree(a2, f) && frame_same(a0, a2, f) by {
                    assert(f != t);
                    assert(f != t1i) by {
                        assert(s.is_l1_frame(a0, t1i)) by {
                            assert(s.l1_frame(a0, v2i) == t1i);
                        }
                    }
                    if s.is_l1_frame(a2, f) {
                        let i = choose|i: int|
                            0 <= i < 512 && s.valid2(i) && #[trigger] s.l1_frame(a2, i) == f;
                        assert(s.l1_frame(a0, i) == f);
                        assert(s.is_l1_frame(a0, f));
                    }
                    if s.is_l0_frame(a2, f) {
                        let (i, j) = choose|i: int, j: int|
                            0 <= i < 512 && 0 <= j < 512 && s.valid1(a2, i, j)
                                && #[trigger] s.l0_frame(a2, i, j) == f;
                        if i == v2i && j == v1i {
                            assert(s.l0_frame(a2, i, j) == t);
                        } else {
                            assert(s.l1_entry(a2, i, j) == s.l1_entry(a0, i, j));
                            assert(s.valid1(a0, i, j));
                            assert(s.l0_frame(a0, i, j) == f);
                            assert(s.is_l0_frame(a0, f));
                        }
                    }
                }
            }
            t0
        }
    }

    /// Installs a mapping from the virtual page of `vaddr` to the physical
    /// page of `paddr` with the given permissions, allocating and linking up
    /// to two fresh branch tables on the way down.  An already mapped
    /// virtual page is silently overwritten.  Rejects permission sets with
    /// none of R/W/X (the entry would read back as a branch), and reports
    /// exhaustion, before touching anything, when the allocator cannot cover
    /// the tables the walk is missing.
    pub fn map(&mut self, a: &mut FrameAllocator, vaddr: VAddr, paddr: PAddr, flags: EntryFlags)
        -> (r: Result<(), MemError>)
        requires
            old(self).wf_in(*old(a)),
            paddr.0 < 0x100_0000_0000_0000,
        ensures
            final(self).wf_in(*final(a)),
            final(a).base == old(a).base,
            final(a).n() == old(a).n(),
            !flags.spec_has_rwx() ==> r == Err::<(), MemError>(MemError::NoLeafPerm)
                && *final(self) == *old(self) && *final(a) == *old(a),
            flags.spec_has_rwx() && old(a).fl().len() < old(self).tables_needed(
                *old(a),
                vaddr.0,
            ) ==> r == Err::<(), MemError>(MemError::Exhausted) && *final(self) == *old(self)
                && *final(a) == *old(a),
            flags.spec_has_rwx() && old(a).fl().len() >= old(self).tables_needed(
                *old(a),
                vaddr.0,
            ) ==> {
                &&& r == Ok::<(), MemError>(())
                &&& final(self).translate_va(*final(a), vaddr.0) == Some(
                    spec_leaf_entry(paddr.0, flags.bits),
                )
                &&& forall|x: int, y: int, z: int|
                    0 <= x < 512 && 0 <= y < 512 && 0 <= z < 512 && !(x == spec_vpn2(vaddr.0) && y
                        == spec_vpn1(vaddr.0) && z == spec_vpn0(vaddr.0))
                        ==> #[trigger] final(self).translate(*final(a), x, y, z) == old(
                        self,
                    ).translate(*old(a), x, y, z)
                &&& final(a).fl() =~= old(a).fl().skip(
                    old(self).tables_needed(*old(a), vaddr.0),
                )
                &&& forall|f: int|
                    0 <= f < old(a).n() && !old(a).is_free@[f] && !old(self).in_tree(*old(a), f)
                        ==> !#[trigger] final(self).in_tree(*final(a), f) && frame_same(
                        *old(a),
                        *final(a),
                        f,
                    )
                &&& forall|f: int|
                    0 <= f < old(a).n() && old(self).in_tree(*old(a), f)
                        ==> #[trigger] final(self).in_tree(*final(a), f)
            },
    {
        let vpn = vaddr.vpn();
        let v0 = vpn[0];
        let v1 = vpn[1];
        let v2 = vpn[2];
        if !flags.has_rwx() {
            return Err(MemError::NoLeafPerm);
        }
        // decide up front how many fresh tables this mapping needs
        let e2 = self.root.get(v2);
        let needed: usize;
        if e2 % 2 != 1 {
            needed = 2;
        } else {
            proof {
                assert(branch_ok(*a, self.root_entry(v2 as int)));
            }
            let t1p = frame_of_entry(a, e2);
            let e1p = a.read_word(t1p, v1);
            needed = if e1p % 2 != 1 {
                1
            } else {
                0
            };
            proof {
                assert(e1p == self.l1_entry(*a, v2 as int, v1 as int));
            }
        }
        proof {
            assert(needed == old(self).tables_needed(*old(a), vaddr.0));
        }
        if a.free_count() < needed {
            return Err(MemError::Exhausted);
        }
        let ghost s0 = *old(self);
        let ghost a0 = *old(a);
        let t1 = self.ensure_root_branch(a, v2);
        let ghost a1 = *a;
        let t0 = self.ensure_l1_branch(a, v2, t1, v1);
        let ghost a2 = *a;
        let wv: u8 = if flags.bits % 2 == 1 {
            flags.bits
        } else {
            flags.bits + 1
        };
        let leaf: u64 = (paddr.0 / 4096) * 1024 + (wv as u64);
        proof {
            lemma_leaf_entry(paddr.0, flags.bits);
            assert(leaf == spec_leaf_entry(paddr.0, flags.bits));
        }
        a.write_word(t0, v0, leaf);
        proof {
            let s = *self;
            let a3 = *a;
            let t = t0 as int;
            let v2i = v2 as int;
            let v1i = v1 as int;
            let v0i = v0 as int;
            // only one word of the arena moved
            assert forall|f: int, w: int|
                0 <= f < a2.n() && 0 <= w < 512 && !(f == t && w == v0i) implies a3.word_at(f, w)
                == a2.word_at(f, w) by {
                lemma_word_slot_in_range(a2.n(), f, w);
                lemma_word_slot_in_range(a2.n(), t, v0i);
                if f != t {
                    lemma_word_slots_distinct(f, w, t);
                    assert(f * 512 + w != t * 512 + v0i) by (nonlinear_arith)
                        requires
                            0 <= w < 512,
                            0 <= v0i < 512,
                            f != t,
                            f >= 0,
                            t >= 0,
                    ;
                }
            }
            assert(a3.word_at(t, v0i) == leaf) by {
                lemma_word_slot_in_range(a2.n(), t, v0i);
            }
            // structure above level 0 is untouched
            assert forall|i: int| 0 <= i < 512 implies s.l1_frame(a3, i) == s.l1_frame(
                a2,
                i,
            ) by {}
            assert forall|i: int, j: int|
                0 <= i < 512 && 0 <= j < 512 && s.valid2(i) implies s.l1_entry(a3, i, j)
                == s.l1_entry(a2, i, j) && s.l0_frame(a3, i, j) == s.l0_frame(a2, i, j) by {
                assert(branch_ok(a2, s.root_entry(i)));
                assert(s.l1_frame(a2, i) != t);
            }
            // level-0 entries move only at the mapped slot
            assert forall|i: int, j: int, k: int|
                0 <= i < 512 && 0 <= j < 512 && 0 <= k < 512 && s.valid1(a2, i, j) && !(i == v2i
                    && j == v1i && k == v0i) implies s.l0_entry(a3, i, j, k) == s.l0_entry(
                a2,
                i,
                j,
                k,
            ) by {
                assert(branch_ok(a2, s.l1_entry(a2, i, j)));
                if s.l0_frame(a2, i, j) == t {
                    assert(i == v2i && j == v1i);
                }
            }
            assert(s.l0_entry(a3, v2i, v1i, v0i) == leaf);
            // well-formedness survives the leaf write
            assert forall|i: int|
                0 <= i < 512 && s.valid2(i) implies branch_ok(a3, #[trigger] s.root_entry(i)) by {
                assert(branch_ok(a2, s.root_entry(i)));
            }
            assert forall|i: int, j: int|
                0 <= i < 512 && 0 <= j < 512 && s.valid2(i) && entry_is_valid(
                    #[trigger] s.l1_entry(a3, i, j),
                ) implies branch_ok(a3, s.l1_entry(a3, i, j)) by {
                assert(s.l1_entry(a3, i, j) == s.l1_entry(a2, i, j));
                assert(branch_ok(a2, s.l1_entry(a2, i, j)));
            }
            assert forall|i: int, j: int, k: int|
                0 <= i < 512 && 0 <= j < 512 && 0 <= k < 512 && s.valid1(a3, i, j)
                    && entry_is_valid(#[trigger] s.l0_entry(a3, i, j, k)) implies (entry_is_leaf(
                s.l0_entry(a3, i, j, k),
            ) && s.l0_entry(a3, i, j, k) < ENTRY_BOUND) by {
                assert(s.l1_entry(a3, i, j) == s.l1_entry(a2, i, j));
                if i == v2i && j == v1i && k == v0i {
                } else {
                    assert(s.valid1(a2, i, j));
                    assert(s.l0_entry(a3, i, j, k) == s.l0_entry(a2, i, j, k));
                }
            }
            assert(s.distinct(a3)) by {
                assert forall|i1: int, j1: int, i2: int, j2: int|
                    0 <= i1 < 512 && 0 <= j1 < 512 && 0 <= i2 < 512 && 0 <= j2 < 512 && s.valid1(
                        a3,
                        i1,
                        j1,
                    ) && s.valid1(a3, i2, j2) && !(i1 == i2 && j1 == j2)
                        implies #[trigger] s.l0_frame(a3, i1, j1) != #[trigger] s.l0_frame(
                        a3,
                        i2,
                        j2,
                    ) by {
                    assert(s.l1_entry(a3, i1, j1) == s.l1_entry(a2, i1, j1));
                    assert(s.l1_entry(a3, i2, j2) == s.l1_entry(a2, i2, j2));
                    assert(s.l0_frame(a3, i1, j1) == s.l0_frame(a2, i1, j1));
                    assert(s.l0_frame(a3, i2, j2) == s.l0_frame(a2, i2, j2));
                }
                assert forall|i1: int, i2: int, j2: int|
                    0 <= i1 < 512 && 0 <= i2 < 512 && 0 <= j2 < 512 && s.valid2(i1) && s.valid1(
                        a3,
                        i2,
                        j2,
                    ) implies #[trigger] s.l1_frame(a3, i1) != #[trigger] s.l0_frame(
                    a3,
                    i2,
                    j2,
                ) by {
                    assert(s.l1_entry(a3, i2, j2) == s.l1_entry(a2, i2, j2));
                    assert(s.l0_frame(a3, i2, j2) == s.l0_frame(a2, i2, j2));
                }
            }
            assert(s.wf_in(a3));
            // the new leaf is installed, every other path is as before
            reveal(AddrSpaceHandle::translate);
            assert(s.translate(a3, v2i, v1i, v0i) == Some(leaf));
            assert(v2i == spec_vpn2(vaddr.0) && v1i == spec_vpn1(vaddr.0) && v0i == spec_vpn0(
                vaddr.0,
            ));
            assert forall|x: int, y: int, z: int|
                0 <= x < 512 && 0 <= y < 512 && 0 <= z < 512 && !(x == v2i && y == v1i && z
                    == v0i) implies #[trigger] s.translate(a3, x, y, z) == s.translate(
                a2,
                x,
                y,
                z,
            ) by {
                if s.valid2(x) {
                    assert(s.l1_entry(a3, x, y) == s.l1_entry(a2, x, y));
                    if entry_is_valid(s.l1_entry(a2, x, y)) {
                        assert(s.l0_entry(a3, x, y, z) == s.l0_entry(a2, x, y, z));
                    }
                }
            }
            // the free list lost exactly the fresh tables, from the front
            assert(a3.fl() =~= a0.fl().skip(needed as int));
            // the tree can only have grown by the fresh tables
            assert(s.in_tree(a2, t)) by {
                assert(s.valid1(a2, v2i, v1i) && s.l0_frame(a2, v2i, v1i) == t);
            }
            assert forall|f: int|
                0 <= f < a2.n() implies (#[trigger] s.in_tree(a3, f) <==> s.in_tree(a2, f)) by {
                assert forall|i: int, j: int|
                    0 <= i < 512 && 0 <= j < 512 implies (s.valid1(a3, i, j) <==> s.valid1(
                    a2,
                    i,
                    j,
                )) by {
                    if s.valid2(i) {
                        assert(s.l1_entry(a3, i, j) == s.l1_entry(a2, i, j));
                    }
                }
                if s.is_l1_frame(a3, f) {
                    let i = choose|i: int|
                        0 <= i < 512 && s.valid2(i) && #[trigger] s.l1_frame(a3, i) == f;
                    assert(s.l1_frame(a2, i) == f);
                }
                if s.is_l1_frame(a2, f) {
                    let i = choose|i: int|
                        0 <= i < 512 && s.valid2(i) && #[trigger] s.l1_frame(a2, i) == f;
                    assert(s.l1_frame(a3, i) == f);
                }
                if s.is_l0_frame(a3, f) {
                    let (i, j) = choose|i: int, j: int|
                        0 <= i < 512 && 0 <= j < 512 && s.valid1(a3, i, j)
                            && #[trigger] s.l0_frame(a3, i, j) == f;
                    assert(s.l0_frame(a2, i, j) == f && s.valid1(a2, i, j));
                    assert(s.is_l0_frame(a2, f));
                }
                if s.is_l0_frame(a2, f) {
                    let (i, j) = choose|i: int, j: int|
                        0 <= i < 512 && 0 <= j < 512 && s.valid1(a2, i, j)
                            && #[trigger] s.l0_frame(a2, i, j) == f;
                    assert(s.l0_frame(a3, i, j) == f && s.valid1(a3, i, j));
                    assert(s.is_l0_frame(a3, f));
                }
            }
            assert forall|f: int|
                0 <= f < a0.n() && !a0.is_free@[f] && !s0.in_tree(a0, f) implies !s.in_tree(
                a3,
                f,
            ) && frame_same(a0, a3, f) by {
                assert(!s.in_tree(a1, f) && frame_same(a0, a1, f));
                assert(!a1.is_free@[f]);
                assert(!s.in_tree(a2, f) && frame_same(a1, a2, f));
                assert(f != t);
                assert(frame_same(a2, a3, f));
            }
        }
        Ok(())
    }

    /// Walks the tree by the address's VPN fields and returns the leaf entry
    /// governing it, if the address is mapped.
    pub fn walk(&self, a: &FrameAllocator, vaddr: VAddr) -> (r: Option<Entry>)
        requires
            self.wf_in(*a),
        ensures
            (match self.translate_va(*a, vaddr.0) {
                Some(e) => r == Some(Entry(e)),
                None => r == None::<Entry>,
            }),
    {
        proof {
            reveal(AddrSpaceHandle::translate);
        }
        let vpn = vaddr.vpn();
        let e2 = self.root.get(vpn[2]);
        if e2 % 2 != 1 {
            return None;
        }
        let t1 = frame_of_entry(a, e2);
        let e1 = a.read_word(t1, vpn[1]);
        if e1 % 2 != 1 {
            return None;
        }
        let t0 = frame_of_entry(a, e1);
        let e0 = a.read_word(t0, vpn[0]);
        if e0 % 2 == 1 && (e0 / 2) % 8 != 0 {
            Some(Entry::new(e0))
        } else {
            None
        }
    }

    /// Walks the whole tree and returns every branch-table frame to the
    /// allocator: the level-0 table behind each valid level-1 entry, then
    /// each level-1 table itself.  Leaf target frames are never freed — they
    /// are caller-managed mapped memory, not table storage.  The root is the
    /// caller's storage and is zeroed, leaving the empty address space.
    /// Returns how many frames went back.
    pub fn teardown(&mut self, a: &mut FrameAllocator) -> (freed: usize)
        requires
            old(self).wf_in(*old(a)),
        ensures
            final(self).wf_in(*final(a)),
            forall|i: int| 0 <= i < 512 ==> final(self).root.entries@[i] == 0,
            final(a).base == old(a).base,
            final(a).n() == old(a).n(),
            final(a).words == old(a).words,
            freed == old(self).tree_count(*old(a)),
            final(a).fl().len() == old(a).fl().len() + freed,
            forall|f: int|
                0 <= f < old(a).n() ==> final(a).is_free@[f] == (old(a).is_free@[f] || old(
                    self,
                ).in_tree(*old(a), f)),
    {
        let ghost s0 = *old(self);
        let ghost a0 = *old(a);
        let mut freed: usize = 0;
        let mut i: usize = 0;
        while i < 512
            invariant
                i <= 512,
                s0.wf_in(a0),
                a.wf(),
                a.base == a0.base,
                a.n() == a0.n(),
                a.words == a0.words,
                self.root.wf(),
                forall|x: int| 0 <= x < i ==> self.root.entries@[x] == 0,
                forall|x: int| i <= x < 512 ==> self.root.entries@[x] == s0.root.entries@[x],
                freed == s0.tree_count_upto(a0, i as int),
                a.fl().len() == a0.fl().len() + freed,
                forall|f: int|
                    0 <= f < a0.n() ==> a.is_free@[f] == (a0.is_free@[f] || s0.in_tree_upto(
                        a0,
                        f,
                        i as int,
                    )),
            decreases 512 - i,
        {
            let ghost iw = i as int;
            let e2 = self.root.get(i);
            // recurse only into entries that are valid AND branches; a leaf
            // frame is caller-managed memory and must never be freed here
            if e2 % 2 == 1 && (e2 / 2) % 8 == 0 {
                proof {
                    assert(e2 == s0.root_entry(iw));
                    assert(s0.valid2(iw));
                    assert(branch_ok(a0, s0.root_entry(iw)));
                    assert(!s0.in_tree_upto(a0, s0.l1_frame(a0, iw), iw)) by {
                        lemma_unprocessed_l1_fresh(s0, a0, iw, iw);
                    }
                    assert(branch_ok(*a, e2));
                }
                let t1 = frame_of_entry(a, e2);
                let ghost t1i = t1 as int;
                let mut j: usize = 0;
                while j < 512
                    invariant
                        j <= 512,
                        i < 512,
                        s0.wf_in(a0),
                        s0.valid2(iw),
                        iw == i as int,
                        t1i == t1 as int,
                        t1i == s0.l1_frame(a0, iw),
                        branch_ok(a0, s0.root_entry(iw)),
                        a.wf(),
                        a.base == a0.base,
                        a.n() == a0.n(),
                        a.words == a0.words,
                        freed == s0.tree_count_upto(a0, iw) + l0_valid_count(a0, t1i, j as int),
                        a.fl().len() == a0.fl().len() + freed,
                        forall|f: int|
                            0 <= f < a0.n() ==> a.is_free@[f] == (a0.is_free@[f]
                                || s0.in_tree_upto(a0, f, iw) || s0.in_row_upto(
                                a0,
                                f,
                                iw,
                                j as int,
                            )),
                    decreases 512 - j,
                {
                    let ghost jw = j as int;
                    proof {
                        assert(!a.is_free@[t1i]) by {
                            lemma_unprocessed_l1_fresh(s0, a0, iw, iw);
                            lemma_l1_not_in_row(s0, a0, iw, iw, jw);
                        }
                        lemma_count_bounds(s0, a0, iw, t1i, jw);
                    }
                    let e1 = a.read_word(t1, j);
                    if e1 % 2 == 1 && (e1 / 2) % 8 == 0 {
                        proof {
                            assert(e1 == s0.l1_entry(a0, iw, jw));
                            assert(s0.valid1(a0, iw, jw));
                            assert(branch_ok(a0, s0.l1_entry(a0, iw, jw)));
                            assert(!a.is_free@[s0.l0_frame(a0, iw, jw)]) by {
                                lemma_unprocessed_l0_fresh(s0, a0, iw, jw, iw, jw);
                            }
                        }
                        let t0 = frame_of_entry(a, e1);
                        let addr = a.get_index_addr(t0);
                        let ghost apre = *a;
                        proof {
                            lemma_frame_addr_in_range(a.base as int, a.n(), t0 as int);
                            lemma_frame_addr_aligned(a.base as int, t0 as int);
                            lemma_idx_of_frame_addr(a.base as int, a.n(), t0 as int);
                        }
                        match a.free(addr) {
                            Ok(_) => {},
                            Err(_) => unreached(),
                        }
                        freed = freed + 1;
                        proof {
                            let t0i = t0 as int;
                            assert(a.is_free@ =~= apre.is_free@.update(t0i, true));
                            assert forall|f: int| 0 <= f < a0.n() implies a.is_free@[f] == (
                            a0.is_free@[f] || s0.in_tree_upto(a0, f, iw) || s0.in_row_upto(
                                a0,
                                f,
                                iw,
                                jw + 1,
                            )) by {
                                if f == t0i {
                                    assert(s0.in_row_upto(a0, f, iw, jw + 1)) by {
                                        assert(s0.valid1(a0, iw, jw) && s0.l0_frame(a0, iw, jw)
                                            == f);
                                    }
                                } else {
                                    assert(s0.in_row_upto(a0, f, iw, jw + 1) == s0.in_row_upto(
                                        a0,
                                        f,
                                        iw,
                                        jw,
                                    )) by {
                                        if s0.in_row_upto(a0, f, iw, jw + 1) {
                                            let jj = choose|jj: int|
                                                0 <= jj < jw + 1 && s0.valid1(a0, iw, jj)
                                                    && #[trigger] s0.l0_frame(a0, iw, jj) == f;
                                            assert(jj != jw);
                                            assert(s0.in_row_upto(a0, f, iw, jw));
                                        }
                                        if s0.in_row_upto(a0, f, iw, jw) {
                                            let jj = choose|jj: int|
                                                0 <= jj < jw && s0.valid1(a0, iw, jj)
                                                    && #[trigger] s0.l0_frame(a0, iw, jj) == f;
                                            assert(s0.in_row_upto(a0, f, iw, jw + 1));
                                        }
                                    }
                                }
                            }
                        }
                    } else {
                        proof {
                            assert(e1 == s0.l1_entry(a0, iw, jw));
                            assert(!entry_is_valid(e1)) by {
                                if entry_is_valid(e1) {
                                    assert(branch_ok(a0, s0.l1_entry(a0, iw, jw)));
                                }
                            }
                            assert forall|f: int|
                                0 <= f < a0.n() implies s0.in_row_upto(a0, f, iw, jw + 1)
                                == s0.in_row_upto(a0, f, iw, jw) by {
                                if s0.in_row_upto(a0, f, iw, jw + 1) {
                                    let jj = choose|jj: int|
                                        0 <= jj < jw + 1 && s0.valid1(a0, iw, jj)
                                            && #[trigger] s0.l0_frame(a0, iw, jj) == f;
                                    assert(jj != jw);
                                    assert(s0.in_row_upto(a0, f, iw, jw));
                                }
                                if s0.in_row_upto(a0, f, iw, jw) {
                                    let jj = choose|jj: int|
                                        0 <= jj < jw && s0.valid1(a0, iw, jj)
                                            && #[trigger] s0.l0_frame(a0, iw, jj) == f;
                                    assert(s0.in_row_upto(a0, f, iw, jw + 1));
                                }
                            }
                        }
                    }
                    j = j + 1;
                }
                // give the level-1 table itself back
                proof {
                    assert(!a.is_free@[t1i]) by {
                        lemma_unprocessed_l1_fresh(s0, a0, iw, iw);
                        lemma_l1_not_in_row(s0, a0, iw, iw, 512);
                    }
                    lemma_frame_addr_in_range(a.base as int, a.n(), t1i);
                    lemma_frame_addr_aligned(a.base as int, t1i);
                    lemma_idx_of_frame_addr(a.base as int, a.n(), t1i);
                    lemma_count_bounds(s0, a0, iw, t1i, 512);
                }
                let addr1 = a.get_index_addr(t1);
                let ghost apre1 = *a;
                match a.free(addr1) {
                    Ok(_) => {},
                    Err(_) => unreached(),
                }
                freed = freed + 1;
                self.root.set(i, 0);
                proof {
                    assert(a.is_free@ =~= apre1.is_free@.update(t1i, true));
                    assert(s0.tree_count_upto(a0, iw + 1) == s0.tree_count_upto(a0, iw) + 1
                        + l0_valid_count(a0, t1i, 512));
                    assert forall|f: int| 0 <= f < a0.n() implies a.is_free@[f] == (
                    a0.is_free@[f] || s0.in_tree_upto(a0, f, iw + 1)) by {
                        lemma_tree_upto_step(s0, a0, f, iw, t1i);
                    }
                }
            } else {
                self.root.set(i, 0);
                proof {
                    assert(e2 == s0.root_entry(iw));
                    assert(!s0.valid2(iw)) by {
                        if s0.valid2(iw) {
                            assert(branch_ok(a0, s0.root_entry(iw)));
                        }
                    }
                    assert(s0.tree_count_upto(a0, iw + 1) == s0.tree_count_upto(a0, iw));
                    assert forall|f: int| 0 <= f < a0.n() implies s0.in_tree_upto(a0, f, iw + 1)
                        == s0.in_tree_upto(a0, f, iw) by {
                        lemma_tree_upto_step_invalid(s0, a0, f, iw);
                    }
                }
            }
            i = i + 1;
        }
        proof {
            assert forall|f: int| 0 <= f < a0.n() implies s0.in_tree_upto(a0, f, 512)
                == s0.in_tree(a0, f) by {}
            lemma_empty_wf_in(*self, *a);
        }
        freed
    }
}

/// A level-1 table frame of an unprocessed row is not among the frames of
/// rows already processed.
proof fn lemma_unprocessed_l1_fresh(s: AddrSpaceHandle, a: FrameAllocator, i: int, upto: int)
    requires
        s.wf_in(a),
        0 <= i < 512,
        upto <= 512,
        s.valid2(i),
        upto <= i,
    ensures
        !s.in_tree_upto(a, s.l1_frame(a, i), upto),
        !a.is_free@[s.l1_frame(a, i)],
{
    let f = s.l1_frame(a, i);
    assert(branch_ok(a, s.root_entry(i)));
    if s.is_l1_frame_upto(a, f, upto) {
        let x = choose|x: int| 0 <= x < upto && s.valid2(x) && #[trigger] s.l1_frame(a, x) == f;
        assert(x != i);
    }
    if s.is_l0_frame_upto(a, f, upto) {
        let (x, y) = choose|x: int, y: int|
            0 <= x < upto && 0 <= y < 512 && s.valid1(a, x, y) && #[trigger] s.l0_frame(a, x, y)
                == f;
        assert(s.l1_frame(a, i) != s.l0_frame(a, x, y));
    }
}

/// A level-1 table frame is no level-0 frame of its own row.
proof fn lemma_l1_not_in_row(s: AddrSpaceHandle, a: FrameAllocator, i: int, row: int, jupto: int)
    requires
        s.wf_in(a),
        0 <= i < 512,
        0 <= row < 512,
        jupto <= 512,
        s.valid2(i),
    ensures
        !s.in_row_upto(a, s.l1_frame(a, i), row, jupto),
{
    let f = s.l1_frame(a, i);
    if s.in_row_upto(a, f, row, jupto) {
        let j = choose|j: int|
            0 <= j < jupto && s.valid1(a, row, j) && #[trigger] s.l0_frame(a, row, j) == f;
        assert(s.l1_frame(a, i) != s.l0_frame(a, row, j));
    }
}

/// A level-0 table frame of an unprocessed slot is not among the frames of
/// slots already processed.
proof fn lemma_unprocessed_l0_fresh(
    s: AddrSpaceHandle,
    a: FrameAllocator,
    i: int,
    j: int,
    upto: int,
    jupto: int,
)
    requires
        s.wf_in(a),
        0 <= i < 512,
        0 <= j < 512,
        upto <= i,
        jupto <= j,
        s.valid1(a, i, j),
    ensures
        !s.in_tree_upto(a, s.l0_frame(a, i, j), upto),
        !s.in_row_upto(a, s.l0_frame(a, i, j), i, jupto),
        !a.is_free@[s.l0_frame(a, i, j)],
{
    let f = s.l0_frame(a, i, j);
    assert(branch_ok(a, s.l1_entry(a, i, j)));
    if s.is_l1_frame_upto(a, f, upto) {
        let x = choose|x: int| 0 <= x < upto && s.valid2(x) && #[trigger] s.l1_frame(a, x) == f;
        assert(s.l1_frame(a, x) != s.l0_frame(a, i, j));
    }
    if s.is_l0_frame_upto(a, f, upto) {
        let (x, y) = choose|x: int, y: int|
            0 <= x < upto && 0 <= y < 512 && s.valid1(a, x, y) && #[trigger] s.l0_frame(a, x, y)
                == f;
        assert(x != i);
    }
    if s.in_row_upto(a, f, i, jupto) {
        let y = choose|y: int|
            0 <= y < jupto && s.valid1(a, i, y) && #[trigger] s.l0_frame(a, i, y) == f;
        assert(y != j);
    }
}

/// Counts stay small enough for the running total to fit the machine.
proof fn lemma_count_bounds(s: AddrSpaceHandle, a: FrameAllocator, i: int, t1: int, j: int)
    requires
        0 <= i <= 512,
        0 <= j <= 512,
    ensures
        0 <= s.tree_count_upto(a, i) <= i * 513,
        0 <= l0_valid_count(a, t1, j) <= j,
{
    lemma_tree_count_bound(s, a, i);
    lemma_l0_count_bound(a, t1, j);
}

proof fn lemma_l0_count_bound(a: FrameAllocator, t1: int, j: int)
    requires
        j >= 0,
    ensures
        0 <= l0_valid_count(a, t1, j) <= j,
    decreases j,
{
    if j > 0 {
        lemma_l0_count_bound(a, t1, j - 1);
    }
}

proof fn lemma_tree_count_bound(s: AddrSpaceHandle, a: FrameAllocator, i: int)
    requires
        i >= 0,
    ensures
        0 <= s.tree_count_upto(a, i) <= i * 513,
    decreases i,
{
    if i > 0 {
        lemma_tree_count_bound(s, a, i - 1);
        lemma_l0_count_bound(a, s.l1_frame(a, i - 1), 512);
    }
}

/// Extending the processed prefix over a valid root entry adds exactly the
/// level-1 frame and its row of level-0 frames.
proof fn lemma_tree_upto_step(s: AddrSpaceHandle, a: FrameAllocator, f: int, i: int, t1: int)
    requires
        s.wf_in(a),
        0 <= i < 512,
        s.valid2(i),
        t1 == s.l1_frame(a, i),
    ensures
        s.in_tree_upto(a, f, i + 1) == (s.in_tree_upto(a, f, i) || s.in_row_upto(a, f, i, 512)
            || f == t1),
{
    if s.in_tree_upto(a, f, i + 1) {
        if s.is_l1_frame_upto(a, f, i + 1) {
            let x = choose|x: int|
                0 <= x < i + 1 && s.valid2(x) && #[trigger] s.l1_frame(a, x) == f;
            if x == i {
                assert(f == t1);
            } else {
                assert(s.is_l1_frame_upto(a, f, i));
            }
        } else {
            let (x, y) = choose|x: int, y: int|
                0 <= x < i + 1 && 0 <= y < 512 && s.valid1(a, x, y) && #[trigger] s.l0_frame(
                    a,
                    x,
                    y,
                ) == f;
            if x == i {
                assert(s.in_row_upto(a, f, i, 512));
            } else {
                assert(s.is_l0_frame_upto(a, f, i));
            }
        }
    }
    if s.in_tree_upto(a, f, i) {
        if s.is_l1_frame_upto(a, f, i) {
            let x = choose|x: int| 0 <= x < i && s.valid2(x) && #[trigger] s.l1_frame(a, x) == f;
            assert(s.is_l1_frame_upto(a, f, i + 1));
        } else {
            let (x, y) = choose|x: int, y: int|
                0 <= x < i && 0 <= y < 512 && s.valid1(a, x, y) && #[trigger] s.l0_frame(a, x, y)
                    == f;
            assert(s.is_l0_frame_upto(a, f, i + 1));
        }
    }
    if s.in_row_upto(a, f, i, 512) {
        let y = choose|y: int|
            0 <= y < 512 && s.valid1(a, i, y) && #[trigger] s.l0_frame(a, i, y) == f;
        assert(s.is_l0_frame_upto(a, f, i + 1));
    }
    if f == t1 {
        assert(s.is_l1_frame_upto(a, f, i + 1));
    }
}

/// A page-aligned address inside the Sv39 virtual range is rebuilt exactly
/// from its three VPN fields, so distinct pages have distinct VPN triples.
pub proof fn lemma_vpn_reconstruct(va: u64)
    requires
        va % 4096 == 0,
        va < 0x80_0000_0000,
    ensures
        va == ((spec_vpn2(va) * 512 + spec_vpn1(va)) * 512 + spec_vpn0(va)) * 4096,
{
    let v = va as int;
    let q = v / 4096;
    vstd::arithmetic::div_mod::lemma_fundamental_div_mod(v, 4096);
    assert(v == 4096 * q);
    vstd::arithmetic::div_mod::lemma_div_denominator(v, 4096, 512);
    assert(v / 0x200000 == q / 512);
    vstd::arithmetic::div_mod::lemma_div_denominator(v, 0x200000, 512);
    assert(v / 0x40000000 == (q / 512) / 512);
    let r0 = q % 512;
    let a1 = q / 512;
    let r1 = a1 % 512;
    let b = a1 / 512;
    vstd::arithmetic::div_mod::lemma_fundamental_div_mod(q, 512);
    vstd::arithmetic::div_mod::lemma_fundamental_div_mod(a1, 512);
    vstd::arithmetic::div_mod::lemma_fundamental_div_mod(b, 512);
    assert(q < 0x8000000);
    assert(b < 512);
    assert(b % 512 == b);
    assert(spec_vpn2(va) == b && spec_vpn1(va) == r1 && spec_vpn0(va) == r0);
    assert(q == (b * 512 + r1) * 512 + r0) by (nonlinear_arith)
        requires
            q == 512 * a1 + r0,
            a1 == 512 * b + r1,
    ;
    assert(v == ((b * 512 + r1) * 512 + r0) * 4096) by (nonlinear_arith)
        requires
            v == 4096 * q,
            q == (b * 512 + r1) * 512 + r0,
    ;
}

/// One identity-mapping step, frame part: in-use frames outside the tree
/// are still untouched after the mapping.
#[verifier::spinoff_prover]
proof fn lemma_id_map_step_frames(
    s0: AddrSpaceHandle,
    a0: FrameAllocator,
    smid: AddrSpaceHandle,
    amid: FrameAllocator,
    scur: AddrSpaceHandle,
    acur: FrameAllocator,
)
    requires
        forall|f: int|
            0 <= f < a0.n() && !a0.is_free@[f] && !s0.in_tree(a0, f)
                ==> !#[trigger] smid.in_tree(amid, f) && frame_same(a0, amid, f),
        a0.n() == amid.n(),
        forall|f: int|
            0 <= f < amid.n() && !amid.is_free@[f] && !smid.in_tree(amid, f)
                ==> !#[trigger] scur.in_tree(acur, f) && frame_same(amid, acur, f),
    ensures
        forall|f: int|
            0 <= f < a0.n() && !a0.is_free@[f] && !s0.in_tree(a0, f) ==> !#[trigger] scur.in_tree(
                acur,
                f,
            ) && frame_same(a0, acur, f),
{
    assert forall|f: int|
        0 <= f < a0.n() && !a0.is_free@[f] && !s0.in_tree(a0, f) implies !#[trigger] scur.in_tree(
        acur,
        f,
    ) && frame_same(a0, acur, f) by {
        assert(!smid.in_tree(amid, f));
        assert(frame_same(a0, amid, f));
        assert(!amid.is_free@[f]);
        assert(!scur.in_tree(acur, f));
        assert(frame_same(amid, acur, f));
        assert(frame_same(a0, acur, f));
    }
}

/// One identity-mapping step, preservation part: every page other than the
/// one just mapped translates as it did before the call.
#[verifier::spinoff_prover]
proof fn lemma_id_map_step_preserve(
    smid: AddrSpaceHandle,
    amid: FrameAllocator,
    scur: AddrSpaceHandle,
    acur: FrameAllocator,
    cur: u64,
)
    requires
        cur % 4096 == 0,
        cur < 0x80_0000_0000,
        forall|x: int, y: int, z: int|
            0 <= x < 512 && 0 <= y < 512 && 0 <= z < 512 && !(x == spec_vpn2(cur) && y
                == spec_vpn1(cur) && z == spec_vpn0(cur)) ==> #[trigger] scur.translate(
                acur,
                x,
                y,
                z,
            ) == smid.translate(amid, x, y, z),
    ensures
        forall|va: u64|
            va < 0x80_0000_0000 && va % 4096 == 0 && va != cur ==> #[trigger] scur.translate_va(
                acur,
                va,
            ) == smid.translate_va(amid, va),
{
    assert forall|va: u64|
        va < 0x80_0000_0000 && va % 4096 == 0 && va != cur implies #[trigger] scur.translate_va(
        acur,
        va,
    ) == smid.translate_va(amid, va) by {
        lemma_vpn_triple_injective(va, cur);
        let x = spec_vpn2(va);
        let y = spec_vpn1(va);
        let z = spec_vpn0(va);
        assert(0 <= x < 512 && 0 <= y < 512 && 0 <= z < 512);
        assert(scur.translate(acur, x, y, z) == smid.translate(amid, x, y, z));
    }
}

/// One identity-mapping step, range part: after mapping the page at `cur`,
/// the pages of `[start, cur + 4096)` are identity-mapped and everything
/// outside translates as at entry.
#[verifier::spinoff_prover]
proof fn lemma_id_map_step_ranges(
    s0: AddrSpaceHandle,
    a0: FrameAllocator,
    smid: AddrSpaceHandle,
    amid: FrameAllocator,
    scur: AddrSpaceHandle,
    acur: FrameAllocator,
    start: u64,
    cur: u64,
    end: u64,
    bits: EntryFlags,
)
    requires
        start % 4096 == 0,
        cur % 4096 == 0,
        start <= cur < end <= 0x80_0000_0000,
        forall|va: u64|
            start <= va < cur && va % 4096 == 0 ==> #[trigger] smid.translate_va(amid, va)
                == Some(spec_leaf_entry(va, bits.bits)),
        forall|va: u64|
            va < 0x80_0000_0000 && va % 4096 == 0 && !(start <= va < cur)
                ==> #[trigger] smid.translate_va(amid, va) == s0.translate_va(a0, va),
        scur.translate_va(acur, cur) == Some(spec_leaf_entry(cur, bits.bits)),
        forall|va: u64|
            va < 0x80_0000_0000 && va % 4096 == 0 && va != cur ==> #[trigger] scur.translate_va(
                acur,
                va,
            ) == smid.translate_va(amid, va),
    ensures
        forall|va: u64|
            start <= va < cur + 4096 && va % 4096 == 0 ==> #[trigger] scur.translate_va(
                acur,
                va,
            ) == Some(spec_leaf_entry(va, bits.bits)),
        forall|va: u64|
            va < 0x80_0000_0000 && va % 4096 == 0 && !(start <= va < cur + 4096)
                ==> #[trigger] scur.translate_va(acur, va) == s0.translate_va(a0, va),
{
    assert forall|va: u64|
        start <= va < cur + 4096 && va % 4096 == 0 implies #[trigger] scur.translate_va(acur, va)
        == Some(spec_leaf_entry(va, bits.bits)) by {
        if va != cur {
            assert(va < cur);
            assert(smid.translate_va(amid, va) == Some(spec_leaf_entry(va, bits.bits)));
            assert(scur.translate_va(acur, va) == smid.translate_va(amid, va));
        }
    }
    assert forall|va: u64|
        va < 0x80_0000_0000 && va % 4096 == 0 && !(start <= va < cur + 4096)
        implies #[trigger] scur.translate_va(acur, va) == s0.translate_va(a0, va) by {
        assert(va != cur);
        assert(scur.translate_va(acur, va) == smid.translate_va(amid, va));
        assert(smid.translate_va(amid, va) == s0.translate_va(a0, va));
    }
}

/// Distinct page-aligned addresses of the Sv39 virtual range have distinct
/// VPN triples.
proof fn lemma_vpn_triple_injective(va1: u64, va2: u64)
    requires
        va1 % 4096 == 0,
        va2 % 4096 == 0,
        va1 < 0x80_0000_0000,
        va2 < 0x80_0000_0000,
        va1 != va2,
    ensures
        !(spec_vpn2(va1) == spec_vpn2(va2) && spec_vpn1(va1) == spec_vpn1(va2) && spec_vpn0(va1)
            == spec_vpn0(va2)),
{
    lemma_vpn_reconstruct(va1);
    lemma_vpn_reconstruct(va2);
}

/// Identity-maps every page-aligned address of `[start, end)` to itself, at
/// 4096-byte stride, with the given permissions.  Both ends must already be
/// page-aligned; the range must sit in the Sv39 virtual space.  On
/// exhaustion the pages already walked stay mapped and the error is
/// reported; success is owed whenever the allocator holds at least two free
/// frames per page of the range.
#[verifier::rlimit(100)]
pub fn id_map_range(
    aspace: &mut AddrSpaceHandle,
    a: &mut FrameAllocator,
    start: u64,
    end: u64,
    bits: EntryFlags,
) -> (r: Result<(), MemError>)
    requires
        old(aspace).wf_in(*old(a)),
        start % 4096 == 0,
        end % 4096 == 0,
        start <= end,
        end <= 0x80_0000_0000,
        bits.spec_has_rwx(),
    ensures
        final(aspace).wf_in(*final(a)),
        final(a).base == old(a).base,
        final(a).n() == old(a).n(),
        r is Ok ==> forall|va: u64|
            start <= va < end && va % 4096 == 0 ==> #[trigger] final(aspace).translate_va(
                *final(a),
                va,
            ) == Some(spec_leaf_entry(va, bits.bits)),
        forall|va: u64|
            va < 0x80_0000_0000 && va % 4096 == 0 && !(start <= va < end)
                ==> #[trigger] final(aspace).translate_va(*final(a), va) == old(
                aspace,
            ).translate_va(*old(a), va),
        old(a).fl().len() >= 2 * ((end - start) / 4096) ==> r is Ok,
        r is Err ==> r == Err::<(), MemError>(MemError::Exhausted) && final(a).fl().len() <= 1,
        forall|f: int|
            0 <= f < old(a).n() && !old(a).is_free@[f] && !old(aspace).in_tree(*old(a), f)
                ==> !#[trigger] final(aspace).in_tree(*final(a), f) && frame_same(
                *old(a),
                *final(a),
                f,
            ),
{
    let ghost s0 = *old(aspace);
    let ghost a0 = *old(a);
    let ghost total = (end - start) as int / 4096;
    let mut cur: u64 = start;
    let mut pages_done: Ghost<int> = Ghost(0);
    while cur < end
        invariant
            s0 == *old(aspace),
            a0 == *old(a),
            start <= cur <= end,
            cur % 4096 == 0,
            end % 4096 == 0,
            start % 4096 == 0,
            end <= 0x80_0000_0000,
            bits.spec_has_rwx(),
            total == (end - start) as int / 4096,
            cur == start + pages_done@ * 4096,
            0 <= pages_done@,
            aspace.wf_in(*a),
            a.base == a0.base,
            a.n() == a0.n(),
            a0.fl().len() - a.fl().len() <= 2 * pages_done@,
            forall|va: u64|
                start <= va < cur && va % 4096 == 0 ==> #[trigger] aspace.translate_va(*a, va)
                    == Some(spec_leaf_entry(va, bits.bits)),
            forall|va: u64|
                va < 0x80_0000_0000 && va % 4096 == 0 && !(start <= va < cur)
                    ==> #[trigger] aspace.translate_va(*a, va) == s0.translate_va(a0, va),
            forall|f: int|
                0 <= f < a0.n() && !a0.is_free@[f] && !s0.in_tree(a0, f)
                    ==> !#[trigger] aspace.in_tree(*a, f) && frame_same(a0, *a, f),
        decreases end - cur,
    {
        let ghost amid = *a;
        let ghost smid = *aspace;
        let res = aspace.map(a, VAddr::new(cur), PAddr::new(cur), bits);
        match res {
            Err(e) => {
                proof {
                    assert(e == MemError::Exhausted);
                    assert(a.fl().len() < smid.tables_needed(amid, cur));
                    assert(a0.fl().len() < 2 * pages_done@ + 2);
                    assert(pages_done@ + 1 <= total) by {
                        assert(cur < end);
                        assert(start + pages_done@ * 4096 < start + total * 4096) by {
                            assert(end == start + total * 4096) by {
                                vstd::arithmetic::div_mod::lemma_fundamental_div_mod(
                                    (end - start) as int,
                                    4096,
                                );
                            }
                        }
                    }
                    assert(!(a0.fl().len() >= 2 * total));
                }
                return Err(e);
            },
            Ok(_) => {},
        }
        proof {
            lemma_id_map_step_frames(s0, a0, smid, amid, *aspace, *a);
            lemma_id_map_step_preserve(smid, amid, *aspace, *a, cur);
            lemma_id_map_step_ranges(s0, a0, smid, amid, *aspace, *a, start, cur, end, bits);
        }
        cur = cur + 4096;
        proof {
            pages_done@ = pages_done@ + 1;
        }
    }
    Ok(())
}

/// Extending the processed prefix over an invalid root entry adds nothing.
proof fn lemma_tree_upto_step_invalid(s: AddrSpaceHandle, a: FrameAllocator, f: int, i: int)
    requires
        0 <= i < 512,
        !s.valid2(i),
    ensures
        s.in_tree_upto(a, f, i + 1) == s.in_tree_upto(a, f, i),
{
    if s.in_tree_upto(a, f, i + 1) {
        if s.is_l1_frame_upto(a, f, i + 1) {
            let x = choose|x: int|
                0 <= x < i + 1 && s.valid2(x) && #[trigger] s.l1_frame(a, x) == f;
            assert(x != i);
            assert(s.is_l1_frame_upto(a, f, i));
        } else {
            let (x, y) = choose|x: int, y: int|
                0 <= x < i + 1 && 0 <= y < 512 && s.valid1(a, x, y) && #[trigger] s.l0_frame(
                    a,
                    x,
                    y,
                ) == f;
            assert(x != i);
            assert(s.is_l0_frame_upto(a, f, i));
        }
    }
    if s.in_tree_upto(a, f, i) {
        if s.is_l1_frame_upto(a, f, i) {
            let x = choose|x: int| 0 <= x < i && s.valid2(x) && #[trigger] s.l1_frame(a, x) == f;
            assert(s.is_l1_frame_upto(a, f, i + 1));
        } else {
            let (x, y) = choose|x: int, y: int|
                0 <= x < i && 0 <= y < 512 && s.valid1(a, x, y) && #[trigger] s.l0_frame(a, x, y)
                    == f;
            assert(s.is_l0_frame_upto(a, f, i + 1));
        }
    }
}

} // verus!
