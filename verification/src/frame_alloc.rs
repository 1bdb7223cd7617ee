//! The physical frame allocator: a fixed arena of 4096-byte frames carved
//! from a base address, with an intrusive singly linked free list.
//!
//! A frame is either *free* — its storage is interpreted as a free-list node
//! holding an optional next index — or *in use* — its storage is interpreted
//! as raw page content, 512 machine words.  The tag decides which
//! interpretation is live; content is only readable or writable while the
//! frame is in use, and the list is only threaded through free frames.
//! The free list contains exactly the indices not currently allocated, with
//! no duplicates, so its length plus the outstanding allocations always
//! equals the arena size.

use crate::addr::PAddr;
use vstd::prelude::*;
use vstd::set_lib::{lemma_int_range, lemma_len_subset, set_int_range};

verus! {

/// The fatal conditions of this subsystem.  Nothing here is recoverable at
/// boot time; callers surface these as a diagnostic and halt.
#[derive(Clone, Copy, PartialEq, Eq, Structural, Debug)]
pub enum MemError {
    /// The free list is empty and there is no backing store to reclaim from.
    Exhausted,
    /// An address handed to `free` lies outside the arena.
    OutOfArena,
    /// An address handed to `free` is not the base of a frame.
    Misaligned,
    /// The frame behind the address is already free.
    DoubleFree,
    /// A mapping was requested with none of the R/W/X bits, which would
    /// plant a branch-shaped entry at leaf level.
    NoLeafPerm,
}

/// The address of frame `i` in an arena based at `base`.
pub open spec fn spec_frame_addr(base: u64, i: int) -> int {
    base + i * 4096
}

/// The frame allocator.  `is_free` tags each frame, `link` is the intrusive
/// next pointer (meaningful only while the frame is free), and `words` holds
/// the page content of every frame, flat, 512 words per frame (meaningful
/// only while a frame is in use).  `free_order` is the ghost image of the
/// free list from head to tail.
pub struct FrameAllocator {
    pub base: u64,
    pub is_free: Vec<bool>,
    pub link: Vec<Option<usize>>,
    pub words: Vec<u64>,
    pub head: Option<usize>,
    pub free_len: usize,
    pub free_order: Ghost<Seq<int>>,
}

impl FrameAllocator {
    /// Number of frames in the arena.
    pub open spec fn n(self) -> int {
        self.is_free@.len() as int
    }

    /// The free list, head first.
    pub open spec fn fl(self) -> Seq<int> {
        self.free_order@
    }

    /// Word `j` of frame `f`.
    pub open spec fn word_at(self, f: int, j: int) -> u64 {
        self.words@[f * 512 + j]
    }

    /// The address lies inside the arena.
    pub open spec fn addr_in_range(self, a: int) -> bool {
        self.base <= a < self.base + self.n() * 4096
    }

    /// The address is the base of some frame of the arena.
    pub open spec fn addr_aligned(self, a: int) -> bool {
        (a - self.base) % 4096 == 0
    }

    /// The frame index owning an in-range address.
    pub open spec fn idx_of(self, a: int) -> int {
        (a - self.base) / 4096
    }

    /// The free list is threaded correctly: it starts at `head`, every node
    /// is a free in-range frame, and each node links to the next.
    pub open spec fn free_list_ok(self) -> bool {
        &&& (match self.head {
            Some(h) => self.fl().len() > 0 && self.fl()[0] == h as int,
            None => self.fl().len() == 0,
        })
        &&& forall|k: int| 0 <= k < self.fl().len() ==> 0 <= #[trigger] self.fl()[k] < self.n()
        &&& forall|k: int|
            0 <= k < self.fl().len() ==> self.is_free@[#[trigger] self.fl()[k]]
        &&& forall|k: int|
            0 <= k < self.fl().len() - 1 ==> self.link@[#[trigger] self.fl()[k]] == Some(
                self.fl()[k + 1] as usize,
            )
        &&& (self.fl().len() > 0 ==> self.link@[self.fl()[self.fl().len() - 1]]
            == None::<usize>)
        &&& self.fl().no_duplicates()
        &&& forall|i: int|
            0 <= i < self.n() ==> (#[trigger] self.is_free@[i] <==> self.fl().contains(i))
    }

    /// Well-formedness: consistent lengths, an aligned arena that fits in
    /// the address space, and a correctly threaded free list.
    pub open spec fn wf(self) -> bool {
        &&& self.base % 4096 == 0
        &&& self.base + self.n() * 4096 <= u64::MAX
        &&& self.n() * 512 <= usize::MAX
        &&& self.link@.len() == self.n()
        &&& self.words@.len() == self.n() * 512
        &&& self.free_len == self.fl().len()
        &&& self.free_list_ok()
    }

    /// Builds the allocator over a fresh arena: every frame free, linked in
    /// ascending order, the head at index 0, all content zero.
    pub fn init(base: u64, n: usize) -> (r: Self)
        requires
            base % 4096 == 0,
            base + n * 4096 <= u64::MAX,
            n * 512 <= usize::MAX,
        ensures
            r.wf(),
            r.base == base,
            r.n() == n,
            r.fl() =~= Seq::new(n as nat, |k: int| k),
            forall|f: int, j: int| 0 <= f < n && 0 <= j < 512 ==> r.word_at(f, j) == 0,
    {
        let mut is_free: Vec<bool> = Vec::new();
        let mut link: Vec<Option<usize>> = Vec::new();
        let mut words: Vec<u64> = Vec::new();
        let mut i: usize = 0;
        while i < n
            invariant
                i <= n,
                n * 512 <= usize::MAX,
                is_free@.len() == i,
                link@.len() == i,
                forall|k: int| 0 <= k < i ==> is_free@[k],
                forall|k: int|
                    0 <= k < i ==> link@[k] == (if k + 1 < n {
                        Some((k + 1) as usize)
                    } else {
                        None::<usize>
                    }),
            decreases n - i,
        {
            is_free.push(true);
            if i + 1 < n {
                link.push(Some(i + 1));
            } else {
                link.push(None);
            }
            i = i + 1;
        }
        let total: usize = n * 512;
        let mut w: usize = 0;
        while w < total
            invariant
                w <= total,
                words@.len() == w,
                forall|k: int| 0 <= k < w ==> words@[k] == 0,
            decreases total - w,
        {
            words.push(0);
            w = w + 1;
        }
        let r = FrameAllocator {
            base,
            is_free,
            link,
            words,
            head: if n > 0 {
                Some(0)
            } else {
                None
            },
            free_len: n,
            free_order: Ghost(Seq::new(n as nat, |k: int| k)),
        };
        proof {
            let fl = r.fl();
            assert forall|i0: int| 0 <= i0 < r.n() implies (r.is_free@[i0] <==> fl.contains(
                i0,
            )) by {
                assert(fl[i0] == i0);
            }
            assert(fl.no_duplicates());
            assert forall|f: int, j: int| 0 <= f < n && 0 <= j < 512 implies r.word_at(f, j)
                == 0 by {
                lemma_word_slot_in_range(n as int, f, j);
            }
        }
        r
    }

    /// How many frames are currently free.
    pub fn free_count(&self) -> (r: usize)
        requires
            self.wf(),
        ensures
            r == self.fl().len(),
    {
        self.free_len
    }

    /// Total number of frames in the arena.
    pub fn total_frames(&self) -> (r: usize)
        ensures
            r == self.n(),
    {
        self.is_free.len()
    }

    /// The physical address of a frame: pure arithmetic against the arena
    /// base.
    pub fn get_index_addr(&self, idx: usize) -> (r: PAddr)
        requires
            self.wf(),
            idx < self.n(),
        ensures
            r.0 == spec_frame_addr(self.base, idx as int),
    {
        proof {
            lemma_frame_addr_in_range(self.base as int, self.n(), idx as int);
        }
        PAddr::new(self.base + (idx as u64) * 4096)
    }

    /// The frame index owning an address; inverse of `get_index_addr`.
    fn get_addr_index(&self, addr: PAddr) -> (r: usize)
        requires
            self.wf(),
            self.addr_in_range(addr.0 as int),
            self.addr_aligned(addr.0 as int),
        ensures
            r == self.idx_of(addr.0 as int),
            r < self.n(),
    {
        let off = addr.0 - self.base;
        let r = (off / 4096) as usize;
        proof {
            lemma_idx_of_in_range(self.base as int, self.n(), addr.0 as int);
        }
        r
    }

    /// Pops the head of the free list; the returned address is the popped
    /// frame's, now in use with its content preserved.  Fails exactly when
    /// the free list is empty.
    pub fn alloc_frame(&mut self) -> (r: Result<PAddr, MemError>)
        requires
            old(self).wf(),
        ensures
            final(self).wf(),
            final(self).base == old(self).base,
            final(self).n() == old(self).n(),
            old(self).fl().len() == 0 ==> r == Err::<PAddr, MemError>(MemError::Exhausted)
                && *final(self) == *old(self),
            old(self).fl().len() > 0 ==> {
                let i = old(self).fl()[0];
                &&& r == Ok::<PAddr, MemError>(PAddr(spec_frame_addr(old(self).base, i) as u64))
                &&& final(self).fl() =~= old(self).fl().drop_first()
                &&& final(self).is_free@ =~= old(self).is_free@.update(i, false)
                &&& final(self).link == old(self).link
                &&& final(self).words == old(self).words
            },
    {
        match self.head {
            None => Err(MemError::Exhausted),
            Some(h) => {
                proof {
                    assert(self.fl()[0] == h as int);
                    assert(0 <= self.fl()[0] < self.n());
                }
                let next = self.link[h];
                self.head = next;
                self.is_free.set(h, false);
                self.free_len = self.free_len - 1;
                let ghost fl0 = self.free_order@;
                proof {
                    self.free_order@ = fl0.drop_first();
                }
                proof {
                    let fl1 = self.fl();
                    assert(fl1.len() == fl0.len() - 1);
                    assert forall|k: int| 0 <= k < fl1.len() implies #[trigger] fl1[k] == fl0[k
                        + 1] by {}
                    assert(!fl1.contains(h as int)) by {
                        if fl1.contains(h as int) {
                            let k = choose|k: int|
                                0 <= k < fl1.len() && fl1[k] == h as int;
                            assert(fl0[k + 1] == fl0[0]);
                        }
                    }
                    assert forall|i0: int|
                        0 <= i0 < self.n() implies (#[trigger] self.is_free@[i0]
                        <==> fl1.contains(i0)) by {
                        if i0 != h as int {
                            if fl1.contains(i0) {
                                let k = choose|k: int| 0 <= k < fl1.len() && fl1[k] == i0;
                                assert(fl0[k + 1] == i0);
                                assert(fl0.contains(i0));
                            }
                            if fl0.contains(i0) {
                                let k = choose|k: int| 0 <= k < fl0.len() && fl0[k] == i0;
                                assert(k != 0);
                                assert(fl1[k - 1] == i0);
                                assert(fl1.contains(i0));
                            }
                        }
                    }
                    lemma_frame_addr_in_range(self.base as int, self.n(), h as int);
                }
                Ok(PAddr::new(self.base + (h as u64) * 4096))
            },
        }
    }

    /// `alloc_frame`, then zero-fill the frame: required whenever the frame will
    /// be reinterpreted as a translation table, so no stale bit pattern is
    /// misread as a valid entry.
    pub fn zalloc(&mut self) -> (r: Result<PAddr, MemError>)
        requires
            old(self).wf(),
        ensures
            final(self).wf(),
            final(self).base == old(self).base,
            final(self).n() == old(self).n(),
            old(self).fl().len() == 0 ==> r == Err::<PAddr, MemError>(MemError::Exhausted)
                && *final(self) == *old(self),
            old(self).fl().len() > 0 ==> {
                let i = old(self).fl()[0];
                &&& r == Ok::<PAddr, MemError>(PAddr(spec_frame_addr(old(self).base, i) as u64))
                &&& final(self).fl() =~= old(self).fl().drop_first()
                &&& final(self).is_free@ =~= old(self).is_free@.update(i, false)
                &&& final(self).link == old(self).link
                &&& forall|j: int| 0 <= j < 512 ==> final(self).word_at(i, j) == 0
                &&& forall|f: int, j: int|
                    0 <= f < old(self).n() && 0 <= j < 512 && f != i
                        ==> final(self).word_at(f, j) == old(self).word_at(f, j)
            },
    {
        let r = self.alloc_frame();
        match r {
            Err(e) => Err(e),
            Ok(pa) => {
                let idx = self.get_addr_index(pa);
                proof {
                    lemma_idx_of_frame_addr(self.base as int, self.n(), idx as int);
                }
                let base_slot: usize = idx * 512;
                let mut j: usize = 0;
                let ghost pre = *self;
                while j < 512
                    invariant
                        j <= 512,
                        idx < pre.n(),
                        pre.wf(),
                        base_slot == idx * 512,
                        self.base == pre.base,
                        self.is_free == pre.is_free,
                        self.link == pre.link,
                        self.head == pre.head,
                        self.free_len == pre.free_len,
                        self.free_order == pre.free_order,
                        self.words@.len() == pre.words@.len(),
                        forall|x: int|
                            0 <= x < pre.words@.len() && !(base_slot <= x < base_slot + j)
                                ==> self.words@[x] == pre.words@[x],
                        forall|x: int|
                            base_slot <= x < base_slot + j ==> self.words@[x] == 0,
                    decreases 512 - j,
                {
                    proof {
                        lemma_word_slot_in_range(pre.n(), idx as int, j as int);
                    }
                    self.words.set(base_slot + j, 0);
                    j = j + 1;
                }
                proof {
                    assert forall|f: int, j0: int|
                        0 <= f < pre.n() && 0 <= j0 < 512 && f != idx as int
                            implies self.word_at(f, j0) == pre.word_at(f, j0) by {
                        lemma_word_slot_in_range(pre.n(), f, j0);
                        lemma_word_slots_distinct(f, j0, idx as int);
                    }
                    assert forall|j0: int| 0 <= j0 < 512 implies self.word_at(idx as int, j0)
                        == 0 by {
                        lemma_word_slot_in_range(pre.n(), idx as int, j0);
                    }
                }
                Ok(pa)
            },
        }
    }

    /// Converts the address back to a frame index and pushes that frame onto
    /// the free list.  Rejects addresses outside the arena, addresses that
    /// are not a frame base, and frames that are already free; content is
    /// left untouched.
    pub fn free(&mut self, addr: PAddr) -> (r: Result<(), MemError>)
        requires
            old(self).wf(),
        ensures
            final(self).wf(),
            final(self).base == old(self).base,
            final(self).n() == old(self).n(),
            !old(self).addr_in_range(addr.0 as int) ==> r == Err::<(), MemError>(
                MemError::OutOfArena,
            ) && *final(self) == *old(self),
            old(self).addr_in_range(addr.0 as int) && !old(self).addr_aligned(addr.0 as int)
                ==> r == Err::<(), MemError>(MemError::Misaligned) && *final(self) == *old(
                self,
            ),
            old(self).addr_in_range(addr.0 as int) && old(self).addr_aligned(addr.0 as int)
                && old(self).is_free@[old(self).idx_of(addr.0 as int)] ==> r == Err::<
                (),
                MemError,
            >(MemError::DoubleFree) && *final(self) == *old(self),
            old(self).addr_in_range(addr.0 as int) && old(self).addr_aligned(addr.0 as int)
                && !old(self).is_free@[old(self).idx_of(addr.0 as int)] ==> {
                let i = old(self).idx_of(addr.0 as int);
                &&& r == Ok::<(), MemError>(())
                &&& final(self).fl() =~= seq![i] + old(self).fl()
                &&& final(self).is_free@ =~= old(self).is_free@.update(i, true)
                &&& final(self).words == old(self).words
            },
    {
        if addr.0 < self.base {
            return Err(MemError::OutOfArena);
        }
        let off = addr.0 - self.base;
        let n = self.is_free.len();
        proof {
            assert(self.n() * 4096 <= u64::MAX - self.base);
        }
        if off >= (n as u64) * 4096 {
            return Err(MemError::OutOfArena);
        }
        if off % 4096 != 0 {
            return Err(MemError::Misaligned);
        }
        let idx = self.get_addr_index(addr);
        if self.is_free[idx] {
            return Err(MemError::DoubleFree);
        }
        let ghost fl0 = self.free_order@;
        proof {
            assert(!fl0.contains(idx as int));
        }
        self.link.set(idx, self.head);
        self.head = Some(idx);
        self.is_free.set(idx, true);
        proof {
            assert(fl0.len() < self.n()) by {
                lemma_free_list_len_bound(fl0, self.n(), idx as int);
            }
        }
        self.free_len = self.free_len + 1;
        proof {
            self.free_order@ = seq![idx as int] + fl0;
        }
        proof {
            let fl1 = self.fl();
            assert(fl1[0] == idx as int);
            assert forall|k: int| 0 <= k < fl0.len() implies #[trigger] fl0[k] == fl1[k + 1] by {}
            vstd::seq_lib::lemma_no_dup_in_concat(seq![idx as int], fl0);
            assert forall|i0: int|
                0 <= i0 < self.n() implies (#[trigger] self.is_free@[i0] <==> fl1.contains(
                i0,
            )) by {
                if i0 == idx as int {
                    assert(fl1[0] == i0);
                    assert(fl1.contains(i0));
                } else {
                    if fl0.contains(i0) {
                        let k = choose|k: int| 0 <= k < fl0.len() && fl0[k] == i0;
                        assert(fl1[k + 1] == i0);
                        assert(fl1.contains(i0));
                    }
                    if fl1.contains(i0) {
                        let k = choose|k: int| 0 <= k < fl1.len() && fl1[k] == i0;
                        assert(k != 0);
                        assert(fl0[k - 1] == i0);
                        assert(fl0.contains(i0));
                    }
                }
            }
        }
        Ok(())
    }

    /// Reads one word of an in-use frame's content.  The guard on the tag
    /// keeps the two interpretations of frame storage apart: content is
    /// never read out of a free frame.
    pub fn read_word(&self, frame: usize, off: usize) -> (r: u64)
        requires
            self.wf(),
            frame < self.n(),
            off < 512,
            !self.is_free@[frame as int],
        ensures
            r == self.word_at(frame as int, off as int),
    {
        proof {
            lemma_word_slot_in_range(self.n(), frame as int, off as int);
        }
        self.words[frame * 512 + off]
    }

    /// Writes one word of an in-use frame's content; no other word of the
    /// arena changes.
    pub fn write_word(&mut self, frame: usize, off: usize, val: u64)
        requires
            old(self).wf(),
            frame < old(self).n(),
            off < 512,
            !old(self).is_free@[frame as int],
        ensures
            final(self).wf(),
            (*final(self) == FrameAllocator {
                words: final(self).words,
                ..*old(self)
            }),
            final(self).words@ =~= old(self).words@.update(
                frame as int * 512 + off as int,
                val,
            ),
    {
        proof {
            lemma_word_slot_in_range(self.n(), frame as int, off as int);
        }
        self.words.set(frame * 512 + off, val);
    }
}

/// Frame addresses stay within the arena and fit the machine word.
pub(crate) proof fn lemma_frame_addr_in_range(base: int, n: int, i: int)
    requires
        0 <= i < n,
        base >= 0,
        base + n * 4096 <= u64::MAX,
    ensures
        base <= base + i * 4096,
        base + i * 4096 + 4096 <= base + n * 4096,
{
    assert(i * 4096 + 4096 <= n * 4096) by (nonlinear_arith)
        requires
            i < n,
    ;
    assert(i * 4096 >= 0) by (nonlinear_arith)
        requires
            i >= 0,
    ;
}

/// The index computed from an in-range aligned address is in range.
pub(crate) proof fn lemma_idx_of_in_range(base: int, n: int, a: int)
    requires
        base <= a < base + n * 4096,
        (a - base) % 4096 == 0,
    ensures
        0 <= (a - base) / 4096 < n,
        base + ((a - base) / 4096) * 4096 == a,
{
    let off = a - base;
    assert(0 <= off / 4096 && (off / 4096) * 4096 == off && (off < n * 4096 ==> off / 4096 < n))
        by (nonlinear_arith)
        requires
            off >= 0,
            off % 4096 == 0,
            off < n * 4096,
    ;
}

/// Address-to-index is the inverse of index-to-address.
pub(crate) proof fn lemma_idx_of_frame_addr(base: int, n: int, i: int)
    requires
        0 <= i < n,
    ensures
        (base + i * 4096 - base) / 4096 == i,
{
    assert((i * 4096) / 4096 == i) by (nonlinear_arith)
        requires
            i >= 0,
    ;
}

/// Word slots of a frame lie inside the flat content vector.
pub(crate) proof fn lemma_word_slot_in_range(n: int, f: int, j: int)
    requires
        0 <= f < n,
        0 <= j < 512,
    ensures
        0 <= f * 512 + j < n * 512,
        f * 512 <= f * 512 + j < f * 512 + 512,
{
    assert(f * 512 + 512 <= n * 512 && f * 512 >= 0) by (nonlinear_arith)
        requires
            0 <= f < n,
    ;
}

/// Word slots of distinct frames never collide.
pub(crate) proof fn lemma_word_slots_distinct(f: int, j: int, f2: int)
    requires
        0 <= j < 512,
        f != f2,
        f >= 0,
        f2 >= 0,
    ensures
        !(f2 * 512 <= f * 512 + j < f2 * 512 + 512),
{
    assert(!(f2 * 512 <= f * 512 + j < f2 * 512 + 512)) by (nonlinear_arith)
        requires
            0 <= j < 512,
            f != f2,
            f >= 0,
            f2 >= 0,
    ;
}

/// Number of `true` tags among the first `k` frames: the free frames.
pub open spec fn count_free_upto(s: Seq<bool>, k: int) -> int
    decreases k,
{
    if k <= 0 {
        0
    } else {
        count_free_upto(s, k - 1) + if s[k - 1] {
            1int
        } else {
            0int
        }
    }
}

/// Number of `false` tags among the first `k` frames: the outstanding
/// allocations.
pub open spec fn count_used_upto(s: Seq<bool>, k: int) -> int
    decreases k,
{
    if k <= 0 {
        0
    } else {
        count_used_upto(s, k - 1) + if s[k - 1] {
            0int
        } else {
            1int
        }
    }
}

/// Every frame is counted once, as free or as outstanding.
proof fn lemma_counts_partition(s: Seq<bool>, k: int)
    requires
        0 <= k <= s.len(),
    ensures
        count_free_upto(s, k) + count_used_upto(s, k) == k,
    decreases k,
{
    if k > 0 {
        lemma_counts_partition(s, k - 1);
    }
}

/// The count of free tags below `k` is the cardinality of the set of free
/// indices below `k`.
proof fn lemma_count_free_is_card(s: Seq<bool>, k: int)
    requires
        0 <= k <= s.len(),
    ensures
        Set::new(|i: int| 0 <= i < k && s[i]).finite(),
        Set::new(|i: int| 0 <= i < k && s[i]).len() == count_free_upto(s, k),
    decreases k,
{
    broadcast use vstd::set::group_set_axioms;

    let sk = Set::new(|i: int| 0 <= i < k && s[i]);
    if k == 0 {
        assert(sk =~= Set::empty());
    } else {
        lemma_count_free_is_card(s, k - 1);
        let sk1 = Set::new(|i: int| 0 <= i < k - 1 && s[i]);
        if s[k - 1] {
            assert(sk =~= sk1.insert(k - 1));
            assert(!sk1.contains(k - 1));
        } else {
            assert(sk =~= sk1);
        }
    }
}

impl FrameAllocator {
    /// How many frames are currently allocated and not yet given back.
    pub open spec fn outstanding(self) -> int {
        count_used_upto(self.is_free@, self.n())
    }
}

/// Free-list size invariant: at every point, the length of the free list
/// plus the number of outstanding allocations equals the arena size.  Every
/// operation of the allocator requires and preserves `wf`, so this holds
/// after any sequence of allocations and frees.
pub proof fn lemma_free_plus_outstanding(a: FrameAllocator)
    requires
        a.wf(),
    ensures
        a.fl().len() + a.outstanding() == a.n(),
{
    broadcast use vstd::set::group_set_axioms;

    let s = a.is_free@;
    let n = a.n();
    a.fl().unique_seq_to_set();
    lemma_count_free_is_card(s, n);
    assert(a.fl().to_set() =~= Set::new(|i: int| 0 <= i < n && s[i])) by {
        assert forall|x: int| a.fl().to_set().contains(x) implies (0 <= x < n && s[x]) by {
            assert(a.fl().contains(x));
        }
        assert forall|x: int| 0 <= x < n && s[x] implies a.fl().to_set().contains(x) by {
            assert(a.fl().contains(x));
        }
    }
    assert(a.fl().len() == count_free_upto(s, n));
    lemma_counts_partition(s, n);
}

/// Exhaustion: a fresh allocator over `n` frames starts with a free list of
/// all `n` indices, every successful allocation removes exactly its head, so
/// each of the first `n` allocations finds a nonempty list and the one after
/// them finds it empty and fails.
pub proof fn lemma_exhaustion(n: nat, k: nat)
    ensures
        k < n ==> Seq::new(n, |i: int| i).skip(k as int).len() > 0,
        Seq::new(n, |i: int| i).skip(n as int).len() == 0,
{
}

/// Most-recently-freed-first reuse: `free` leaves the free list starting
/// with the index it freed, and `alloc_frame` hands out the head of the free
/// list, so freeing a frame and immediately reallocating returns that same
/// frame.
pub proof fn lemma_reuse_order(fl: Seq<int>, i: int)
    ensures
        (seq![i] + fl).len() > 0,
        (seq![i] + fl)[0] == i,
{
}

/// A duplicate-free list of in-range indices that misses one index has
/// length below the range size.
proof fn lemma_free_list_len_bound(fl: Seq<int>, n: int, missing: int)
    requires
        fl.no_duplicates(),
        forall|k: int| 0 <= k < fl.len() ==> 0 <= #[trigger] fl[k] < n,
        0 <= missing < n,
        !fl.contains(missing),
    ensures
        fl.len() < n,
{
    fl.unique_seq_to_set();
    let s = fl.to_set();
    let big = set_int_range(0, n).remove(missing);
    assert(s.subset_of(big)) by {
        assert forall|x: int| s.contains(x) implies big.contains(x) by {
            assert(fl.contains(x));
        }
    }
    lemma_int_range(0, n);
    assert(big.len() == n - 1);
    lemma_len_subset(s, big);
}

} // verus!
