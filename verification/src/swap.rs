//! The swap extension: a swap manager plus a swap backing store, providing
//! set-swappable, remove-from-swappable, swap-in and swap-out against the
//! page tables it serves, whose descriptors share one FIFO queue.
//!
//! The backing store is a mock: an in-memory vector of page-sized slots,
//! which is all this core requires.  Real persistence is out of scope.

use vstd::prelude::*;
use crate::paging::PAGE_SIZE;
use crate::paging::page_of;
use crate::paging::page_start;
use crate::paging::page_start_of;
use crate::paging::lemma_page_start_le;
use crate::paging::PageTable;
use crate::paging::PageTableEntry;
use crate::frames::FrameAllocator;
use crate::frames::PhysMemory;
use crate::frames::clone_bytes;
use crate::fifo::Frame;
use crate::fifo::FifoSwapManager;
use crate::fifo::has_desc;
use crate::fifo::find_desc;
use crate::fifo::lemma_find_desc;

verus! {

/// Mock swap backing store: a growing vector of page slots.  A slot holds
/// the bytes of a swapped-out page until they are read back, which frees
/// the slot.
pub struct MockSwapper {
    slots: Vec<Option<Vec<u8>>>,
}

impl View for MockSwapper {
    type V = Seq<Option<Seq<u8>>>;

    /// The slots, by token: `Some` bytes while a page waits in the store.
    closed spec fn view(&self) -> Seq<Option<Seq<u8>>> {
        Seq::new(
            self.slots@.len(),
            |i: int|
                match self.slots@[i] {
                    Some(v) => Some(v@),
                    None => None,
                },
        )
    }
}

impl Default for MockSwapper {
    /// An empty store.
    fn default() -> (r: Self)
        ensures
            r@ == Seq::<Option<Seq<u8>>>::empty(),
    {
        let r = MockSwapper { slots: Vec::new() };
        proof {
            assert(r@ =~= Seq::<Option<Seq<u8>>>::empty());
        }
        r
    }
}

impl MockSwapper {
    /// Write one page of bytes into a fresh slot and return its token.
    pub fn swap_out(&mut self, data: &Vec<u8>) -> (token: usize)
        requires
            data@.len() == PAGE_SIZE,
        ensures
            token == old(self)@.len(),
            final(self)@ == old(self)@.push(Some(data@)),
    {
        let token = self.slots.len();
        let copy = clone_bytes(data);
        self.slots.push(Some(copy));
        proof {
            assert(self@ =~= old(self)@.push(Some(data@)));
        }
        token
    }

    /// The page stored under `token`, without freeing the slot.
    pub fn read_slot(&self, token: usize) -> (data: Vec<u8>)
        requires
            token < self@.len(),
            self@[token as int] is Some,
        ensures
            Some(data@) == self@[token as int],
    {
        match &self.slots[token] {
            Some(v) => clone_bytes(v),
            None => unreached(),
        }
    }

    /// Read the page stored under `token` back out, freeing the slot.
    pub fn swap_in(&mut self, token: usize) -> (data: Vec<u8>)
        requires
            token < old(self)@.len(),
            old(self)@[token as int] is Some,
        ensures
            Some(data@) == old(self)@[token as int],
            final(self)@ == old(self)@.update(token as int, None),
    {
        let data = match &self.slots[token] {
            Some(v) => clone_bytes(v),
            None => unreached(),
        };
        self.slots.set(token, None);
        proof {
            assert(self@ =~= old(self)@.update(token as int, None));
        }
        data
    }
}

/// Swap extension: the eviction queue and the backing store.  The one
/// queue serves every page table; each descriptor names its owning table
/// by token.
pub struct SwapExt {
    /// The swap manager holding the queue of swappable pages.
    pub manager: FifoSwapManager,
    /// The backing store for evicted pages.
    pub swapper: MockSwapper,
}

/// The facts a queued descriptor that names table `pt` must satisfy: it
/// carries a page-aligned address of a page that is mapped, present and
/// not swapped in that table.
pub open spec fn desc_ok(d: Frame, pt: PageTable) -> bool {
    let p = page_of(d.virtaddr);
    &&& d.page_table == pt.spec_token()
    &&& d.virtaddr == page_start(d.virtaddr)
    &&& pt@.contains_key(p)
    &&& pt@[p].present
    &&& !pt@[p].swapped
}

/// Well-formedness tying the swap extension to one of the page tables it
/// serves.  The single queue holds descriptors of every table, keyed by
/// the owning table's token: every descriptor that names this table
/// points at a page that is mapped, present and not swapped here, and no
/// page of this table is queued twice.  Every swapped entry of the table
/// is absent and holds the token of a live, page-sized slot of the
/// backing store, and no two swapped entries of the table share a slot.
pub open spec fn swap_consistent(swap: SwapExt, pt: PageTable) -> bool {
    let q = swap.manager@;
    let sl = swap.swapper@;
    &&& forall|i: int|
        0 <= i < q.len() && (#[trigger] q[i]).token == pt.spec_token() ==> desc_ok(q[i], pt)
    &&& forall|i: int, j: int|
        0 <= i < j < q.len() && (#[trigger] q[i]).token == pt.spec_token() && (
        #[trigger] q[j]).token == pt.spec_token() ==> q[i].virtaddr != q[j].virtaddr
    &&& forall|p: usize|
        pt@.contains_key(p) && (#[trigger] pt@[p]).swapped ==> {
            &&& !pt@[p].present
            &&& pt@[p].target < sl.len()
            &&& sl[pt@[p].target as int] matches Some(c) && c.len() == PAGE_SIZE
        }
    &&& forall|p1: usize, p2: usize|
        p1 != p2 && pt@.contains_key(p1) && pt@.contains_key(p2) && (#[trigger] pt@[p1]).swapped
            && (#[trigger] pt@[p2]).swapped ==> pt@[p1].target != pt@[p2].target
}

/// Whether the page containing some address is already queued as
/// swappable under the given table token.
pub open spec fn page_queued(q: Seq<Frame>, token: usize, p: usize) -> bool {
    exists|i: int|
        0 <= i < q.len() && (#[trigger] q[i]).token == token && page_of(q[i].virtaddr) == p
}

/// Every present mapping of the table points below frame `n_frames`.
pub open spec fn targets_in_range(pt: PageTable, n_frames: int) -> bool {
    forall|p: usize|
        pt@.contains_key(p) && (#[trigger] pt@[p]).present ==> page_of(pt@[p].target) < n_frames
}

impl SwapExt {
    /// A swap extension over the given manager and backing store.
    pub fn new(manager: FifoSwapManager, swapper: MockSwapper) -> (r: Self)
        ensures
            r.manager@ == manager@,
            r.swapper@ == swapper@,
    {
        SwapExt { manager, swapper }
    }

    /// Mark the (present) page containing `addr` swappable: queue it as an
    /// eviction candidate.
    pub fn set_swappable(&mut self, pt: &PageTable, addr: usize)
        requires
            swap_consistent(*old(self), *pt),
            pt@.contains_key(page_of(addr)),
            pt@[page_of(addr)].present,
            !pt@[page_of(addr)].swapped,
            !page_queued(old(self).manager@, pt.spec_token(), page_of(addr)),
        ensures
            final(self).manager@ == old(self).manager@.push(
                (Frame {
                    page_table: pt.spec_token(),
                    virtaddr: page_start(addr),
                    token: pt.spec_token(),
                }),
            ),
            final(self).swapper@ == old(self).swapper@,
            swap_consistent(*final(self), *pt),
    {
        proof {
            lemma_page_start_le(addr);
            if has_desc(self.manager@, pt.spec_token(), page_start(addr)) {
                let i = choose|i: int|
                    0 <= i < self.manager@.len() && (#[trigger] self.manager@[i]).token
                        == pt.spec_token() && self.manager@[i].virtaddr == page_start(addr);
                assert(page_queued(self.manager@, pt.spec_token(), page_of(addr)));
            }
        }
        let va = page_start_of(addr);
        let d = Frame::new(pt.token(), va, pt.token());
        self.manager.push(d);
        proof {
            lemma_page_start_le(va);
            assert forall|i: int|
                0 <= i < self.manager@.len() && (#[trigger] self.manager@[i]).token
                    == pt.spec_token() implies desc_ok(self.manager@[i], *pt) by {
                if i < self.manager@.len() - 1 {
                    assert(self.manager@[i] == old(self).manager@[i]);
                }
            }
            assert forall|i: int, j: int|
                0 <= i < j < self.manager@.len() && (#[trigger] self.manager@[i]).token
                    == pt.spec_token() && (#[trigger] self.manager@[j]).token
                    == pt.spec_token() implies self.manager@[i].virtaddr
                != self.manager@[j].virtaddr by {
                if j == self.manager@.len() - 1 {
                    assert(self.manager@[i] == old(self).manager@[i]);
                    assert(page_of(old(self).manager@[i].virtaddr) != page_of(addr));
                }
            }
        }
    }

    /// Evict the head of the FIFO queue: write its page's bytes to a fresh
    /// slot of the backing store, mark its entry swapped-out, and return
    /// the physical address of its now-free frame.  Returns `None` when no
    /// page is swappable.
    pub fn swap_out_any(&mut self, pt: &mut PageTable, mem: &PhysMemory) -> (r: Option<usize>)
        requires
            swap_consistent(*old(self), *old(pt)),
            targets_in_range(*old(pt), mem@.len() as int),
            mem.wf(),
            old(self).manager@.len() > 0 ==> old(self).manager@[0].token == old(pt).spec_token(),
        ensures
            final(pt).spec_token() == old(pt).spec_token(),
            old(self).manager@.len() == 0 ==> r is None && final(self).manager@ == old(
                self,
            ).manager@ && final(self).swapper@ == old(self).swapper@ && final(pt)@ == old(pt)@,
            old(self).manager@.len() > 0 ==> {
                let d = old(self).manager@[0];
                let p = page_of(d.virtaddr);
                let e = old(pt)@[p];
                &&& r == Some(e.target)
                &&& final(pt)@ == old(pt)@.insert(
                    p,
                    (PageTableEntry {
                        present: false,
                        swapped: true,
                        target: old(self).swapper@.len() as usize,
                        ..e
                    }),
                )
                &&& final(self).manager@ == old(self).manager@.subrange(
                    1,
                    old(self).manager@.len() as int,
                )
                &&& final(self).swapper@ == old(self).swapper@.push(
                    Some(mem@[page_of(e.target) as int]),
                )
                &&& page_of(e.target) < mem@.len()
            },
            swap_consistent(*final(self), *final(pt)),
            targets_in_range(*final(pt), mem@.len() as int),
    {
        let popped = self.manager.pop();
        match popped {
            None => None,
            Some(d) => {
                let e = pt.get_entry(d.get_virtaddr()).unwrap();
                let f = e.target;
                let data = mem.read_page(f / PAGE_SIZE);
                let token = self.swapper.swap_out(&data);
                let e2 = PageTableEntry { present: false, swapped: true, target: token, ..e };
                pt.set_entry(d.get_virtaddr(), e2);
                proof {
                    let q0 = old(self).manager@;
                    let p = page_of(d.virtaddr);
                    assert forall|i: int|
                        0 <= i < self.manager@.len() && (#[trigger] self.manager@[i]).token
                            == pt.spec_token() implies desc_ok(self.manager@[i], *pt) by {
                        assert(self.manager@[i] == q0[i + 1]);
                        assert(q0[i + 1].virtaddr != q0[0].virtaddr);
                        assert(q0[i + 1].virtaddr == page_start(q0[i + 1].virtaddr));
                        assert(page_of(q0[i + 1].virtaddr) != p);
                    }
                    assert forall|i: int, j: int|
                        0 <= i < j < self.manager@.len() && (#[trigger] self.manager@[i]).token
                            == pt.spec_token() && (#[trigger] self.manager@[j]).token
                            == pt.spec_token() implies self.manager@[i].virtaddr
                        != self.manager@[j].virtaddr by {
                        assert(self.manager@[i] == q0[i + 1] && self.manager@[j] == q0[j + 1]);
                    }
                }
                Some(f)
            },
        }
    }

    /// Swap the page containing `addr` back in from the backing store into
    /// the frame at physical address `target`: restore its bytes, mark the
    /// entry present again, free the slot, and queue the page as
    /// swappable once more.
    pub fn swap_in(&mut self, pt: &mut PageTable, mem: &mut PhysMemory, addr: usize, target: usize)
        requires
            swap_consistent(*old(self), *old(pt)),
            old(pt)@.contains_key(page_of(addr)),
            old(pt)@[page_of(addr)].swapped,
            page_of(target) < old(mem)@.len(),
            old(mem).wf(),
        ensures
            final(pt).spec_token() == old(pt).spec_token(),
            ({
                let p = page_of(addr);
                let e = old(pt)@[p];
                let tok = e.target;
                &&& final(mem)@ == old(mem)@.update(
                    page_of(target) as int,
                    old(self).swapper@[tok as int]->Some_0,
                )
                &&& final(self).swapper@ == old(self).swapper@.update(tok as int, None)
                &&& final(pt)@ == old(pt)@.insert(
                    p,
                    (PageTableEntry { present: true, swapped: false, target, ..e }),
                )
                &&& final(self).manager@ == old(self).manager@.push(
                    (Frame {
                        page_table: old(pt).spec_token(),
                        virtaddr: page_start(addr),
                        token: old(pt).spec_token(),
                    }),
                )
            }),
            swap_consistent(*final(self), *final(pt)),
            final(mem).wf(),
    {
        proof {
            lemma_page_start_le(addr);
        }
        let p_start = page_start_of(addr);
        let e = pt.get_entry(addr).unwrap();
        let tok = e.target;
        let data = self.swapper.swap_in(tok);
        mem.write_page(target / PAGE_SIZE, &data);
        let e2 = PageTableEntry { present: true, swapped: false, target, ..e };
        pt.set_entry(addr, e2);
        proof {
            lemma_page_start_le(p_start);
            if has_desc(self.manager@, pt.spec_token(), p_start) {
                let i = choose|i: int|
                    0 <= i < self.manager@.len() && (#[trigger] self.manager@[i]).token
                        == pt.spec_token() && self.manager@[i].virtaddr == p_start;
                assert(!old(pt)@[page_of(addr)].swapped);
            }
        }
        let d = Frame::new(pt.token(), p_start, pt.token());
        self.manager.push(d);
        proof {
            let p = page_of(addr);
            let q0 = old(self).manager@;
            assert forall|i: int|
                0 <= i < self.manager@.len() && (#[trigger] self.manager@[i]).token
                    == pt.spec_token() implies desc_ok(self.manager@[i], *pt) by {
                if i < self.manager@.len() - 1 {
                    assert(self.manager@[i] == q0[i]);
                    assert(page_of(q0[i].virtaddr) != p);
                }
            }
            assert forall|i: int, j: int|
                0 <= i < j < self.manager@.len() && (#[trigger] self.manager@[i]).token
                    == pt.spec_token() && (#[trigger] self.manager@[j]).token
                    == pt.spec_token() implies self.manager@[i].virtaddr
                != self.manager@[j].virtaddr by {
                if j == self.manager@.len() - 1 {
                    assert(self.manager@[i] == q0[i]);
                    assert(page_of(q0[i].virtaddr) != p);
                }
            }
            assert forall|p1: usize, p2: usize|
                p1 != p2 && pt@.contains_key(p1) && pt@.contains_key(p2) && (
            #[trigger] pt@[p1]).swapped && (#[trigger] pt@[p2]).swapped implies pt@[p1].target
                != pt@[p2].target by {
                assert(pt@[p1] == old(pt)@[p1] && pt@[p2] == old(pt)@[p2]);
            }
        }
    }

    /// Take the page containing `addr` out of the swappable set, forcing a
    /// swap-in first (into a freshly allocated frame) if the page was
    /// already evicted.  Afterwards the page is present and no longer
    /// queued.
    pub fn remove_from_swappable(
        &mut self,
        pt: &mut PageTable,
        alloc_ctx: &mut FrameAllocator,
        mem: &mut PhysMemory,
        addr: usize,
    )
        requires
            swap_consistent(*old(self), *old(pt)),
            old(pt)@.contains_key(page_of(addr)),
            old(pt)@[page_of(addr)].present || old(pt)@[page_of(addr)].swapped,
            old(pt)@[page_of(addr)].present ==> has_desc(
                old(self).manager@,
                old(pt).spec_token(),
                page_start(addr),
            ),
            old(pt)@[page_of(addr)].swapped ==> old(alloc_ctx).has_free() && old(alloc_ctx)@.len()
                <= old(mem)@.len(),
            old(alloc_ctx).wf(),
            old(mem).wf(),
        ensures
            final(pt).spec_token() == old(pt).spec_token(),
            old(pt)@[page_of(addr)].present ==> {
                &&& *final(pt) == *old(pt)
                &&& final(mem)@ == old(mem)@
                &&& final(alloc_ctx)@ == old(alloc_ctx)@
                &&& final(self).swapper@ == old(self).swapper@
                &&& final(self).manager@ == old(self).manager@.remove(
                    find_desc(old(self).manager@, old(pt).spec_token(), page_start(addr)),
                )
            },
            old(pt)@[page_of(addr)].swapped ==> {
                let p = page_of(addr);
                let e = old(pt)@[p];
                let i = old(alloc_ctx).first_free();
                &&& 0 <= i < old(alloc_ctx)@.len()
                &&& old(alloc_ctx)@[i]
                &&& final(alloc_ctx)@ == old(alloc_ctx)@.update(i, false)
                &&& final(mem)@ == old(mem)@.update(i, old(self).swapper@[e.target as int]->Some_0)
                &&& final(self).swapper@ == old(self).swapper@.update(e.target as int, None)
                &&& final(pt)@ == old(pt)@.insert(
                    p,
                    (PageTableEntry {
                        present: true,
                        swapped: false,
                        target: (i * PAGE_SIZE) as usize,
                        ..e
                    }),
                )
                &&& final(self).manager@ == old(self).manager@
            },
            swap_consistent(*final(self), *final(pt)),
            final(mem).wf(),
            final(alloc_ctx).wf(),
    {
        let p_start = page_start_of(addr);
        let e = pt.get_entry(addr).unwrap();
        if e.swapped {
            let fpa = alloc_ctx.allocate().unwrap();
            self.swap_in(pt, mem, addr, fpa);
            proof {
                lemma_find_desc(self.manager@, pt.spec_token(), p_start);
                let q1 = self.manager@;
                let q0 = old(self).manager@;
                let fd = find_desc(q1, pt.spec_token(), p_start);
                assert(q1[q1.len() - 1].token == pt.spec_token() && q1[q1.len() - 1].virtaddr
                    == p_start);
                assert(has_desc(q1, pt.spec_token(), p_start));
                assert forall|j: int| 0 <= j < q1.len() - 1 implies !((#[trigger] q1[j]).token
                    == pt.spec_token() && q1[j].virtaddr == p_start) by {
                    assert(q1[j] == q0[j]);
                    lemma_page_start_le(addr);
                    if q0[j].token == pt.spec_token() && q0[j].virtaddr == p_start {
                        assert(page_of(q0[j].virtaddr) == page_of(addr));
                        assert(!old(pt)@[page_of(addr)].swapped);
                    }
                }
                assert(fd == q1.len() - 1);
                assert(q1.remove(fd) =~= q0);
            }
            self.manager.remove(pt.token(), p_start);
        } else {
            self.manager.remove(pt.token(), p_start);
            proof {
                let q0 = old(self).manager@;
                let fd = find_desc(q0, pt.spec_token(), p_start);
                lemma_find_desc(q0, pt.spec_token(), p_start);
                let q1 = self.manager@;
                assert forall|i: int|
                    0 <= i < q1.len() && (#[trigger] q1[i]).token == pt.spec_token() implies
                    desc_ok(q1[i], *pt) by {
                    if i < fd {
                        assert(q1[i] == q0[i]);
                    } else {
                        assert(q1[i] == q0[i + 1]);
                    }
                }
                assert forall|i: int, j: int|
                    0 <= i < j < q1.len() && (#[trigger] q1[i]).token == pt.spec_token() && (
                #[trigger] q1[j]).token == pt.spec_token() implies q1[i].virtaddr
                    != q1[j].virtaddr by {
                    let i0 = if i < fd { i } else { i + 1 };
                    let j0 = if j < fd { j } else { j + 1 };
                    assert(q1[i] == q0[i0] && q1[j] == q0[j0]);
                }
            }
        }
    }
}

} // verus!
