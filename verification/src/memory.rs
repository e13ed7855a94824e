//! Memory regions, their backing-policy handlers, the page-fault
//! dispatcher, and the frame-lifecycle glue.
//!
//! Each memory region is backed by one of four interchangeable policies:
//! direct (fixed virtual-to-physical offset), eager allocation, lazy
//! swap-backed allocation, and copy-on-write.  The handler set is closed,
//! so the policies form one tagged type dispatched through a single match.
//!
//! The process-wide singletons — frame bitmap, physical memory, swap
//! extension and copy-on-write extension — travel together in a
//! [`MemoryContext`] passed explicitly into every operation, in place of
//! the ambient lock-guarded statics a kernel would use.

use vstd::prelude::*;
use crate::paging::PAGE_SIZE;
use crate::paging::page_of;
use crate::paging::page_start;
use crate::paging::page_start_of;
use crate::paging::lemma_page_start_le;
use crate::paging::PageTable;
use crate::paging::PageTableEntry;
use crate::paging::MemoryAttr;
use crate::frames::FrameAllocator;
use crate::frames::PhysMemory;
use crate::swap::SwapExt;
use crate::swap::swap_consistent;
use crate::swap::targets_in_range;
use crate::swap::page_queued;
use crate::cow::CowExt;
use crate::cow::rc_read;
use crate::cow::rc_write;
use crate::cow::rc_total;
use crate::cow::rc_inc;
use crate::cow::rc_dec;
use crate::fifo::Frame;
use crate::fifo::has_desc;
use crate::fifo::find_desc;

verus! {

/// The process-wide memory state: frame bitmap, physical memory, swap
/// extension and copy-on-write extension, as one explicitly passed context
/// instead of ambient statics.
pub struct MemoryContext {
    /// The bitmap allocator of physical frames.
    pub allocator: FrameAllocator,
    /// The bytes held by each physical frame.
    pub mem: PhysMemory,
    /// The swap manager and backing store.
    pub swap: SwapExt,
    /// The copy-on-write reference counts.
    pub cow: CowExt,
}

impl MemoryContext {
    /// The allocator and physical memory agree on how many frames exist,
    /// and both are well formed.
    pub open spec fn wf(self) -> bool {
        &&& self.allocator.wf()
        &&& self.mem.wf()
        &&& self.allocator@.len() == self.mem@.len()
    }

    /// A context over `n` zeroed frames, with empty swap and
    /// copy-on-write state.
    pub fn new(n: usize) -> (r: Self)
        requires
            n * PAGE_SIZE <= usize::MAX,
        ensures
            r.wf(),
            r.allocator@.len() == n,
            forall|i: int| 0 <= i < n ==> r.allocator@[i],
            r.mem@.len() == n,
            r.swap.manager@ == Seq::<Frame>::empty(),
            r.swap.swapper@ == Seq::<Option<Seq<u8>>>::empty(),
            r.cow.rc_map@ == Map::<usize, (u16, u16)>::empty(),
    {
        MemoryContext {
            allocator: FrameAllocator::new(n),
            mem: PhysMemory::new(n),
            swap: SwapExt::new(
                crate::fifo::FifoSwapManager::default(),
                crate::swap::MockSwapper::default(),
            ),
            cow: CowExt::new(),
        }
    }
}

/// Allocate a free physical frame; when the bitmap is exhausted, evict the
/// FIFO head through the swap extension and hand its frame out instead.
/// `None` means true resource exhaustion: no free frame and nothing left
/// to evict.  The active table is taken before the swap structures, the
/// same order the mapping path uses.
pub fn alloc_frame(ctx: &mut MemoryContext, pt: &mut PageTable) -> (r: Option<usize>)
    requires
        old(ctx).wf(),
        swap_consistent(old(ctx).swap, *old(pt)),
        targets_in_range(*old(pt), old(ctx).mem@.len() as int),
        !old(ctx).allocator.has_free() && old(ctx).swap.manager@.len() > 0 ==> old(
            ctx,
        ).swap.manager@[0].token == old(pt).spec_token(),
    ensures
        final(ctx).wf(),
        final(pt).spec_token() == old(pt).spec_token(),
        swap_consistent(final(ctx).swap, *final(pt)),
        targets_in_range(*final(pt), final(ctx).mem@.len() as int),
        final(ctx).mem@ == old(ctx).mem@,
        final(ctx).cow.rc_map@ == old(ctx).cow.rc_map@,
        match r {
            Some(pa) => if old(ctx).allocator.has_free() {
                let i = old(ctx).allocator.first_free();
                &&& pa == i * PAGE_SIZE
                &&& page_of(pa) == i
                &&& 0 <= i < old(ctx).allocator@.len()
                &&& old(ctx).allocator@[i]
                &&& final(ctx).allocator@ == old(ctx).allocator@.update(i, false)
                &&& final(ctx).swap.manager@ == old(ctx).swap.manager@
                &&& final(ctx).swap.swapper@ == old(ctx).swap.swapper@
                &&& final(pt)@ == old(pt)@
            } else {
                let d = old(ctx).swap.manager@[0];
                let p = page_of(d.virtaddr);
                let e = old(pt)@[p];
                &&& old(ctx).swap.manager@.len() > 0
                &&& pa == e.target
                &&& final(pt)@ == old(pt)@.insert(
                    p,
                    (PageTableEntry {
                        present: false,
                        swapped: true,
                        target: old(ctx).swap.swapper@.len() as usize,
                        ..e
                    }),
                )
                &&& final(ctx).swap.manager@ == old(ctx).swap.manager@.subrange(
                    1,
                    old(ctx).swap.manager@.len() as int,
                )
                &&& final(ctx).swap.swapper@ == old(ctx).swap.swapper@.push(
                    Some(old(ctx).mem@[page_of(e.target) as int]),
                )
                &&& final(ctx).allocator@ == old(ctx).allocator@
                &&& page_of(pa) < old(ctx).mem@.len()
            },
            None => {
                &&& !old(ctx).allocator.has_free()
                &&& old(ctx).swap.manager@.len() == 0
                &&& final(ctx).allocator@ == old(ctx).allocator@
                &&& final(ctx).swap.manager@ == old(ctx).swap.manager@
                &&& final(ctx).swap.swapper@ == old(ctx).swap.swapper@
                &&& final(pt)@ == old(pt)@
            },
        },
{
    let first = ctx.allocator.allocate();
    match first {
        Some(pa) => Some(pa),
        None => {
            // The page table stands for the active table here; it is held
            // before the swap structures, never after them.
            ctx.swap.swap_out_any(pt, &ctx.mem)
        },
    }
}

/// Return a frame to the bitmap allocator unconditionally: the caller is
/// responsible for having already removed all copy-on-write and swap
/// bookkeeping for it.
pub fn dealloc_frame(ctx: &mut MemoryContext, target: usize)
    requires
        page_of(target) < old(ctx).allocator@.len(),
        !old(ctx).allocator@[page_of(target) as int],
    ensures
        final(ctx).allocator@ == old(ctx).allocator@.update(page_of(target) as int, true),
        final(ctx).mem@ == old(ctx).mem@,
        final(ctx).swap.manager@ == old(ctx).swap.manager@,
        final(ctx).swap.swapper@ == old(ctx).swap.swapper@,
        final(ctx).cow.rc_map@ == old(ctx).cow.rc_map@,
        old(ctx).wf() ==> final(ctx).wf(),
{
    ctx.allocator.deallocate(target);
}

/// Handler for kernel memory mapped at a fixed virtual-to-physical
/// offset.  It owns no frames.
pub struct SimpleMemoryHandler {
    /// First virtual address of the region.
    pub start_addr: usize,
    /// Physical address the region's start maps to.
    pub phys_start_addr: usize,
    /// Attributes applied to every entry of the region.
    pub flags: MemoryAttr,
}

impl SimpleMemoryHandler {
    /// A direct handler translating `start_addr` onwards to
    /// `phys_start_addr` onwards.
    pub fn new(start_addr: usize, phys_start_addr: usize, flags: MemoryAttr) -> (r: Self)
        ensures
            r == (SimpleMemoryHandler { start_addr, phys_start_addr, flags }),
    {
        SimpleMemoryHandler { start_addr, phys_start_addr, flags }
    }

    /// The fixed physical target for a virtual address of the region.
    pub open spec fn target_of(self, addr: usize) -> usize {
        ((addr - self.start_addr) + self.phys_start_addr) as usize
    }
}

/// Handler that allocates a fresh frame for every page as soon as the
/// region is mapped.
pub struct NormalMemoryHandler {
    /// Attributes applied to every entry of the region.
    pub flags: MemoryAttr,
}

impl NormalMemoryHandler {
    /// An eagerly allocating handler.
    pub fn new(flags: MemoryAttr) -> (r: Self)
        ensures
            r == (NormalMemoryHandler { flags }),
    {
        NormalMemoryHandler { flags }
    }
}

/// Handler whose pages are swappable, with an optional set of addresses
/// whose frames are allocated lazily on first fault.
pub struct SwapMemoryHandler {
    /// Attributes applied to every entry of the region.
    pub flags: MemoryAttr,
    /// Page addresses promised to the region but not yet backed by a
    /// frame; they are backed on first access.
    pub delay_alloc: Vec<usize>,
}

impl SwapMemoryHandler {
    /// A swap-backed handler; pages listed in `delay_alloc` are allocated
    /// lazily on first fault.
    pub fn new(flags: MemoryAttr, delay_alloc: Vec<usize>) -> (r: Self)
        ensures
            r.flags == flags,
            r.delay_alloc@ == delay_alloc@,
    {
        SwapMemoryHandler { flags, delay_alloc }
    }

    /// Whether the page containing `addr` awaits delayed allocation.
    pub open spec fn delayed(self, addr: usize) -> bool {
        self.delay_alloc@.contains(page_start(addr))
    }

    /// Check whether the page containing `addr` awaits delayed allocation.
    pub fn is_delayed(&self, addr: usize) -> (r: bool)
        ensures
            r == self.delayed(addr),
    {
        let p_start = page_start_of(addr);
        let n = self.delay_alloc.len();
        let mut i: usize = 0;
        while i < n
            invariant
                i <= n,
                n == self.delay_alloc@.len(),
                p_start == page_start(addr),
                forall|j: int| 0 <= j < i ==> self.delay_alloc@[j] != p_start,
            decreases n - i,
        {
            if self.delay_alloc[i] == p_start {
                proof {
                    assert(self.delay_alloc@.contains(p_start));
                }
                return true;
            }
            i = i + 1;
        }
        proof {
            assert(!self.delay_alloc@.contains(p_start));
        }
        false
    }
}

/// Handler whose frames are shared copy-on-write across forks.
pub struct CowMemoryHandler {
    /// Attributes applied to every entry of the region.
    pub flags: MemoryAttr,
}

impl CowMemoryHandler {
    /// A copy-on-write handler.
    pub fn new(flags: MemoryAttr) -> (r: Self)
        ensures
            r == (CowMemoryHandler { flags }),
    {
        CowMemoryHandler { flags }
    }
}

/// The closed set of backing policies a region can have.
pub enum MemoryHandler {
    /// Fixed virtual-to-physical offset; no frame ownership.
    Simple(SimpleMemoryHandler),
    /// A fresh frame per page, allocated eagerly.
    Normal(NormalMemoryHandler),
    /// Swappable pages, optionally allocated lazily.
    Swap(SwapMemoryHandler),
    /// Frames shared copy-on-write.
    Cow(CowMemoryHandler),
}

/// The region attributes a handler applies.
pub open spec fn handler_flags(h: MemoryHandler) -> MemoryAttr {
    match h {
        MemoryHandler::Simple(s) => s.flags,
        MemoryHandler::Normal(n) => n.flags,
        MemoryHandler::Swap(s) => s.flags,
        MemoryHandler::Cow(c) => c.flags,
    }
}

/// What `MemoryHandler::map` demands of the state it is given.
pub open spec fn map_pre(
    h: MemoryHandler,
    ctx: MemoryContext,
    pt: PageTable,
    addr: usize,
) -> bool {
    let p = page_of(addr);
    &&& ctx.wf()
    &&& !pt@.contains_key(p)
    &&& match h {
        MemoryHandler::Simple(s) => s.start_addr <= addr && (addr - s.start_addr)
            + s.phys_start_addr <= usize::MAX,
        MemoryHandler::Normal(n) => ctx.allocator.has_free(),
        MemoryHandler::Swap(s) => {
            &&& swap_consistent(ctx.swap, pt)
            &&& !s.delayed(addr) ==> ctx.allocator.has_free()
            &&& !page_queued(ctx.swap.manager@, pt.spec_token(), p)
        },
        MemoryHandler::Cow(c) => {
            &&& ctx.allocator.has_free()
            &&& if c.flags.readonly {
                rc_read(ctx.cow.rc_map@, ctx.allocator.first_free() as usize) < 0xffff
            } else {
                rc_write(ctx.cow.rc_map@, ctx.allocator.first_free() as usize) < 0xffff
            }
        },
    }
}

/// What `MemoryHandler::map` guarantees: exactly how the entry for the
/// page of `addr` is installed, which frame is consumed, and what is
/// registered with the swap or copy-on-write extensions.
pub open spec fn map_post(
    h: MemoryHandler,
    octx: MemoryContext,
    opt: PageTable,
    nctx: MemoryContext,
    npt: PageTable,
    addr: usize,
) -> bool {
    let p = page_of(addr);
    let writable = !handler_flags(h).readonly;
    &&& npt.spec_token() == opt.spec_token()
    &&& nctx.wf()
    &&& nctx.mem@ == octx.mem@
    &&& match h {
        MemoryHandler::Simple(s) => {
            &&& npt@ == opt@.insert(
                p,
                (PageTableEntry {
                    present: true,
                    writable,
                    shared: false,
                    swapped: false,
                    target: s.target_of(addr),
                }),
            )
            &&& nctx.allocator@ == octx.allocator@
            &&& nctx.swap.manager@ == octx.swap.manager@
            &&& nctx.swap.swapper@ == octx.swap.swapper@
            &&& nctx.cow.rc_map@ == octx.cow.rc_map@
        },
        MemoryHandler::Normal(n) => {
            let i = octx.allocator.first_free();
            &&& npt@ == opt@.insert(
                p,
                (PageTableEntry {
                    present: true,
                    writable,
                    shared: false,
                    swapped: false,
                    target: (i * PAGE_SIZE) as usize,
                }),
            )
            &&& nctx.allocator@ == octx.allocator@.update(i, false)
            &&& nctx.swap.manager@ == octx.swap.manager@
            &&& nctx.swap.swapper@ == octx.swap.swapper@
            &&& nctx.cow.rc_map@ == octx.cow.rc_map@
        },
        MemoryHandler::Swap(s) => {
            &&& swap_consistent(nctx.swap, npt)
            &&& nctx.swap.swapper@ == octx.swap.swapper@
            &&& nctx.cow.rc_map@ == octx.cow.rc_map@
            &&& if s.delayed(addr) {
                &&& npt@ == opt@.insert(
                    p,
                    (PageTableEntry {
                        present: false,
                        writable,
                        shared: false,
                        swapped: false,
                        target: 0,
                    }),
                )
                &&& nctx.allocator@ == octx.allocator@
                &&& nctx.swap.manager@ == octx.swap.manager@
            } else {
                let i = octx.allocator.first_free();
                &&& npt@ == opt@.insert(
                    p,
                    (PageTableEntry {
                        present: true,
                        writable,
                        shared: false,
                        swapped: false,
                        target: (i * PAGE_SIZE) as usize,
                    }),
                )
                &&& nctx.allocator@ == octx.allocator@.update(i, false)
                &&& nctx.swap.manager@ == octx.swap.manager@.push(
                    (Frame {
                        page_table: opt.spec_token(),
                        virtaddr: page_start(addr),
                        token: opt.spec_token(),
                    }),
                )
            }
        },
        MemoryHandler::Cow(c) => {
            let i = octx.allocator.first_free();
            &&& npt@ == opt@.insert(
                p,
                (PageTableEntry {
                    present: true,
                    writable,
                    shared: true,
                    swapped: false,
                    target: (i * PAGE_SIZE) as usize,
                }),
            )
            &&& nctx.allocator@ == octx.allocator@.update(i, false)
            &&& nctx.cow.rc_map@ == rc_inc(octx.cow.rc_map@, i as usize, writable)
            &&& nctx.swap.manager@ == octx.swap.manager@
            &&& nctx.swap.swapper@ == octx.swap.swapper@
        },
    }
}

impl MemoryHandler {
    /// Install the region's mapping for the page containing `addr`,
    /// following the handler's policy.
    pub fn map(&self, ctx: &mut MemoryContext, pt: &mut PageTable, addr: usize)
        requires
            map_pre(*self, *old(ctx), *old(pt), addr),
        ensures
            map_post(*self, *old(ctx), *old(pt), *final(ctx), *final(pt), addr),
    {
        match self {
            MemoryHandler::Simple(s) => {
                let target = (addr - s.start_addr) + s.phys_start_addr;
                pt.map(addr, target);
                s.flags.apply(pt, addr);
                proof {
                    assert(pt@ =~= old(pt)@.insert(page_of(addr), pt@[page_of(addr)]));
                }
            },
            MemoryHandler::Normal(n) => {
                let target = ctx.allocator.allocate().unwrap();
                pt.map(addr, target);
                n.flags.apply(pt, addr);
                proof {
                    assert(pt@ =~= old(pt)@.insert(page_of(addr), pt@[page_of(addr)]));
                }
            },
            MemoryHandler::Swap(s) => {
                if s.is_delayed(addr) {
                    pt.map(addr, 0);
                    s.flags.apply(pt, addr);
                    let mut e = pt.get_entry(addr).unwrap();
                    e.present = false;
                    pt.set_entry(addr, e);
                    proof {
                        assert(pt@ =~= old(pt)@.insert(page_of(addr), pt@[page_of(addr)]));
                        assert(pt@.dom() =~= old(pt)@.dom().insert(page_of(addr)));
                        lemma_swap_consistent_nonswappable_insert(
                            ctx.swap,
                            *old(pt),
                            *pt,
                            page_of(addr),
                        );
                    }
                } else {
                    let target = ctx.allocator.allocate().unwrap();
                    pt.map(addr, target);
                    s.flags.apply(pt, addr);
                    proof {
                        assert(pt@ =~= old(pt)@.insert(page_of(addr), pt@[page_of(addr)]));
                        assert(pt@.dom() =~= old(pt)@.dom().insert(page_of(addr)));
                        lemma_swap_consistent_nonswappable_insert(
                            ctx.swap,
                            *old(pt),
                            *pt,
                            page_of(addr),
                        );
                    }
                    ctx.swap.set_swappable(pt, addr);
                }
            },
            MemoryHandler::Cow(c) => {
                let target = ctx.allocator.allocate().unwrap();
                pt.map(addr, target);
                c.flags.apply(pt, addr);
                let mut e = pt.get_entry(addr).unwrap();
                e.shared = true;
                pt.set_entry(addr, e);
                proof {
                    assert(pt@ =~= old(pt)@.insert(page_of(addr), pt@[page_of(addr)]));
                }
                ctx.cow.map_to_shared(target, !c.flags.is_readonly());
            },
        }
    }
}

/// Inserting (or overwriting) an entry that is neither swapped nor part of
/// the swappable queue — or that stays present and unswapped — preserves
/// the consistency of the swap extension.
proof fn lemma_swap_consistent_nonswappable_insert(
    swap: SwapExt,
    opt: PageTable,
    npt: PageTable,
    p: usize,
)
    requires
        swap_consistent(swap, opt),
        !page_queued(swap.manager@, opt.spec_token(), p) || (npt@[p].present && !npt@[p].swapped),
        npt@.dom() == opt@.dom().insert(p),
        forall|q: usize| q != p && opt@.contains_key(q) ==> npt@[q] == opt@[q],
        npt@.contains_key(p),
        !npt@[p].swapped,
        npt.spec_token() == opt.spec_token(),
    ensures
        swap_consistent(swap, npt),
{
    let q = swap.manager@;
    assert forall|i: int|
        0 <= i < q.len() && (#[trigger] q[i]).token == npt.spec_token() implies
        crate::swap::desc_ok(q[i], npt) by {
        if page_of(q[i].virtaddr) != p {
            assert(npt@[page_of(q[i].virtaddr)] == opt@[page_of(q[i].virtaddr)]);
        }
    }
    assert forall|p1: usize, p2: usize|
        p1 != p2 && npt@.contains_key(p1) && npt@.contains_key(p2) && (#[trigger] npt@[p1]).swapped
            && (#[trigger] npt@[p2]).swapped implies npt@[p1].target != npt@[p2].target by {
        assert(npt@[p1] == opt@[p1] && npt@[p2] == opt@[p2]);
    }
    assert forall|pp: usize| npt@.contains_key(pp) && (#[trigger] npt@[pp]).swapped implies {
        &&& !npt@[pp].present
        &&& npt@[pp].target < swap.swapper@.len()
        &&& swap.swapper@[npt@[pp].target as int] matches Some(c) && c.len() == PAGE_SIZE
    } by {
        assert(pp != p);
        assert(npt@[pp] == opt@[pp]);
    }
}

/// Removing the entry of a page that is not queued preserves the
/// consistency of the swap extension.
proof fn lemma_swap_consistent_remove(swap: SwapExt, opt: PageTable, npt: PageTable, p: usize)
    requires
        swap_consistent(swap, opt),
        !page_queued(swap.manager@, opt.spec_token(), p),
        npt@ == opt@.remove(p),
        npt.spec_token() == opt.spec_token(),
    ensures
        swap_consistent(swap, npt),
{
    let q = swap.manager@;
    assert forall|i: int|
        0 <= i < q.len() && (#[trigger] q[i]).token == npt.spec_token() implies
        crate::swap::desc_ok(q[i], npt) by {
        assert(page_of(q[i].virtaddr) != p);
    }
}

/// What `MemoryHandler::unmap` demands of the state it is given.
pub open spec fn unmap_pre(
    h: MemoryHandler,
    ctx: MemoryContext,
    pt: PageTable,
    addr: usize,
) -> bool {
    let p = page_of(addr);
    let e = pt@[p];
    &&& ctx.wf()
    &&& pt@.contains_key(p)
    &&& swap_consistent(ctx.swap, pt)
    &&& match h {
        MemoryHandler::Simple(s) => e.present && !page_queued(
            ctx.swap.manager@,
            pt.spec_token(),
            p,
        ),
        MemoryHandler::Normal(n) => {
            &&& e.present
            &&& !page_queued(ctx.swap.manager@, pt.spec_token(), p)
            &&& page_of(e.target) < ctx.allocator@.len()
            &&& !ctx.allocator@[page_of(e.target) as int]
        },
        MemoryHandler::Swap(s) => {
            &&& e.present ==> {
                &&& has_desc(ctx.swap.manager@, pt.spec_token(), page_start(addr))
                &&& page_of(e.target) < ctx.allocator@.len()
                &&& !ctx.allocator@[page_of(e.target) as int]
            }
            &&& e.swapped ==> ctx.allocator.has_free()
        },
        MemoryHandler::Cow(c) => {
            &&& e.present
            &&& !page_queued(ctx.swap.manager@, pt.spec_token(), p)
            &&& if c.flags.readonly {
                rc_read(ctx.cow.rc_map@, page_of(e.target)) > 0
            } else {
                rc_write(ctx.cow.rc_map@, page_of(e.target)) > 0
            }
            &&& page_of(e.target) < ctx.allocator@.len()
            &&& !ctx.allocator@[page_of(e.target) as int]
        },
    }
}

/// What `MemoryHandler::unmap` guarantees: the entry is gone, and the
/// frame, swap and copy-on-write bookkeeping are released per policy.
pub open spec fn unmap_post(
    h: MemoryHandler,
    octx: MemoryContext,
    opt: PageTable,
    nctx: MemoryContext,
    npt: PageTable,
    addr: usize,
) -> bool {
    let p = page_of(addr);
    let e = opt@[p];
    let writable = !handler_flags(h).readonly;
    &&& npt.spec_token() == opt.spec_token()
    &&& npt@ == opt@.remove(p)
    &&& nctx.wf()
    &&& swap_consistent(nctx.swap, npt)
    &&& match h {
        MemoryHandler::Simple(s) => {
            &&& nctx.allocator@ == octx.allocator@
            &&& nctx.mem@ == octx.mem@
            &&& nctx.swap.manager@ == octx.swap.manager@
            &&& nctx.swap.swapper@ == octx.swap.swapper@
            &&& nctx.cow.rc_map@ == octx.cow.rc_map@
        },
        MemoryHandler::Normal(n) => {
            &&& nctx.allocator@ == octx.allocator@.update(page_of(e.target) as int, true)
            &&& nctx.mem@ == octx.mem@
            &&& nctx.swap.manager@ == octx.swap.manager@
            &&& nctx.swap.swapper@ == octx.swap.swapper@
            &&& nctx.cow.rc_map@ == octx.cow.rc_map@
        },
        MemoryHandler::Swap(s) => {
            &&& nctx.cow.rc_map@ == octx.cow.rc_map@
            &&& if e.present {
                &&& nctx.allocator@ == octx.allocator@.update(page_of(e.target) as int, true)
                &&& nctx.mem@ == octx.mem@
                &&& nctx.swap.manager@ == octx.swap.manager@.remove(
                    find_desc(octx.swap.manager@, opt.spec_token(), page_start(addr)),
                )
                &&& nctx.swap.swapper@ == octx.swap.swapper@
            } else if e.swapped {
                let i = octx.allocator.first_free();
                &&& nctx.allocator@ == octx.allocator@
                &&& nctx.mem@ == octx.mem@.update(
                    i,
                    octx.swap.swapper@[e.target as int]->Some_0,
                )
                &&& nctx.swap.manager@ == octx.swap.manager@
                &&& nctx.swap.swapper@ == octx.swap.swapper@.update(e.target as int, None)
            } else {
                &&& nctx.allocator@ == octx.allocator@
                &&& nctx.mem@ == octx.mem@
                &&& nctx.swap.manager@ == octx.swap.manager@
                &&& nctx.swap.swapper@ == octx.swap.swapper@
            }
        },
        MemoryHandler::Cow(c) => {
            let f = page_of(e.target);
            &&& nctx.cow.rc_map@ == rc_dec(octx.cow.rc_map@, f, writable)
            &&& nctx.allocator@ == if rc_total(rc_dec(octx.cow.rc_map@, f, writable), f) == 0 {
                octx.allocator@.update(f as int, true)
            } else {
                octx.allocator@
            }
            &&& nctx.mem@ == octx.mem@
            &&& nctx.swap.manager@ == octx.swap.manager@
            &&& nctx.swap.swapper@ == octx.swap.swapper@
        },
    }
}

impl MemoryHandler {
    /// Tear down the region's mapping for the page containing `addr`,
    /// releasing the frame per the handler's policy: an eager or
    /// swap-backed frame goes back to the allocator, a copy-on-write frame
    /// only once its last shared reference is released, a direct mapping's
    /// frame is not separately owned.  A swap-backed page that was
    /// evicted is swapped in first; an absent placeholder is made present
    /// so the underlying unmap, which assumes a valid entry, succeeds.
    pub fn unmap(&self, ctx: &mut MemoryContext, pt: &mut PageTable, addr: usize)
        requires
            unmap_pre(*self, *old(ctx), *old(pt), addr),
        ensures
            unmap_post(*self, *old(ctx), *old(pt), *final(ctx), *final(pt), addr),
    {
        match self {
            MemoryHandler::Simple(s) => {
                pt.unmap(addr);
                proof {
                    lemma_swap_consistent_remove(ctx.swap, *old(pt), *pt, page_of(addr));
                }
            },
            MemoryHandler::Normal(n) => {
                let e = pt.get_entry(addr).unwrap();
                ctx.allocator.deallocate(e.target);
                pt.unmap(addr);
                proof {
                    lemma_swap_consistent_remove(ctx.swap, *old(pt), *pt, page_of(addr));
                }
            },
            MemoryHandler::Swap(s) => unmap_swap_backed(s, ctx, pt, addr),
            MemoryHandler::Cow(c) => {
                let target = pt.get_entry(addr).unwrap().target;
                pt.unmap(addr);
                proof {
                    lemma_swap_consistent_remove(ctx.swap, *old(pt), *pt, page_of(addr));
                }
                if ctx.cow.unmap_shared(target, !c.flags.is_readonly()) {
                    ctx.allocator.deallocate(target);
                }
            },
        }
    }
}

/// The swap-backed arm of `MemoryHandler::unmap`.
#[verifier::rlimit(100)]
fn unmap_swap_backed(s: &SwapMemoryHandler, ctx: &mut MemoryContext, pt: &mut PageTable, addr: usize)
    requires
        unmap_pre(MemoryHandler::Swap(*s), *old(ctx), *old(pt), addr),
    ensures
        unmap_post(MemoryHandler::Swap(*s), *old(ctx), *old(pt), *final(ctx), *final(pt), addr),
{
    let e0 = pt.get_entry(addr).unwrap();
    if e0.present || e0.swapped {
        ctx.swap.remove_from_swappable(pt, &mut ctx.allocator, &mut ctx.mem, addr);
        let e1 = pt.get_entry(addr).unwrap();
        proof {
            if e0.swapped {
                let i = old(ctx).allocator.first_free();
                let len = old(ctx).allocator@.len();
                assert(i * PAGE_SIZE + PAGE_SIZE <= len * PAGE_SIZE) by (nonlinear_arith)
                    requires 0 <= i < len, len * PAGE_SIZE <= usize::MAX, PAGE_SIZE == 4096;
                assert((i * PAGE_SIZE) / (PAGE_SIZE as int) == i) by (nonlinear_arith)
                    requires PAGE_SIZE == 4096, i >= 0;
                assert(page_of(e1.target) == i);
            }
        }
        ctx.allocator.deallocate(e1.target);
        proof {
            if e0.swapped {
                assert(ctx.allocator@ =~= old(ctx).allocator@);
            }
        }
        let ghost mid = *pt;
        pt.unmap(addr);
        proof {
            let p = page_of(addr);
            lemma_page_start_le(addr);
            assert(!page_queued(ctx.swap.manager@, pt.spec_token(), p)) by {
                if page_queued(ctx.swap.manager@, pt.spec_token(), p) {
                    let i = choose|i: int|
                        0 <= i < ctx.swap.manager@.len() && (#[trigger] ctx.swap.manager@[i]).token
                            == pt.spec_token() && page_of(ctx.swap.manager@[i].virtaddr) == p;
                    if e0.present {
                        let q0 = old(ctx).swap.manager@;
                        let fd = find_desc(q0, old(pt).spec_token(), page_start(addr));
                        crate::fifo::lemma_find_desc(q0, old(pt).spec_token(), page_start(addr));
                        let i0 = if i < fd { i } else { i + 1 };
                        assert(ctx.swap.manager@[i] == q0[i0]);
                        assert(q0[i0].virtaddr == page_start(q0[i0].virtaddr));
                        assert(q0[fd].virtaddr == page_start(addr));
                        assert(q0[i0].virtaddr != q0[fd].virtaddr);
                        assert(q0[i0].virtaddr == page_start(addr));
                        assert(false);
                    } else {
                        assert(old(pt)@[p].swapped);
                        assert(page_of(ctx.swap.manager@[i].virtaddr) == p);
                        assert(false);
                    }
                }
            }
            lemma_swap_consistent_remove(ctx.swap, mid, *pt, p);
            assert(pt@ =~= old(pt)@.remove(p));
        }
    } else {
        let mut e1 = e0;
        e1.present = true;
        pt.set_entry(addr, e1);
        pt.unmap(addr);
        proof {
            let p = page_of(addr);
            assert(pt@ =~= old(pt)@.remove(p));
            assert(!page_queued(ctx.swap.manager@, pt.spec_token(), p)) by {
                if page_queued(ctx.swap.manager@, pt.spec_token(), p) {
                    let i = choose|i: int|
                        0 <= i < ctx.swap.manager@.len() && (#[trigger] ctx.swap.manager@[i]).token
                            == pt.spec_token() && page_of(ctx.swap.manager@[i].virtaddr) == p;
                    assert(old(pt)@[p].present);
                    assert(false);
                }
            }
            lemma_swap_consistent_remove(ctx.swap, *old(pt), *pt, p);
        }
    }
}

/// The delayed-allocation fault condition: the faulting page is promised
/// to the region, and its entry is neither present nor swapped.
pub open spec fn delayed_fault_guard(s: SwapMemoryHandler, pt: PageTable, addr: usize) -> bool {
    let p = page_of(addr);
    &&& s.delayed(addr)
    &&& pt@.contains_key(p)
    &&& !pt@[p].present
    &&& !pt@[p].swapped
}

/// The swap-in fault condition: the faulting page's entry is marked
/// swapped-out and absent.
pub open spec fn swapin_fault_guard(pt: PageTable, addr: usize) -> bool {
    let p = page_of(addr);
    &&& pt@.contains_key(p)
    &&& pt@[p].swapped
    &&& !pt@[p].present
}

/// Once a delayed allocation has succeeded its page is present, so the
/// delayed-allocation branch cannot be entered a second time for the same
/// address: the first fault transitions the page to present-and-backed
/// exactly once.
pub proof fn lemma_delayed_alloc_runs_once(s: SwapMemoryHandler, pt: PageTable, addr: usize)
    requires
        pt@.contains_key(page_of(addr)),
        pt@[page_of(addr)].present,
    ensures
        !delayed_fault_guard(s, pt, addr),
        !swapin_fault_guard(pt, addr),
{
}

/// What `MemoryHandler::page_fault_handler` demands of the state it is
/// given.  Obtaining a frame is fatal only on true exhaustion, so the
/// branches that allocate ask for a free frame or an eviction candidate.
pub open spec fn fault_pre(
    h: MemoryHandler,
    ctx: MemoryContext,
    pt: PageTable,
    addr: usize,
) -> bool {
    let p = page_of(addr);
    match h {
        MemoryHandler::Simple(s) => true,
        MemoryHandler::Normal(n) => true,
        MemoryHandler::Swap(s) => {
            &&& ctx.wf()
            &&& swap_consistent(ctx.swap, pt)
            &&& targets_in_range(pt, ctx.mem@.len() as int)
            &&& s.delayed(addr) ==> pt@.contains_key(p)
            &&& (delayed_fault_guard(s, pt, addr) || swapin_fault_guard(pt, addr))
                && !ctx.allocator.has_free() ==> ctx.swap.manager@.len() > 0
                && ctx.swap.manager@[0].token == pt.spec_token()
        },
        MemoryHandler::Cow(c) => !c.flags.readonly ==> {
            let e = pt@[p];
            let f = page_of(e.target);
            &&& ctx.wf()
            &&& swap_consistent(ctx.swap, pt)
            &&& pt@.contains_key(p)
            &&& e.present
            &&& !e.swapped
            &&& rc_total(ctx.cow.rc_map@, f) >= 1
            &&& rc_total(ctx.cow.rc_map@, f) != 1 ==> {
                &&& rc_write(ctx.cow.rc_map@, f) >= 1
                &&& ctx.allocator.has_free()
                &&& f < ctx.mem@.len()
                &&& !ctx.allocator@[f as int]
                &&& rc_write(
                    rc_dec(ctx.cow.rc_map@, f, true),
                    ctx.allocator.first_free() as usize,
                ) < 0xffff
            }
        },
    }
}

/// What `MemoryHandler::page_fault_handler` guarantees, per policy.
///
/// Direct and eager regions never resolve a fault.  A swap-backed region
/// resolves a delayed allocation (install a fresh frame, register it
/// swappable) and a swap-in (restore the page's bytes from its slot into a
/// fresh frame); either may first evict the FIFO head when no frame is
/// free.  A copy-on-write region resolves only write faults on writable
/// regions: the sole owner of a frame gets the writable bit flipped in
/// place, with no allocation and no copy; a frame shared more widely is
/// copied — the faulting registration is released, a fresh frame with
/// byte-identical content is installed writable and registered shared,
/// and the other mappings' references remain.
pub open spec fn fault_post(
    h: MemoryHandler,
    octx: MemoryContext,
    opt: PageTable,
    nctx: MemoryContext,
    npt: PageTable,
    addr: usize,
    resolved: bool,
) -> bool {
    let p = page_of(addr);
    let e = opt@[p];
    &&& npt.spec_token() == opt.spec_token()
    &&& match h {
        MemoryHandler::Simple(s) => {
            &&& !resolved
            &&& npt@ == opt@
            &&& nctx.allocator@ == octx.allocator@
            &&& nctx.mem@ == octx.mem@
            &&& nctx.swap.manager@ == octx.swap.manager@
            &&& nctx.swap.swapper@ == octx.swap.swapper@
            &&& nctx.cow.rc_map@ == octx.cow.rc_map@
        },
        MemoryHandler::Normal(n) => {
            &&& !resolved
            &&& npt@ == opt@
            &&& nctx.allocator@ == octx.allocator@
            &&& nctx.mem@ == octx.mem@
            &&& nctx.swap.manager@ == octx.swap.manager@
            &&& nctx.swap.swapper@ == octx.swap.swapper@
            &&& nctx.cow.rc_map@ == octx.cow.rc_map@
        },
        MemoryHandler::Swap(s) => {
            let queued = (Frame {
                page_table: opt.spec_token(),
                virtaddr: page_start(addr),
                token: opt.spec_token(),
            });
            &&& nctx.wf()
            &&& swap_consistent(nctx.swap, npt)
            &&& targets_in_range(npt, nctx.mem@.len() as int)
            &&& nctx.cow.rc_map@ == octx.cow.rc_map@
            &&& if delayed_fault_guard(s, opt, addr) {
                &&& resolved
                &&& nctx.mem@ == octx.mem@
                &&& if octx.allocator.has_free() {
                    let i = octx.allocator.first_free();
                    &&& nctx.allocator@ == octx.allocator@.update(i, false)
                    &&& npt@ == opt@.insert(
                        p,
                        (PageTableEntry { present: true, target: (i * PAGE_SIZE) as usize, ..e }),
                    )
                    &&& nctx.swap.manager@ == octx.swap.manager@.push(queued)
                    &&& nctx.swap.swapper@ == octx.swap.swapper@
                } else {
                    let d = octx.swap.manager@[0];
                    let pv = page_of(d.virtaddr);
                    let ev = opt@[pv];
                    &&& octx.swap.manager@.len() > 0
                    &&& nctx.allocator@ == octx.allocator@
                    &&& npt@ == opt@.insert(
                        pv,
                        (PageTableEntry {
                            present: false,
                            swapped: true,
                            target: octx.swap.swapper@.len() as usize,
                            ..ev
                        }),
                    ).insert(p, (PageTableEntry { present: true, target: ev.target, ..e }))
                    &&& nctx.swap.manager@ == octx.swap.manager@.subrange(
                        1,
                        octx.swap.manager@.len() as int,
                    ).push(queued)
                    &&& nctx.swap.swapper@ == octx.swap.swapper@.push(
                        Some(octx.mem@[page_of(ev.target) as int]),
                    )
                }
            } else if swapin_fault_guard(opt, addr) {
                let tok = e.target;
                &&& resolved
                &&& if octx.allocator.has_free() {
                    let i = octx.allocator.first_free();
                    &&& nctx.allocator@ == octx.allocator@.update(i, false)
                    &&& npt@ == opt@.insert(
                        p,
                        (PageTableEntry {
                            present: true,
                            swapped: false,
                            target: (i * PAGE_SIZE) as usize,
                            ..e
                        }),
                    )
                    &&& nctx.mem@ == octx.mem@.update(i, octx.swap.swapper@[tok as int]->Some_0)
                    &&& nctx.swap.swapper@ == octx.swap.swapper@.update(tok as int, None)
                    &&& nctx.swap.manager@ == octx.swap.manager@.push(queued)
                } else {
                    let d = octx.swap.manager@[0];
                    let pv = page_of(d.virtaddr);
                    let ev = opt@[pv];
                    &&& octx.swap.manager@.len() > 0
                    &&& nctx.allocator@ == octx.allocator@
                    &&& npt@ == opt@.insert(
                        pv,
                        (PageTableEntry {
                            present: false,
                            swapped: true,
                            target: octx.swap.swapper@.len() as usize,
                            ..ev
                        }),
                    ).insert(
                        p,
                        (PageTableEntry { present: true, swapped: false, target: ev.target, ..e }),
                    )
                    &&& nctx.mem@ == octx.mem@.update(
                        page_of(ev.target) as int,
                        octx.swap.swapper@[tok as int]->Some_0,
                    )
                    &&& nctx.swap.swapper@ == octx.swap.swapper@.push(
                        Some(octx.mem@[page_of(ev.target) as int]),
                    ).update(tok as int, None)
                    &&& nctx.swap.manager@ == octx.swap.manager@.subrange(
                        1,
                        octx.swap.manager@.len() as int,
                    ).push(queued)
                }
            } else {
                &&& !resolved
                &&& npt@ == opt@
                &&& nctx.allocator@ == octx.allocator@
                &&& nctx.mem@ == octx.mem@
                &&& nctx.swap.manager@ == octx.swap.manager@
                &&& nctx.swap.swapper@ == octx.swap.swapper@
            }
        },
        MemoryHandler::Cow(c) => {
            let f = page_of(e.target);
            &&& nctx.swap.manager@ == octx.swap.manager@
            &&& nctx.swap.swapper@ == octx.swap.swapper@
            &&& if c.flags.readonly {
                &&& !resolved
                &&& npt@ == opt@
                &&& nctx.allocator@ == octx.allocator@
                &&& nctx.mem@ == octx.mem@
                &&& nctx.cow.rc_map@ == octx.cow.rc_map@
            } else if rc_total(octx.cow.rc_map@, f) == 1 {
                &&& resolved
                &&& npt@ == opt@.insert(p, (PageTableEntry { writable: true, ..e }))
                &&& nctx.allocator@ == octx.allocator@
                &&& nctx.mem@ == octx.mem@
                &&& nctx.cow.rc_map@ == octx.cow.rc_map@
            } else {
                let i = octx.allocator.first_free();
                &&& resolved
                &&& nctx.allocator@ == octx.allocator@.update(i, false)
                &&& npt@ == opt@.insert(
                    p,
                    (PageTableEntry { writable: true, target: (i * PAGE_SIZE) as usize, ..e }),
                )
                &&& nctx.mem@ == octx.mem@.update(i, octx.mem@[f as int])
                &&& nctx.cow.rc_map@ == rc_inc(
                    rc_dec(octx.cow.rc_map@, f, true),
                    i as usize,
                    true,
                )
                &&& rc_total(nctx.cow.rc_map@, f) == rc_total(octx.cow.rc_map@, f) - 1
            }
        },
    }
}

impl MemoryHandler {
    /// Attempt to resolve a page fault at `addr` inside a region backed by
    /// this handler.  Returns true when execution may resume at the
    /// faulting instruction; false means the access is genuinely illegal.
    pub fn page_fault_handler(
        &self,
        ctx: &mut MemoryContext,
        pt: &mut PageTable,
        addr: usize,
    ) -> (resolved: bool)
        requires
            fault_pre(*self, *old(ctx), *old(pt), addr),
        ensures
            fault_post(*self, *old(ctx), *old(pt), *final(ctx), *final(pt), addr, resolved),
    {
        match self {
            MemoryHandler::Simple(s) => false,
            MemoryHandler::Normal(n) => false,
            MemoryHandler::Swap(s) => page_fault_swap_backed(s, ctx, pt, addr),
            MemoryHandler::Cow(c) => page_fault_cow(c, ctx, pt, addr),
        }
    }
}

/// The swap-backed arm of `MemoryHandler::page_fault_handler`: delayed
/// allocation first, then the swap-in path.
#[verifier::rlimit(100)]
fn page_fault_swap_backed(
    s: &SwapMemoryHandler,
    ctx: &mut MemoryContext,
    pt: &mut PageTable,
    addr: usize,
) -> (resolved: bool)
    requires
        fault_pre(MemoryHandler::Swap(*s), *old(ctx), *old(pt), addr),
    ensures
        fault_post(
            MemoryHandler::Swap(*s),
            *old(ctx),
            *old(pt),
            *final(ctx),
            *final(pt),
            addr,
            resolved,
        ),
{
    if s.is_delayed(addr) {
        let e0 = pt.get_entry(addr).unwrap();
        if !e0.present && !e0.swapped {
            let pa = alloc_frame(ctx, pt).unwrap();
            let ghost mid_pt = *pt;
            let ghost mid_swap = ctx.swap;
            proof {
                let p = page_of(addr);
                if !old(ctx).allocator.has_free() {
                    let d = old(ctx).swap.manager@[0];
                    assert(page_of(d.virtaddr) != p);
                    assert(mid_pt@[p] == old(pt)@[p]);
                }
            }
            let mut e = pt.get_entry(addr).unwrap();
            e.target = pa;
            e.present = true;
            pt.set_entry(addr, e);
            proof {
                let p = page_of(addr);
                assert(pt@.dom() =~= mid_pt@.dom().insert(p));
                assert(!page_queued(mid_swap.manager@, mid_pt.spec_token(), p)) by {
                    if page_queued(mid_swap.manager@, mid_pt.spec_token(), p) {
                        let i = choose|i: int|
                            0 <= i < mid_swap.manager@.len() && (
                            #[trigger] mid_swap.manager@[i]).token == mid_pt.spec_token()
                                && page_of(mid_swap.manager@[i].virtaddr) == p;
                        assert(mid_pt@[p].present);
                    }
                }
                lemma_swap_consistent_nonswappable_insert(mid_swap, mid_pt, *pt, p);
            }
            ctx.swap.set_swappable(pt, addr);
            proof {
                let p = page_of(addr);
                if !old(ctx).allocator.has_free() {
                    assert(pt@ =~= old(pt)@.insert(
                        page_of(old(ctx).swap.manager@[0].virtaddr),
                        mid_pt@[page_of(old(ctx).swap.manager@[0].virtaddr)],
                    ).insert(p, pt@[p]));
                } else {
                    assert(pt@ =~= old(pt)@.insert(p, pt@[p]));
                }
                assert(page_of(pa) < ctx.mem@.len());
                assert forall|q: usize|
                    pt@.contains_key(q) && (#[trigger] pt@[q]).present implies page_of(
                    pt@[q].target,
                ) < ctx.mem@.len() as int by {
                    if q != p {
                        assert(mid_pt@.contains_key(q) && mid_pt@[q] == pt@[q]);
                    }
                }
            }
            return true;
        }
    }
    let found = pt.get_entry(addr);
    match found {
        None => false,
        Some(entry) => {
            if !(entry.swapped && !entry.present) {
                return false;
            }
            let pa = alloc_frame(ctx, pt).unwrap();
            let ghost mid_pt = *pt;
            proof {
                let p = page_of(addr);
                assert(page_of(pa) < ctx.mem@.len());
                if !old(ctx).allocator.has_free() {
                    let d = old(ctx).swap.manager@[0];
                    assert(page_of(d.virtaddr) != p);
                    assert(mid_pt@[p] == old(pt)@[p]);
                }
            }
            ctx.swap.swap_in(pt, &mut ctx.mem, addr, pa);
            proof {
                let p = page_of(addr);
                if !old(ctx).allocator.has_free() {
                    let pv = page_of(old(ctx).swap.manager@[0].virtaddr);
                    assert(pt@ =~= old(pt)@.insert(pv, mid_pt@[pv]).insert(p, pt@[p]));
                } else {
                    assert(pt@ =~= old(pt)@.insert(p, pt@[p]));
                }
                assert forall|q: usize|
                    pt@.contains_key(q) && (#[trigger] pt@[q]).present implies page_of(
                    pt@[q].target,
                ) < ctx.mem@.len() as int by {
                    if q != p {
                        assert(mid_pt@.contains_key(q) && mid_pt@[q] == pt@[q]);
                    }
                }
            }
            true
        },
    }
}

/// The copy-on-write arm of `MemoryHandler::page_fault_handler`.
#[verifier::rlimit(100)]
fn page_fault_cow(
    c: &CowMemoryHandler,
    ctx: &mut MemoryContext,
    pt: &mut PageTable,
    addr: usize,
) -> (resolved: bool)
    requires
        fault_pre(MemoryHandler::Cow(*c), *old(ctx), *old(pt), addr),
    ensures
        fault_post(
            MemoryHandler::Cow(*c),
            *old(ctx),
            *old(pt),
            *final(ctx),
            *final(pt),
            addr,
            resolved,
        ),
{
    if c.flags.is_readonly() {
        return false;
    }
    let target = pt.get_entry(addr).unwrap().target;
    if ctx.cow.is_one_shared(target) {
        let mut e = pt.get_entry(addr).unwrap();
        e.writable = true;
        pt.set_entry(addr, e);
        proof {
            let p = page_of(addr);
            assert(pt@.dom() =~= old(pt)@.dom().insert(p));
            lemma_swap_consistent_nonswappable_insert(ctx.swap, *old(pt), *pt, p);
        }
        true
    } else {
        let data = ctx.mem.read_page(target / PAGE_SIZE);
        let freed = ctx.cow.unmap_shared(target, true);
        proof {
            assert(!freed);
        }
        let new_target = ctx.allocator.allocate().unwrap();
        let mut e = pt.get_entry(addr).unwrap();
        e.writable = true;
        e.target = new_target;
        pt.set_entry(addr, e);
        proof {
            let p = page_of(addr);
            assert(pt@.dom() =~= old(pt)@.dom().insert(p));
            lemma_swap_consistent_nonswappable_insert(ctx.swap, *old(pt), *pt, p);
        }
        proof {
            assert(page_of(new_target) != page_of(old(pt)@[page_of(addr)].target));
        }
        ctx.cow.map_to_shared(new_target, !c.flags.is_readonly());
        ctx.mem.write_page(new_target / PAGE_SIZE, &data);
        proof {
            crate::cow::lemma_rc_dec_total(
                old(ctx).cow.rc_map@,
                page_of(old(pt)@[page_of(addr)].target),
                true,
                page_of(old(pt)@[page_of(addr)].target),
            );
            crate::cow::lemma_rc_inc_total(
                rc_dec(
                    old(ctx).cow.rc_map@,
                    page_of(old(pt)@[page_of(addr)].target),
                    true,
                ),
                page_of(new_target),
                true,
                page_of(old(pt)@[page_of(addr)].target),
            );
        }
        true
    }
}


/// A page with no entry in a table cannot be queued as swappable under
/// that table's token.
proof fn lemma_unmapped_not_queued(swap: SwapExt, pt: PageTable, p: usize)
    requires
        swap_consistent(swap, pt),
        !pt@.contains_key(p),
    ensures
        !page_queued(swap.manager@, pt.spec_token(), p),
{
    if page_queued(swap.manager@, pt.spec_token(), p) {
        let i = choose|i: int|
            0 <= i < swap.manager@.len() && (#[trigger] swap.manager@[i]).token == pt.spec_token()
                && page_of(swap.manager@[i].virtaddr) == p;
        assert(pt@.contains_key(p));
    }
}

/// Queuing a descriptor that names another table preserves this table's
/// consistency with the swap extension.
proof fn lemma_swap_consistent_push_other(s0: SwapExt, s1: SwapExt, pt: PageTable, d: Frame)
    requires
        swap_consistent(s0, pt),
        s1.manager@ == s0.manager@.push(d),
        s1.swapper@ == s0.swapper@,
        d.token != pt.spec_token(),
    ensures
        swap_consistent(s1, pt),
{
    let q0 = s0.manager@;
    let q1 = s1.manager@;
    assert forall|i: int|
        0 <= i < q1.len() && (#[trigger] q1[i]).token == pt.spec_token() implies
        crate::swap::desc_ok(q1[i], pt) by {
        assert(i < q0.len());
        assert(q1[i] == q0[i]);
    }
    assert forall|i: int, j: int|
        0 <= i < j < q1.len() && (#[trigger] q1[i]).token == pt.spec_token() && (
    #[trigger] q1[j]).token == pt.spec_token() implies q1[i].virtaddr != q1[j].virtaddr by {
        assert(j < q0.len());
        assert(q1[i] == q0[i] && q1[j] == q0[j]);
    }
}

/// How a handler itself changes across one clone-at-fork of a page: the
/// swap-backed handler remembers a parent page that was never materialized
/// as a delayed allocation of the child; every other handler is unchanged.
pub open spec fn clone_post_handler(
    oh: MemoryHandler,
    nh: MemoryHandler,
    addr: usize,
    absent: bool,
) -> bool {
    match (oh, nh) {
        (MemoryHandler::Swap(s0), MemoryHandler::Swap(s1)) => {
            &&& s1.flags == s0.flags
            &&& s1.delay_alloc@ == if absent {
                s0.delay_alloc@.push(page_start(addr))
            } else {
                s0.delay_alloc@
            }
        },
        (a, b) => b == a,
    }
}

/// What `MemoryHandler::map_clone` demands of the state it is given.
pub open spec fn clone_pre(
    h: MemoryHandler,
    ctx: MemoryContext,
    parent: PageTable,
    child: PageTable,
    addr: usize,
) -> bool {
    let p = page_of(addr);
    let pe = parent@[p];
    &&& !child@.contains_key(p)
    &&& swap_consistent(ctx.swap, parent)
    &&& swap_consistent(ctx.swap, child)
    &&& child.spec_token() != parent.spec_token()
    &&& match h {
        MemoryHandler::Simple(s) => s.start_addr <= addr && (addr - s.start_addr)
            + s.phys_start_addr <= usize::MAX,
        MemoryHandler::Normal(n) => {
            &&& ctx.wf()
            &&& parent@.contains_key(p)
            &&& pe.present
            &&& page_of(pe.target) < ctx.mem@.len()
            &&& !ctx.allocator@[page_of(pe.target) as int]
            &&& ctx.allocator.has_free()
        },
        MemoryHandler::Swap(s) => {
            &&& ctx.wf()
            &&& parent@.contains_key(p)
            &&& pe.present ==> page_of(pe.target) < ctx.mem@.len() && ctx.allocator.has_free()
                && !ctx.allocator@[page_of(pe.target) as int]
            &&& pe.swapped ==> ctx.allocator.has_free()
        },
        MemoryHandler::Cow(c) => {
            &&& parent@.contains_key(p)
            &&& pe.present
            &&& !pe.swapped
            &&& if c.flags.readonly {
                rc_read(ctx.cow.rc_map@, page_of(pe.target)) < 0xffff
            } else {
                rc_write(ctx.cow.rc_map@, page_of(pe.target)) < 0xffff
            }
        },
    }
}

/// What `MemoryHandler::map_clone` guarantees.
///
/// At fork, the direct handler re-applies its fixed mapping in the child;
/// the eager handler gives the child a fresh frame holding a copy of the
/// parent page's bytes; the swap-backed handler does the same for a
/// materialized page (reading an evicted page's bytes from its slot) and
/// turns a never-materialized page into a delayed allocation of the child,
/// so frames are never shared across fork.  The copy-on-write handler
/// shares the frame: the parent's entry is downgraded to read-only, the
/// child maps the same frame read-only and shared, and the frame's
/// reference count rises by one on the counter chosen by the region's
/// configured writability.
pub open spec fn clone_post(
    h: MemoryHandler,
    octx: MemoryContext,
    oparent: PageTable,
    ochild: PageTable,
    nh: MemoryHandler,
    nctx: MemoryContext,
    nparent: PageTable,
    nchild: PageTable,
    addr: usize,
) -> bool {
    let p = page_of(addr);
    let pe = oparent@[p];
    let writable = !handler_flags(h).readonly;
    &&& nparent.spec_token() == oparent.spec_token()
    &&& nchild.spec_token() == ochild.spec_token()
    &&& nctx.swap.swapper@ == octx.swap.swapper@
    &&& swap_consistent(nctx.swap, nparent)
    &&& swap_consistent(nctx.swap, nchild)
    &&& match h {
        MemoryHandler::Simple(s) => {
            &&& nctx.swap.manager@ == octx.swap.manager@
            &&& nparent@ == oparent@
            &&& nchild@ == ochild@.insert(
                p,
                (PageTableEntry {
                    present: true,
                    writable,
                    shared: false,
                    swapped: false,
                    target: s.target_of(addr),
                }),
            )
            &&& nctx.allocator@ == octx.allocator@
            &&& nctx.mem@ == octx.mem@
            &&& nctx.cow.rc_map@ == octx.cow.rc_map@
            &&& clone_post_handler(h, nh, addr, false)
        },
        MemoryHandler::Normal(n) => {
            let i = octx.allocator.first_free();
            &&& nctx.swap.manager@ == octx.swap.manager@
            &&& nparent@ == oparent@
            &&& nchild@ == ochild@.insert(
                p,
                (PageTableEntry {
                    present: true,
                    writable,
                    shared: false,
                    swapped: false,
                    target: (i * PAGE_SIZE) as usize,
                }),
            )
            &&& i != page_of(pe.target)
            &&& nctx.allocator@ == octx.allocator@.update(i, false)
            &&& nctx.mem@ == octx.mem@.update(i, octx.mem@[page_of(pe.target) as int])
            &&& nctx.cow.rc_map@ == octx.cow.rc_map@
            &&& clone_post_handler(h, nh, addr, false)
        },
        MemoryHandler::Swap(s) => {
            &&& nparent@ == oparent@
            &&& nctx.cow.rc_map@ == octx.cow.rc_map@
            &&& if !pe.present && !pe.swapped {
                &&& nctx.swap.manager@ == octx.swap.manager@
                &&& nchild@ == ochild@.insert(
                    p,
                    (PageTableEntry {
                        present: false,
                        writable,
                        shared: false,
                        swapped: false,
                        target: 0,
                    }),
                )
                &&& nctx.allocator@ == octx.allocator@
                &&& nctx.mem@ == octx.mem@
                &&& clone_post_handler(h, nh, addr, true)
            } else {
                let i = octx.allocator.first_free();
                let content = if pe.present {
                    octx.mem@[page_of(pe.target) as int]
                } else {
                    octx.swap.swapper@[pe.target as int]->Some_0
                };
                &&& nchild@ == ochild@.insert(
                    p,
                    (PageTableEntry {
                        present: true,
                        writable,
                        shared: false,
                        swapped: false,
                        target: (i * PAGE_SIZE) as usize,
                    }),
                )
                &&& pe.present ==> i != page_of(pe.target)
                &&& nctx.allocator@ == octx.allocator@.update(i, false)
                &&& nctx.mem@ == octx.mem@.update(i, content)
                &&& nctx.swap.manager@ == octx.swap.manager@.push(
                    (Frame {
                        page_table: ochild.spec_token(),
                        virtaddr: page_start(addr),
                        token: ochild.spec_token(),
                    }),
                )
                &&& clone_post_handler(h, nh, addr, false)
            }
        },
        MemoryHandler::Cow(c) => {
            let f = page_of(pe.target);
            &&& nparent@ == oparent@.insert(p, (PageTableEntry { writable: false, ..pe }))
            &&& nchild@ == ochild@.insert(
                p,
                (PageTableEntry {
                    present: true,
                    writable: false,
                    shared: true,
                    swapped: false,
                    target: pe.target,
                }),
            )
            &&& nctx.cow.rc_map@ == rc_inc(octx.cow.rc_map@, f, writable)
            &&& rc_total(nctx.cow.rc_map@, f) == rc_total(octx.cow.rc_map@, f) + 1
            &&& nctx.swap.manager@ == octx.swap.manager@
            &&& nctx.allocator@ == octx.allocator@
            &&& nctx.mem@ == octx.mem@
            &&& clone_post_handler(h, nh, addr, false)
        },
    }
}

impl MemoryHandler {
    /// Clone this region's mapping of the page containing `addr` into a
    /// child page table at fork time, per the handler's policy.  The
    /// parent's table stands for the active table at the moment of fork.
    pub fn map_clone(
        &mut self,
        ctx: &mut MemoryContext,
        parent_pt: &mut PageTable,
        child_pt: &mut PageTable,
        addr: usize,
    )
        requires
            clone_pre(*old(self), *old(ctx), *old(parent_pt), *old(child_pt), addr),
        ensures
            clone_post(
                *old(self),
                *old(ctx),
                *old(parent_pt),
                *old(child_pt),
                *final(self),
                *final(ctx),
                *final(parent_pt),
                *final(child_pt),
                addr,
            ),
    {
        match self {
            MemoryHandler::Simple(s) => {
                let target = (addr - s.start_addr) + s.phys_start_addr;
                child_pt.map(addr, target);
                s.flags.apply(child_pt, addr);
                proof {
                    let p = page_of(addr);
                    assert(child_pt@ =~= old(child_pt)@.insert(p, child_pt@[p]));
                    lemma_unmapped_not_queued(ctx.swap, *old(child_pt), p);
                    assert(child_pt@.dom() =~= old(child_pt)@.dom().insert(p));
                    lemma_swap_consistent_nonswappable_insert(
                        ctx.swap,
                        *old(child_pt),
                        *child_pt,
                        p,
                    );
                }
            },
            MemoryHandler::Normal(n) => {
                let pe = parent_pt.get_entry(addr).unwrap();
                let target = ctx.allocator.allocate().unwrap();
                child_pt.map(addr, target);
                n.flags.apply(child_pt, addr);
                ctx.mem.copy_page(pe.target / PAGE_SIZE, target / PAGE_SIZE);
                proof {
                    let p = page_of(addr);
                    assert(child_pt@ =~= old(child_pt)@.insert(p, child_pt@[p]));
                    lemma_unmapped_not_queued(ctx.swap, *old(child_pt), p);
                    assert(child_pt@.dom() =~= old(child_pt)@.dom().insert(p));
                    lemma_swap_consistent_nonswappable_insert(
                        ctx.swap,
                        *old(child_pt),
                        *child_pt,
                        p,
                    );
                }
            },
            MemoryHandler::Swap(s) => {
                let pe = parent_pt.get_entry(addr).unwrap();
                let allocated = pe.present || pe.swapped;
                if !allocated {
                    let p_start = page_start_of(addr);
                    s.delay_alloc.push(p_start);
                    child_pt.map(addr, 0);
                    s.flags.apply(child_pt, addr);
                    let mut e = child_pt.get_entry(addr).unwrap();
                    e.present = false;
                    child_pt.set_entry(addr, e);
                    proof {
                        let p = page_of(addr);
                        assert(child_pt@ =~= old(child_pt)@.insert(p, child_pt@[p]));
                        lemma_unmapped_not_queued(ctx.swap, *old(child_pt), p);
                        assert(child_pt@.dom() =~= old(child_pt)@.dom().insert(p));
                        lemma_swap_consistent_nonswappable_insert(
                            ctx.swap,
                            *old(child_pt),
                            *child_pt,
                            p,
                        );
                    }
                } else {
                    let target = ctx.allocator.allocate().unwrap();
                    child_pt.map(addr, target);
                    s.flags.apply(child_pt, addr);
                    let data = if pe.present {
                        ctx.mem.read_page(pe.target / PAGE_SIZE)
                    } else {
                        ctx.swap.swapper.read_slot(pe.target)
                    };
                    ctx.mem.write_page(target / PAGE_SIZE, &data);
                    proof {
                        let p = page_of(addr);
                        assert(child_pt@ =~= old(child_pt)@.insert(p, child_pt@[p]));
                        lemma_unmapped_not_queued(ctx.swap, *old(child_pt), p);
                        assert(child_pt@.dom() =~= old(child_pt)@.dom().insert(p));
                        lemma_swap_consistent_nonswappable_insert(
                            ctx.swap,
                            *old(child_pt),
                            *child_pt,
                            p,
                        );
                    }
                    let ghost pre_swap = ctx.swap;
                    // The child's fresh page becomes an eviction candidate of
                    // its own table, as the parent's page already is of the
                    // parent's.
                    ctx.swap.set_swappable(child_pt, addr);
                    proof {
                        lemma_swap_consistent_push_other(
                            pre_swap,
                            ctx.swap,
                            *parent_pt,
                            (Frame {
                                page_table: child_pt.spec_token(),
                                virtaddr: page_start(addr),
                                token: child_pt.spec_token(),
                            }),
                        );
                    }
                }
            },
            MemoryHandler::Cow(c) => {
                let target = {
                    let mut e = parent_pt.get_entry(addr).unwrap();
                    let ret = e.target;
                    e.writable = false;
                    parent_pt.set_entry(addr, e);
                    ret
                };
                child_pt.map(addr, target);
                c.flags.apply(child_pt, addr);
                let mut e = child_pt.get_entry(addr).unwrap();
                e.writable = false;
                e.shared = true;
                child_pt.set_entry(addr, e);
                ctx.cow.map_to_shared(target, !c.flags.is_readonly());
                proof {
                    let p = page_of(addr);
                    assert(child_pt@ =~= old(child_pt)@.insert(p, child_pt@[p]));
                    assert(parent_pt@.dom() =~= old(parent_pt)@.dom().insert(p));
                    lemma_swap_consistent_nonswappable_insert(
                        ctx.swap,
                        *old(parent_pt),
                        *parent_pt,
                        p,
                    );
                    lemma_unmapped_not_queued(ctx.swap, *old(child_pt), p);
                    assert(child_pt@.dom() =~= old(child_pt)@.dom().insert(p));
                    lemma_swap_consistent_nonswappable_insert(
                        ctx.swap,
                        *old(child_pt),
                        *child_pt,
                        p,
                    );
                }
            },
        }
    }

    /// The handler a forked child's copy of the region starts with: the
    /// swap-backed handler starts over with an empty delayed-allocation
    /// set, since a forked process re-materializes pages independently;
    /// every other handler carries its configuration over unchanged.
    pub fn clone_for_fork(&self) -> (r: MemoryHandler)
        ensures
            match *self {
                MemoryHandler::Swap(s) => r matches MemoryHandler::Swap(s1) && s1.flags == s.flags
                    && s1.delay_alloc@ == Seq::<usize>::empty(),
                _ => r == *self,
            },
    {
        match self {
            MemoryHandler::Simple(s) => MemoryHandler::Simple(
                SimpleMemoryHandler {
                    start_addr: s.start_addr,
                    phys_start_addr: s.phys_start_addr,
                    flags: s.flags,
                },
            ),
            MemoryHandler::Normal(n) => MemoryHandler::Normal(NormalMemoryHandler { flags: n.flags }),
            MemoryHandler::Swap(s) => MemoryHandler::Swap(
                SwapMemoryHandler { flags: s.flags, delay_alloc: Vec::new() },
            ),
            MemoryHandler::Cow(c) => MemoryHandler::Cow(CowMemoryHandler { flags: c.flags }),
        }
    }
}


/// A memory region: a half-open virtual address range owned by one memory
/// set, backed by exactly one handler.
pub struct MemoryArea {
    /// First virtual address of the region.
    pub start_addr: usize,
    /// First virtual address past the region.
    pub end_addr: usize,
    /// The region's backing policy.
    pub handler: MemoryHandler,
    /// A label for diagnostics.
    pub name: &'static str,
}

impl MemoryArea {
    /// Whether the region covers `addr`.
    pub open spec fn spec_contains(self, addr: usize) -> bool {
        self.start_addr <= addr < self.end_addr
    }

    /// A region over `[start_addr, end_addr)` backed by `handler`.
    pub fn new(
        start_addr: usize,
        end_addr: usize,
        handler: MemoryHandler,
        name: &'static str,
    ) -> (r: Self)
        ensures
            r.start_addr == start_addr,
            r.end_addr == end_addr,
            r.handler == handler,
            r.name == name,
    {
        MemoryArea { start_addr, end_addr, handler, name }
    }

    /// Whether the region covers `addr`.
    pub fn contains(&self, addr: usize) -> (r: bool)
        ensures
            r == self.spec_contains(addr),
    {
        self.start_addr <= addr && addr < self.end_addr
    }
}

/// The index of the first region in `areas` that covers `addr`, or `-1`
/// when none does.
pub open spec fn find_area_spec(areas: Seq<MemoryArea>, addr: usize) -> int
    decreases areas.len(),
{
    if areas.len() == 0 {
        -1
    } else if areas[0].spec_contains(addr) {
        0
    } else {
        let rest = find_area_spec(areas.subrange(1, areas.len() as int), addr);
        if rest == -1 {
            -1
        } else {
            rest + 1
        }
    }
}

/// `find_area_spec` returns a covering region when one exists, and `-1`
/// exactly when none does.
pub proof fn lemma_find_area(areas: Seq<MemoryArea>, addr: usize)
    ensures
        find_area_spec(areas, addr) == -1 ==> forall|i: int|
            0 <= i < areas.len() ==> !(#[trigger] areas[i]).spec_contains(addr),
        find_area_spec(areas, addr) != -1 ==> {
            let i = find_area_spec(areas, addr);
            &&& 0 <= i < areas.len()
            &&& areas[i].spec_contains(addr)
            &&& forall|j: int| 0 <= j < i ==> !(#[trigger] areas[j]).spec_contains(addr)
        },
    decreases areas.len(),
{
    if areas.len() > 0 {
        let rest = areas.subrange(1, areas.len() as int);
        lemma_find_area(rest, addr);
        if !areas[0].spec_contains(addr) {
            let fr = find_area_spec(rest, addr);
            if fr == -1 {
                assert forall|i: int| 0 <= i < areas.len() implies !(
                #[trigger] areas[i]).spec_contains(addr) by {
                    if i >= 1 {
                        assert(areas[i] == rest[i - 1]);
                    }
                }
            } else {
                assert(areas[fr + 1] == rest[fr]);
                assert forall|j: int| 0 <= j < fr + 1 implies !(
                #[trigger] areas[j]).spec_contains(addr) by {
                    if j >= 1 {
                        assert(areas[j] == rest[j - 1]);
                    }
                }
            }
        }
    }
}

/// A process's memory set: its regions and its (inactive) page table.
pub struct MemorySet {
    /// The regions, in the order they were pushed.
    pub areas: Vec<MemoryArea>,
    /// The process's page table.
    pub page_table: PageTable,
}

impl MemorySet {
    /// An empty memory set whose page table carries `token`.
    pub fn new(token: usize) -> (r: Self)
        ensures
            r.areas@ == Seq::<MemoryArea>::empty(),
            r.page_table@ == Map::<usize, PageTableEntry>::empty(),
            r.page_table.spec_token() == token,
    {
        MemorySet { areas: Vec::new(), page_table: PageTable::new(token) }
    }

    /// The token of the set's page table.
    pub fn token(&self) -> (t: usize)
        ensures
            t == self.page_table.spec_token(),
    {
        self.page_table.token()
    }

    /// The index of the first region covering `addr`, if any.
    pub fn find_area(&self, addr: usize) -> (r: Option<usize>)
        ensures
            match r {
                Some(i) => i == find_area_spec(self.areas@, addr) && i < self.areas@.len()
                    && self.areas@[i as int].spec_contains(addr),
                None => find_area_spec(self.areas@, addr) == -1,
            },
    {
        proof {
            lemma_find_area(self.areas@, addr);
        }
        let n = self.areas.len();
        let mut i: usize = 0;
        while i < n
            invariant
                i <= n,
                n == self.areas@.len(),
                forall|j: int| 0 <= j < i ==> !(#[trigger] self.areas@[j]).spec_contains(addr),
            decreases n - i,
        {
            if self.areas[i].contains(addr) {
                proof {
                    lemma_find_area(self.areas@, addr);
                    let f = find_area_spec(self.areas@, addr);
                    assert(f != -1) by {
                        if f == -1 {
                            assert(!self.areas@[i as int].spec_contains(addr));
                        }
                    }
                    assert(f >= i as int);
                    assert(f <= i as int);
                }
                return Some(i);
            }
            i = i + 1;
        }
        proof {
            lemma_find_area(self.areas@, addr);
            let f = find_area_spec(self.areas@, addr);
            if f != -1 {
                assert(!self.areas@[f].spec_contains(addr));
            }
        }
        None
    }
}

/// The page-fault dispatcher: find the unique region of the set that
/// covers the faulting address and delegate to its handler.  When no
/// region covers the address the fault is unresolved — an illegal access,
/// and the enclosing kernel terminates the process.  The handler's verdict
/// is returned verbatim to the trap layer: true means execution may resume
/// at the faulting instruction.
pub fn page_fault_handler(set: &mut MemorySet, ctx: &mut MemoryContext, addr: usize) -> (resolved:
    bool)
    requires
        ({
            let f = find_area_spec(old(set).areas@, addr);
            f != -1 ==> fault_pre(
                old(set).areas@[f].handler,
                *old(ctx),
                old(set).page_table,
                addr,
            )
        }),
    ensures
        final(set).areas@ == old(set).areas@,
        ({
            let f = find_area_spec(old(set).areas@, addr);
            if f == -1 {
                &&& !resolved
                &&& final(set).page_table@ == old(set).page_table@
                &&& final(set).page_table.spec_token() == old(set).page_table.spec_token()
                &&& final(ctx).allocator@ == old(ctx).allocator@
                &&& final(ctx).mem@ == old(ctx).mem@
                &&& final(ctx).swap.manager@ == old(ctx).swap.manager@
                &&& final(ctx).swap.swapper@ == old(ctx).swap.swapper@
                &&& final(ctx).cow.rc_map@ == old(ctx).cow.rc_map@
            } else {
                fault_post(
                    old(set).areas@[f].handler,
                    *old(ctx),
                    old(set).page_table,
                    *final(ctx),
                    final(set).page_table,
                    addr,
                    resolved,
                )
            }
        }),
{
    let target_area = set.find_area(addr);
    match target_area {
        Some(i) => {
            let area = &set.areas[i];
            area.handler.page_fault_handler(ctx, &mut set.page_table, addr)
        },
        None => false,
    }
}


/// Whether virtual page `p` lies inside the region's range.
pub open spec fn region_page(area: MemoryArea, p: usize) -> bool {
    page_of(area.start_addr) <= p <= page_of((area.end_addr - 1) as usize)
}

/// The number of pages the region covers.
pub open spec fn region_len(area: MemoryArea) -> int {
    page_of((area.end_addr - 1) as usize) - page_of(area.start_addr) + 1
}

/// The shape of the entry that mapping a region leaves at page `p`, per
/// the region's policy, together with the bookkeeping that came with it.
pub open spec fn pushed_entry(
    h: MemoryHandler,
    ctx: MemoryContext,
    pt: PageTable,
    p: usize,
) -> bool {
    let e = pt@[p];
    let addr = (p * PAGE_SIZE) as usize;
    let writable = !handler_flags(h).readonly;
    &&& pt@.contains_key(p)
    &&& match h {
        MemoryHandler::Simple(s) => e == (PageTableEntry {
            present: true,
            writable,
            shared: false,
            swapped: false,
            target: s.target_of(addr),
        }),
        MemoryHandler::Normal(n) => {
            &&& e.present
            &&& !e.swapped
            &&& !e.shared
            &&& e.writable == writable
            &&& page_of(e.target) < ctx.allocator@.len()
            &&& !ctx.allocator@[page_of(e.target) as int]
        },
        MemoryHandler::Swap(s) => if s.delayed(addr) {
            e == (PageTableEntry {
                present: false,
                writable,
                shared: false,
                swapped: false,
                target: 0,
            })
        } else {
            &&& e.present
            &&& !e.swapped
            &&& !e.shared
            &&& e.writable == writable
            &&& page_of(e.target) < ctx.allocator@.len()
            &&& !ctx.allocator@[page_of(e.target) as int]
            &&& has_desc(ctx.swap.manager@, pt.spec_token(), addr)
        },
        MemoryHandler::Cow(c) => {
            &&& e.present
            &&& !e.swapped
            &&& e.shared
            &&& e.writable == writable
            &&& page_of(e.target) < ctx.allocator@.len()
            &&& !ctx.allocator@[page_of(e.target) as int]
            &&& rc_total(ctx.cow.rc_map@, page_of(e.target)) >= 1
        },
    }
}

/// What `MemorySet::push` demands of the state it is given.
pub open spec fn push_pre(area: MemoryArea, ctx: MemoryContext, pt: PageTable) -> bool {
    &&& ctx.wf()
    &&& swap_consistent(ctx.swap, pt)
    &&& area.start_addr < area.end_addr
    &&& forall|p: usize| region_page(area, p) ==> !pt@.contains_key(p)
    &&& match area.handler {
        MemoryHandler::Simple(s) => forall|p: usize|
            region_page(area, p) ==> s.start_addr <= p * PAGE_SIZE && (p * PAGE_SIZE
                - s.start_addr) + s.phys_start_addr <= usize::MAX,
        MemoryHandler::Normal(n) => crate::frames::count_free(ctx.allocator@) >= region_len(area),
        MemoryHandler::Swap(s) => {
            &&& crate::frames::count_free(ctx.allocator@) >= region_len(area)
            &&& forall|p: usize|
                region_page(area, p) ==> !page_queued(ctx.swap.manager@, pt.spec_token(), p)
            &&& targets_in_range(pt, ctx.mem@.len() as int)
        },
        MemoryHandler::Cow(c) => {
            &&& crate::frames::count_free(ctx.allocator@) >= region_len(area)
            &&& forall|f: int|
                0 <= f < ctx.allocator@.len() && ctx.allocator@[f] ==> rc_total(
                    ctx.cow.rc_map@,
                    f as usize,
                ) < 0xffff
        },
    }
}

impl MemorySet {
    /// Install a new region: map every page of its range through its
    /// handler, then record the region.  The region's pages must be
    /// unmapped beforehand and there must be a free frame for each page
    /// the policy backs eagerly.
    #[verifier::loop_isolation(false)]
    #[verifier::rlimit(100)]
    pub fn push(&mut self, ctx: &mut MemoryContext, area: MemoryArea)
        requires
            push_pre(area, *old(ctx), old(self).page_table),
        ensures
            final(self).areas@ == old(self).areas@.push(area),
            final(self).page_table.spec_token() == old(self).page_table.spec_token(),
            final(ctx).wf(),
            swap_consistent(final(ctx).swap, final(self).page_table),
            forall|p: usize|
                region_page(area, p) ==> pushed_entry(
                    area.handler,
                    *final(ctx),
                    final(self).page_table,
                    p,
                ),
            forall|p: usize|
                !region_page(area, p) ==> (final(self).page_table@.contains_key(p) <==> old(
                    self,
                ).page_table@.contains_key(p)) && (old(self).page_table@.contains_key(p)
                    ==> final(self).page_table@[p] == old(self).page_table@[p]),
            final(ctx).mem@ == old(ctx).mem@,
            final(ctx).swap.swapper@ == old(ctx).swap.swapper@,
            final(ctx).allocator@.len() == old(ctx).allocator@.len(),
            forall|i: int|
                0 <= i < final(ctx).allocator@.len() && final(ctx).allocator@[i] ==> old(
                    ctx,
                ).allocator@[i],
            !(area.handler is Swap) ==> final(ctx).swap.manager@ == old(ctx).swap.manager@,
            area.handler is Swap ==> final(ctx).swap.manager@.len() >= old(
                ctx,
            ).swap.manager@.len() && final(ctx).swap.manager@.subrange(
                0,
                old(ctx).swap.manager@.len() as int,
            ) == old(ctx).swap.manager@ && targets_in_range(
                final(self).page_table,
                final(ctx).mem@.len() as int,
            ),
            !(area.handler is Cow) ==> final(ctx).cow.rc_map@ == old(ctx).cow.rc_map@,
            crate::frames::count_free(final(ctx).allocator@) >= crate::frames::count_free(
                old(ctx).allocator@,
            ) - region_len(area),
            forall|f: int|
                0 <= f < final(ctx).allocator@.len() && final(ctx).allocator@[f] ==> rc_read(
                    final(ctx).cow.rc_map@,
                    f as usize,
                ) == rc_read(old(ctx).cow.rc_map@, f as usize) && rc_write(
                    final(ctx).cow.rc_map@,
                    f as usize,
                ) == rc_write(old(ctx).cow.rc_map@, f as usize),
            forall|f: usize|
                rc_read(final(ctx).cow.rc_map@, f) >= rc_read(old(ctx).cow.rc_map@, f)
                    && rc_write(final(ctx).cow.rc_map@, f) >= rc_write(old(ctx).cow.rc_map@, f),
    {
        let start = area.start_addr;
        let end = area.end_addr;
        let mut p: usize = start / PAGE_SIZE;
        let last: usize = (end - 1) / PAGE_SIZE;
        proof {
            lemma_page_start_le((end - 1) as usize);
        }
        while p <= last
            invariant
                page_of(area.start_addr) <= p as int <= last + 1,
                ctx.wf(),
                swap_consistent(ctx.swap, self.page_table),
                self.page_table.spec_token() == old(self).page_table.spec_token(),
                self.areas@ == old(self).areas@,
                !(area.handler is Simple) ==> crate::frames::count_free(ctx.allocator@) >= last
                    + 1 - p,
                crate::frames::count_free(ctx.allocator@) >= crate::frames::count_free(
                    old(ctx).allocator@,
                ) - (p - page_of(area.start_addr)),
                forall|f: int|
                    0 <= f < ctx.allocator@.len() && ctx.allocator@[f] ==> rc_read(
                        ctx.cow.rc_map@,
                        f as usize,
                    ) == rc_read(old(ctx).cow.rc_map@, f as usize) && rc_write(
                        ctx.cow.rc_map@,
                        f as usize,
                    ) == rc_write(old(ctx).cow.rc_map@, f as usize),
                forall|f: usize|
                    rc_read(ctx.cow.rc_map@, f) >= rc_read(old(ctx).cow.rc_map@, f) && rc_write(
                        ctx.cow.rc_map@,
                        f,
                    ) >= rc_write(old(ctx).cow.rc_map@, f),
                ctx.allocator@.len() == old(ctx).allocator@.len(),
                forall|i: int|
                    0 <= i < ctx.allocator@.len() && ctx.allocator@[i] ==> old(ctx).allocator@[i],
                ctx.mem@ == old(ctx).mem@,
                ctx.swap.swapper@ == old(ctx).swap.swapper@,
                forall|q: usize|
                    region_page(area, q) && q >= p ==> !self.page_table@.contains_key(q),
                forall|q: usize|
                    region_page(area, q) && q < p ==> pushed_entry(
                        area.handler,
                        *ctx,
                        self.page_table,
                        q,
                    ),
                forall|q: usize|
                    !region_page(area, q) ==> (self.page_table@.contains_key(q) <==> old(
                        self,
                    ).page_table@.contains_key(q)) && (old(self).page_table@.contains_key(q)
                        ==> self.page_table@[q] == old(self).page_table@[q]),
                !(area.handler is Swap) ==> ctx.swap.manager@ == old(ctx).swap.manager@,
                area.handler is Swap ==> {
                    &&& ctx.swap.manager@.len() >= old(ctx).swap.manager@.len()
                    &&& ctx.swap.manager@.subrange(0, old(ctx).swap.manager@.len() as int) == old(
                        ctx,
                    ).swap.manager@
                    &&& forall|q: usize|
                        region_page(area, q) && q >= p ==> !page_queued(
                            ctx.swap.manager@,
                            self.page_table.spec_token(),
                            q,
                        )
                    &&& targets_in_range(self.page_table, ctx.mem@.len() as int)
                },
                !(area.handler is Cow) ==> ctx.cow.rc_map@ == old(ctx).cow.rc_map@,
                area.handler is Cow ==> forall|f: int|
                    0 <= f < ctx.allocator@.len() && ctx.allocator@[f] ==> rc_total(
                        ctx.cow.rc_map@,
                        f as usize,
                    ) < 0xffff,
            decreases last + 1 - p,
        {
            proof {
                assert(p * PAGE_SIZE <= last * PAGE_SIZE && last * PAGE_SIZE + PAGE_SIZE <= (last
                    + 1) * PAGE_SIZE && (p * PAGE_SIZE) / (PAGE_SIZE as int) == p as int)
                    by (nonlinear_arith)
                    requires 0 <= p as int <= last as int, PAGE_SIZE == 4096;
                assert(region_page(area, p));
                if !(area.handler is Simple) {
                    assert(crate::frames::count_free(ctx.allocator@) >= 1);
                    crate::frames::lemma_count_free_pos(ctx.allocator@);
                    assert(ctx.allocator.has_free());
                    crate::frames::lemma_first_free(ctx.allocator);
                }
            }
            let addr = p * PAGE_SIZE;
            let ghost prev_ctx = *ctx;
            let ghost prev_pt = self.page_table;
            area.handler.map(ctx, &mut self.page_table, addr);
            proof {
                let consumed: int = if area.handler is Simple {
                    0
                } else if area.handler is Swap {
                    if (area.handler->Swap_0).delayed(addr) {
                        0
                    } else {
                        1
                    }
                } else {
                    1
                };
                if consumed == 1 {
                    crate::frames::lemma_count_free_update(
                        prev_ctx.allocator@,
                        prev_ctx.allocator.first_free(),
                    );
                }
                assert(pushed_entry(area.handler, *ctx, self.page_table, p)) by {
                    if area.handler is Swap {
                        let sw = area.handler->Swap_0;
                        if !sw.delayed(addr) {
                            let d = ctx.swap.manager@[ctx.swap.manager@.len() - 1];
                            assert(d.token == self.page_table.spec_token() && d.virtaddr
                                == page_start(addr));
                            lemma_page_start_le(addr);
                            assert(page_start(addr) == addr);
                            assert(has_desc(ctx.swap.manager@, self.page_table.spec_token(), addr));
                        }
                    }
                }
                assert forall|q: usize|
                    region_page(area, q) && q < p + 1 implies pushed_entry(
                    area.handler,
                    *ctx,
                    self.page_table,
                    q,
                ) by {
                    if q < p {
                        assert(pushed_entry(area.handler, prev_ctx, prev_pt, q));
                        assert(q != p);
                        assert(self.page_table@[q] == prev_pt@[q]);
                        if area.handler is Swap {
                            let sw = area.handler->Swap_0;
                            let qaddr = (q * PAGE_SIZE) as usize;
                            if !sw.delayed(qaddr) {
                                let w = choose|i: int|
                                    0 <= i < prev_ctx.swap.manager@.len() && (
                                    #[trigger] prev_ctx.swap.manager@[i]).token
                                        == prev_pt.spec_token()
                                        && prev_ctx.swap.manager@[i].virtaddr == qaddr;
                                assert(ctx.swap.manager@[w] == prev_ctx.swap.manager@[w]);
                            }
                        }
                        if area.handler is Cow {
                            let cw = area.handler->Cow_0;
                            let f = page_of(prev_pt@[q].target);
                            let i = prev_ctx.allocator.first_free();
                            crate::cow::lemma_rc_inc_total(
                                prev_ctx.cow.rc_map@,
                                i as usize,
                                !cw.flags.readonly,
                                f,
                            );
                        }
                    }
                }
                if area.handler is Cow {
                    let cw = area.handler->Cow_0;
                    let i = prev_ctx.allocator.first_free();
                    assert forall|f: int|
                        0 <= f < ctx.allocator@.len() && ctx.allocator@[f] implies rc_total(
                        ctx.cow.rc_map@,
                        f as usize,
                    ) < 0xffff && rc_read(ctx.cow.rc_map@, f as usize) == rc_read(
                        prev_ctx.cow.rc_map@,
                        f as usize,
                    ) && rc_write(ctx.cow.rc_map@, f as usize) == rc_write(
                        prev_ctx.cow.rc_map@,
                        f as usize,
                    ) by {
                        assert(f != i);
                        crate::cow::lemma_rc_inc_total(
                            prev_ctx.cow.rc_map@,
                            i as usize,
                            !cw.flags.readonly,
                            f as usize,
                        );
                    }
                }
                if area.handler is Swap {
                    assert(ctx.swap.manager@.subrange(0, old(ctx).swap.manager@.len() as int)
                        =~= old(ctx).swap.manager@);
                    assert forall|q: usize|
                        region_page(area, q) && q >= p + 1 implies !page_queued(
                        ctx.swap.manager@,
                        self.page_table.spec_token(),
                        q,
                    ) by {
                        let tok = self.page_table.spec_token();
                        if page_queued(ctx.swap.manager@, tok, q) {
                            let w = choose|i: int|
                                0 <= i < ctx.swap.manager@.len() && (
                                #[trigger] ctx.swap.manager@[i]).token == tok && page_of(
                                    ctx.swap.manager@[i].virtaddr,
                                ) == q;
                            let sw = area.handler->Swap_0;
                            if sw.delayed(addr) {
                                assert(page_queued(prev_ctx.swap.manager@, tok, q));
                            } else {
                                if w < ctx.swap.manager@.len() - 1 {
                                    assert(ctx.swap.manager@[w] == prev_ctx.swap.manager@[w]);
                                    assert(page_queued(prev_ctx.swap.manager@, tok, q));
                                } else {
                                    lemma_page_start_le(addr);
                                    assert(page_of(ctx.swap.manager@[w].virtaddr) == p as usize);
                                }
                            }
                        }
                    }
                }
            }
            p = p + 1;
        }
        self.areas.push(area);
    }
}


/// Whether two handlers embody the same policy and configuration; the
/// swap-backed pair may differ in their delayed-allocation sets.
pub open spec fn same_policy(a: MemoryHandler, b: MemoryHandler) -> bool {
    match (a, b) {
        (MemoryHandler::Simple(x), MemoryHandler::Simple(y)) => y == x,
        (MemoryHandler::Normal(x), MemoryHandler::Normal(y)) => y == x,
        (MemoryHandler::Swap(x), MemoryHandler::Swap(y)) => y.flags == x.flags,
        (MemoryHandler::Cow(x), MemoryHandler::Cow(y)) => y == x,
        _ => false,
    }
}

/// Whether table contents `b` are table contents `a` with some writable
/// bits cleared: same pages, and every entry unchanged except that it may
/// have been downgraded to read-only.  This is what fork-time cloning does
/// to the parent's table.
pub open spec fn entries_downgraded(
    a: Map<usize, PageTableEntry>,
    b: Map<usize, PageTableEntry>,
) -> bool {
    &&& b.dom() == a.dom()
    &&& forall|p: usize|
        a.contains_key(p) ==> {
            let x = a[p];
            let y = #[trigger] b[p];
            &&& y.present == x.present
            &&& y.swapped == x.swapped
            &&& y.target == x.target
            &&& y.shared == x.shared
            &&& (y.writable == x.writable || !y.writable)
        }
}

/// The entry one clone-at-fork leaves in the child table for page `p`,
/// per the region's policy, judged against the parent table and the
/// copy-on-write counts as they stood at fork time.
pub open spec fn cloned_entry(
    h: MemoryHandler,
    opt: Map<usize, PageTableEntry>,
    ocow: Map<usize, (u16, u16)>,
    ctx: MemoryContext,
    child: PageTable,
    p: usize,
) -> bool {
    let pe = opt[p];
    let ce = child@[p];
    let writable = !handler_flags(h).readonly;
    &&& child@.contains_key(p)
    &&& match h {
        MemoryHandler::Simple(s) => ce == (PageTableEntry {
            present: true,
            writable,
            shared: false,
            swapped: false,
            target: s.target_of((p * PAGE_SIZE) as usize),
        }),
        MemoryHandler::Normal(n) => {
            &&& ce.present
            &&& !ce.swapped
            &&& !ce.shared
            &&& ce.writable == writable
            &&& page_of(ce.target) < ctx.allocator@.len()
            &&& !ctx.allocator@[page_of(ce.target) as int]
            &&& ce.target != pe.target
        },
        MemoryHandler::Swap(s) => if !pe.present && !pe.swapped {
            ce == (PageTableEntry {
                present: false,
                writable,
                shared: false,
                swapped: false,
                target: 0,
            })
        } else {
            &&& ce.present
            &&& !ce.swapped
            &&& !ce.shared
            &&& ce.writable == writable
            &&& page_of(ce.target) < ctx.allocator@.len()
            &&& !ctx.allocator@[page_of(ce.target) as int]
            &&& pe.present ==> ce.target != pe.target
            &&& has_desc(ctx.swap.manager@, child.spec_token(), (p * PAGE_SIZE) as usize)
        },
        MemoryHandler::Cow(c) => {
            &&& ce == (PageTableEntry {
                present: true,
                writable: false,
                shared: true,
                swapped: false,
                target: pe.target,
            })
            &&& rc_total(ctx.cow.rc_map@, page_of(pe.target)) >= rc_total(
                ocow,
                page_of(pe.target),
            ) + 1
        },
    }
}

/// What cloning one whole region at fork time demands of the state.
pub open spec fn clone_area_pre(
    h: MemoryHandler,
    start: usize,
    end: usize,
    ctx: MemoryContext,
    parent: PageTable,
    child: PageTable,
) -> bool {
    let first = page_of(start);
    let last = page_of((end - 1) as usize);
    let rlen = last - first + 1;
    &&& ctx.wf()
    &&& swap_consistent(ctx.swap, parent)
    &&& swap_consistent(ctx.swap, child)
    &&& child.spec_token() != parent.spec_token()
    &&& start < end
    &&& forall|p: usize|
        first <= p <= last ==> parent@.contains_key(p) && !child@.contains_key(p)
    &&& crate::frames::count_free(ctx.allocator@) >= rlen
    &&& forall|f: usize|
        rc_read(ctx.cow.rc_map@, f) + rlen <= 0xffff && rc_write(ctx.cow.rc_map@, f) + rlen
            <= 0xffff
    &&& match h {
        MemoryHandler::Simple(s) => forall|p: usize|
            first <= p <= last ==> s.start_addr <= #[trigger] (p * PAGE_SIZE) && (p * PAGE_SIZE
                - s.start_addr) + s.phys_start_addr <= usize::MAX,
        MemoryHandler::Normal(n) => forall|p: usize|
            first <= p <= last ==> (#[trigger] parent@[p]).present && page_of(parent@[p].target)
                < ctx.mem@.len() && !ctx.allocator@[page_of(parent@[p].target) as int],
        MemoryHandler::Swap(s) => forall|p: usize|
            first <= p <= last && (#[trigger] parent@[p]).present ==> page_of(parent@[p].target)
                < ctx.mem@.len() && !ctx.allocator@[page_of(parent@[p].target) as int],
        MemoryHandler::Cow(c) => forall|p: usize|
            first <= p <= last ==> (#[trigger] parent@[p]).present && !parent@[p].swapped,
    }
}

/// Clone one region's pages into a child table at fork time: the
/// per-region loop of `MemorySet::clone_for_fork`, calling the handler's
/// clone-at-fork operation once per page.
#[verifier::loop_isolation(false)]
#[verifier::rlimit(100)]
fn clone_area_pages(
    h: &mut MemoryHandler,
    start: usize,
    end: usize,
    ctx: &mut MemoryContext,
    parent_pt: &mut PageTable,
    child_pt: &mut PageTable,
)
    requires
        clone_area_pre(*old(h), start, end, *old(ctx), *old(parent_pt), *old(child_pt)),
    ensures
        same_policy(*old(h), *final(h)),
        final(parent_pt).spec_token() == old(parent_pt).spec_token(),
        final(child_pt).spec_token() == old(child_pt).spec_token(),
        entries_downgraded(old(parent_pt)@, final(parent_pt)@),
        swap_consistent(final(ctx).swap, *final(parent_pt)),
        swap_consistent(final(ctx).swap, *final(child_pt)),
        forall|p: usize|
            final(child_pt)@.contains_key(p) <==> (old(child_pt)@.contains_key(p) || (page_of(
                start,
            ) <= p <= page_of((end - 1) as usize))),
        forall|p: usize|
            old(child_pt)@.contains_key(p) ==> final(child_pt)@[p] == old(child_pt)@[p],
        forall|p: usize|
            page_of(start) <= p <= page_of((end - 1) as usize) ==> cloned_entry(
                *old(h),
                old(parent_pt)@,
                old(ctx).cow.rc_map@,
                *final(ctx),
                *final(child_pt),
                p,
            ),
        *old(h) is Cow ==> forall|p: usize|
            page_of(start) <= p <= page_of((end - 1) as usize) ==> final(parent_pt)@[p] == (
            PageTableEntry { writable: false, ..old(parent_pt)@[p] }),
        final(ctx).wf(),
        final(ctx).swap.swapper@ == old(ctx).swap.swapper@,
        final(ctx).swap.manager@.len() >= old(ctx).swap.manager@.len(),
        final(ctx).swap.manager@.subrange(0, old(ctx).swap.manager@.len() as int) == old(
            ctx,
        ).swap.manager@,
        forall|i: int|
            old(ctx).swap.manager@.len() <= i < final(ctx).swap.manager@.len() ==> (
            #[trigger] final(ctx).swap.manager@[i]).token == old(child_pt).spec_token(),
        final(ctx).mem@.len() == old(ctx).mem@.len(),
        final(ctx).allocator@.len() == old(ctx).allocator@.len(),
        forall|i: int|
            0 <= i < final(ctx).allocator@.len() && final(ctx).allocator@[i] ==> old(
                ctx,
            ).allocator@[i],
        crate::frames::count_free(final(ctx).allocator@) >= crate::frames::count_free(
            old(ctx).allocator@,
        ) - (page_of((end - 1) as usize) - page_of(start) + 1),
        forall|f: usize|
            rc_read(old(ctx).cow.rc_map@, f) <= #[trigger] rc_read(final(ctx).cow.rc_map@, f)
                <= rc_read(old(ctx).cow.rc_map@, f) + (page_of((end - 1) as usize) - page_of(
                start,
            ) + 1),
        forall|f: usize|
            rc_write(old(ctx).cow.rc_map@, f) <= #[trigger] rc_write(final(ctx).cow.rc_map@, f)
                <= rc_write(old(ctx).cow.rc_map@, f) + (page_of((end - 1) as usize) - page_of(
                start,
            ) + 1),
{
    let mut p: usize = start / PAGE_SIZE;
    let last: usize = (end - 1) / PAGE_SIZE;
    proof {
        lemma_page_start_le((end - 1) as usize);
    }
    while p <= last
        invariant
            page_of(start) <= p as int <= last + 1,
            ctx.wf(),
            swap_consistent(ctx.swap, *parent_pt),
            swap_consistent(ctx.swap, *child_pt),
            same_policy(*old(h), *h),
            parent_pt.spec_token() == old(parent_pt).spec_token(),
            child_pt.spec_token() == old(child_pt).spec_token(),
            entries_downgraded(old(parent_pt)@, parent_pt@),
            forall|q: usize|
                child_pt@.contains_key(q) <==> (old(child_pt)@.contains_key(q) || (page_of(start)
                    <= q < p)),
            forall|q: usize|
                old(child_pt)@.contains_key(q) ==> child_pt@[q] == old(child_pt)@[q],
            forall|q: usize|
                page_of(start) <= q < p ==> cloned_entry(
                    *old(h),
                    old(parent_pt)@,
                    old(ctx).cow.rc_map@,
                    *ctx,
                    *child_pt,
                    q,
                ),
            *old(h) is Cow ==> forall|q: usize|
                page_of(start) <= q < p ==> parent_pt@[q] == (PageTableEntry {
                    writable: false,
                    ..old(parent_pt)@[q]
                }),
            ctx.swap.swapper@ == old(ctx).swap.swapper@,
            ctx.swap.manager@.len() >= old(ctx).swap.manager@.len(),
            ctx.swap.manager@.subrange(0, old(ctx).swap.manager@.len() as int) == old(
                ctx,
            ).swap.manager@,
            forall|i: int|
                old(ctx).swap.manager@.len() <= i < ctx.swap.manager@.len() ==> (
                #[trigger] ctx.swap.manager@[i]).token == old(child_pt).spec_token(),
            ctx.mem@.len() == old(ctx).mem@.len(),
            ctx.allocator@.len() == old(ctx).allocator@.len(),
            forall|i: int|
                0 <= i < ctx.allocator@.len() && ctx.allocator@[i] ==> old(ctx).allocator@[i],
            crate::frames::count_free(ctx.allocator@) >= crate::frames::count_free(
                old(ctx).allocator@,
            ) - (p - page_of(start)),
            crate::frames::count_free(ctx.allocator@) >= last + 1 - p,
            forall|f: usize|
                rc_read(old(ctx).cow.rc_map@, f) <= #[trigger] rc_read(ctx.cow.rc_map@, f)
                    <= rc_read(old(ctx).cow.rc_map@, f) + (p - page_of(start)),
            forall|f: usize|
                rc_write(old(ctx).cow.rc_map@, f) <= #[trigger] rc_write(ctx.cow.rc_map@, f)
                    <= rc_write(old(ctx).cow.rc_map@, f) + (p - page_of(start)),
            forall|f: usize|
                rc_read(ctx.cow.rc_map@, f) + (last + 1 - p) <= 0xffff && rc_write(
                    ctx.cow.rc_map@,
                    f,
                ) + (last + 1 - p) <= 0xffff,
        decreases last + 1 - p,
    {
        proof {
            assert(p * PAGE_SIZE <= last * PAGE_SIZE && last * PAGE_SIZE + PAGE_SIZE <= (last + 1)
                * PAGE_SIZE && (p * PAGE_SIZE) / (PAGE_SIZE as int) == p as int)
                by (nonlinear_arith)
                requires 0 <= p as int <= last as int, PAGE_SIZE == 4096;
            if !(*old(h) is Simple) {
                assert(crate::frames::count_free(ctx.allocator@) >= 1);
                crate::frames::lemma_count_free_pos(ctx.allocator@);
                assert(ctx.allocator.has_free());
                crate::frames::lemma_first_free(ctx.allocator);
            }
        }
        let addr = p * PAGE_SIZE;
        let ghost prev_ctx = *ctx;
        let ghost prev_parent = *parent_pt;
        let ghost prev_child = *child_pt;
        h.map_clone(ctx, parent_pt, child_pt, addr);
        proof {
            lemma_page_start_le(addr);
            let consumed: int = if *old(h) is Normal {
                1
            } else if *old(h) is Swap {
                let pe = prev_parent@[p as usize];
                if pe.present || pe.swapped {
                    1
                } else {
                    0
                }
            } else {
                0
            };
            if consumed == 1 {
                crate::frames::lemma_count_free_update(
                    prev_ctx.allocator@,
                    prev_ctx.allocator.first_free(),
                );
            }
            assert forall|f: usize|
                rc_read(prev_ctx.cow.rc_map@, f) <= #[trigger] rc_read(ctx.cow.rc_map@, f)
                    <= rc_read(prev_ctx.cow.rc_map@, f) + 1 && rc_write(prev_ctx.cow.rc_map@, f)
                    <= rc_write(ctx.cow.rc_map@, f) <= rc_write(prev_ctx.cow.rc_map@, f)
                    + 1 by {
                if *old(h) is Cow {
                    let cw = (*old(h))->Cow_0;
                    let f0 = page_of(prev_parent@[p as usize].target);
                    crate::cow::lemma_rc_inc_total(
                        prev_ctx.cow.rc_map@,
                        f0,
                        !cw.flags.readonly,
                        f,
                    );
                }
            }
            assert forall|f: usize|
                rc_read(ctx.cow.rc_map@, f) + (last - p as int) <= 0xffff && rc_write(
                    ctx.cow.rc_map@,
                    f,
                ) + (last - p as int) <= 0xffff by {
                assert(rc_read(prev_ctx.cow.rc_map@, f) + (last + 1 - p as int) <= 0xffff);
                assert(rc_write(prev_ctx.cow.rc_map@, f) + (last + 1 - p as int) <= 0xffff);
                assert(rc_read(ctx.cow.rc_map@, f) <= rc_read(prev_ctx.cow.rc_map@, f) + 1);
                assert(rc_write(ctx.cow.rc_map@, f) <= rc_write(prev_ctx.cow.rc_map@, f) + 1);
            }
            if *old(h) is Cow {
                assert(parent_pt@.dom() =~= prev_parent@.dom());
            }
            assert(entries_downgraded(old(parent_pt)@, parent_pt@)) by {
                assert forall|q: usize|
                    old(parent_pt)@.contains_key(q) implies {
                    let x = old(parent_pt)@[q];
                    let y = (#[trigger] parent_pt@[q]);
                    &&& y.present == x.present
                    &&& y.swapped == x.swapped
                    &&& y.target == x.target
                    &&& y.shared == x.shared
                    &&& (y.writable == x.writable || !y.writable)
                } by {
                    if q != p as usize {
                        assert(parent_pt@[q] == prev_parent@[q]);
                    }
                }
            }
            if ctx.swap.manager@.len() > prev_ctx.swap.manager@.len() {
                assert(ctx.swap.manager@.subrange(0, old(ctx).swap.manager@.len() as int)
                    =~= old(ctx).swap.manager@);
            }
            assert forall|q: usize|
                child_pt@.contains_key(q) <==> (old(child_pt)@.contains_key(q) || (page_of(start)
                    <= q < p + 1)) by {
                assert(child_pt@ == prev_child@.insert(p as usize, child_pt@[p as usize]));
            }
            assert(cloned_entry(
                *old(h),
                old(parent_pt)@,
                old(ctx).cow.rc_map@,
                *ctx,
                *child_pt,
                p as usize,
            )) by {
                assert(prev_parent@[p as usize].present == old(parent_pt)@[p as usize].present
                    && prev_parent@[p as usize].swapped == old(parent_pt)@[p as usize].swapped
                    && prev_parent@[p as usize].target == old(parent_pt)@[p as usize].target);
                if *old(h) is Swap {
                    let pe = prev_parent@[p as usize];
                    if pe.present || pe.swapped {
                        let d = ctx.swap.manager@[ctx.swap.manager@.len() - 1];
                        assert(d.token == child_pt.spec_token() && d.virtaddr == page_start(addr));
                        assert(page_start(addr) == addr);
                        assert(has_desc(ctx.swap.manager@, child_pt.spec_token(), addr));
                    }
                }
                if *old(h) is Cow {
                    let cw = (*old(h))->Cow_0;
                    let f0 = page_of(prev_parent@[p as usize].target);
                    assert(rc_total(prev_ctx.cow.rc_map@, f0) >= rc_total(
                        old(ctx).cow.rc_map@,
                        f0,
                    ));
                }
            }
            assert forall|q: usize|
                page_of(start) <= q < p + 1 implies cloned_entry(
                *old(h),
                old(parent_pt)@,
                old(ctx).cow.rc_map@,
                *ctx,
                *child_pt,
                q,
            ) by {
                if q < p {
                    assert(cloned_entry(
                        *old(h),
                        old(parent_pt)@,
                        old(ctx).cow.rc_map@,
                        prev_ctx,
                        prev_child,
                        q,
                    ));
                    assert(child_pt@[q] == prev_child@[q]);
                    if *old(h) is Swap {
                        let pe = old(parent_pt)@[q];
                        if pe.present || pe.swapped {
                            let w = choose|i: int|
                                0 <= i < prev_ctx.swap.manager@.len() && (
                                #[trigger] prev_ctx.swap.manager@[i]).token
                                    == old(child_pt).spec_token()
                                    && prev_ctx.swap.manager@[i].virtaddr == (q * PAGE_SIZE)
                                    as usize;
                            assert(ctx.swap.manager@[w] == prev_ctx.swap.manager@[w]);
                        }
                    }
                    if *old(h) is Cow {
                        let f = page_of(old(parent_pt)@[q].target);
                        assert(rc_total(ctx.cow.rc_map@, f) >= rc_total(prev_ctx.cow.rc_map@, f));
                    }
                }
            }
        }
        p = p + 1;
    }
}

/// What `MemorySet::clone_for_fork` demands of the state it is given:
/// every region's pages are mapped, regions do not overlap, and there are
/// enough free frames and reference-count headroom for all their pages.
pub open spec fn fork_pre(
    areas: Seq<MemoryArea>,
    ctx: MemoryContext,
    parent: PageTable,
    token: usize,
) -> bool {
    &&& ctx.wf()
    &&& swap_consistent(ctx.swap, parent)
    &&& token != parent.spec_token()
    &&& forall|i: int|
        0 <= i < ctx.swap.manager@.len() ==> (#[trigger] ctx.swap.manager@[i]).token != token
    &&& forall|i: int|
        0 <= i < areas.len() ==> (#[trigger] areas[i]).start_addr < areas[i].end_addr
    &&& forall|i: int, j: int, p: usize|
        0 <= i < j < areas.len() && #[trigger] region_page(areas[i], p) && #[trigger] region_page(
            areas[j],
            p,
        ) ==> false
    &&& crate::frames::count_free(ctx.allocator@) >= total_region_pages(areas)
    &&& forall|f: usize|
        rc_read(ctx.cow.rc_map@, f) + total_region_pages(areas) <= 0xffff && rc_write(
            ctx.cow.rc_map@,
            f,
        ) + total_region_pages(areas) <= 0xffff
    &&& forall|i: int, p: usize|
        0 <= i < areas.len() && #[trigger] region_page(areas[i], p) ==> parent@.contains_key(p)
    &&& forall|i: int|
        0 <= i < areas.len() ==> match (#[trigger] areas[i]).handler {
            MemoryHandler::Simple(s) => forall|p: usize|
                region_page(areas[i], p) ==> s.start_addr <= p * PAGE_SIZE && (p * PAGE_SIZE
                    - s.start_addr) + s.phys_start_addr <= usize::MAX,
            MemoryHandler::Normal(n) => forall|p: usize|
                region_page(areas[i], p) ==> (#[trigger] parent@[p]).present && page_of(
                    parent@[p].target,
                ) < ctx.mem@.len() && !ctx.allocator@[page_of(parent@[p].target) as int],
            MemoryHandler::Swap(s) => forall|p: usize|
                region_page(areas[i], p) && (#[trigger] parent@[p]).present ==> page_of(
                    parent@[p].target,
                ) < ctx.mem@.len() && !ctx.allocator@[page_of(parent@[p].target) as int],
            MemoryHandler::Cow(c) => forall|p: usize|
                region_page(areas[i], p) ==> (#[trigger] parent@[p]).present
                    && !parent@[p].swapped,
        }
}

/// The number of pages all the regions cover together.
pub open spec fn total_region_pages(areas: Seq<MemoryArea>) -> int
    decreases areas.len(),
{
    if areas.len() == 0 {
        0
    } else {
        region_len(areas[0]) + total_region_pages(areas.subrange(1, areas.len() as int))
    }
}

/// Each region covers at least one page, so the total only shrinks as
/// regions are consumed from the front.
proof fn lemma_total_region_pages_drop(areas: Seq<MemoryArea>, k: int)
    requires
        0 <= k < areas.len(),
        forall|i: int|
            0 <= i < areas.len() ==> (#[trigger] areas[i]).start_addr < areas[i].end_addr,
    ensures
        total_region_pages(areas.subrange(k, areas.len() as int)) == region_len(areas[k])
            + total_region_pages(areas.subrange(k + 1, areas.len() as int)),
        total_region_pages(areas.subrange(k, areas.len() as int)) >= region_len(areas[k]),
        total_region_pages(areas.subrange(k + 1, areas.len() as int)) >= 0,
    decreases areas.len() - k,
{
    let tail = areas.subrange(k, areas.len() as int);
    assert(tail[0] == areas[k]);
    assert(tail.subrange(1, tail.len() as int) =~= areas.subrange(k + 1, areas.len() as int));
    if k + 1 < areas.len() {
        lemma_total_region_pages_drop(areas, k + 1);
        let a = areas[k + 1];
        lemma_page_start_le((a.end_addr - 1) as usize);
        assert(region_len(a) >= 1) by {
            assert(page_of(a.start_addr) <= page_of((a.end_addr - 1) as usize)) by (nonlinear_arith)
                requires a.start_addr < a.end_addr, PAGE_SIZE == 4096;
        }
    } else {
        assert(areas.subrange(k + 1, areas.len() as int).len() == 0);
    }
}

impl MemorySet {
    /// Clone this memory set for a forking process: build a child set with
    /// a fresh page table under `new_token`, cloning every region
    /// page by page through its handler's clone-at-fork operation.
    /// Copy-on-write regions end up sharing frames, with the parent's
    /// entries downgraded to read-only; the other policies give the child
    /// private copies or delayed allocations, and a swap-backed region's
    /// materialized pages are queued as eviction candidates of the child's
    /// table.
    #[verifier::loop_isolation(false)]
    #[verifier::rlimit(100)]
    pub fn clone_for_fork(&mut self, ctx: &mut MemoryContext, new_token: usize) -> (child:
        MemorySet)
        requires
            fork_pre(old(self).areas@, *old(ctx), old(self).page_table, new_token),
        ensures
            final(self).areas@ == old(self).areas@,
            final(self).page_table.spec_token() == old(self).page_table.spec_token(),
            entries_downgraded(old(self).page_table@, final(self).page_table@),
            swap_consistent(final(ctx).swap, final(self).page_table),
            swap_consistent(final(ctx).swap, child.page_table),
            final(ctx).wf(),
            final(ctx).swap.swapper@ == old(ctx).swap.swapper@,
            final(ctx).swap.manager@.subrange(0, old(ctx).swap.manager@.len() as int) == old(
                ctx,
            ).swap.manager@,
            final(ctx).swap.manager@.len() >= old(ctx).swap.manager@.len(),
            forall|i: int|
                old(ctx).swap.manager@.len() <= i < final(ctx).swap.manager@.len() ==> (
                #[trigger] final(ctx).swap.manager@[i]).token == new_token,
            child.page_table.spec_token() == new_token,
            child.areas@.len() == old(self).areas@.len(),
            forall|i: int|
                0 <= i < child.areas@.len() ==> {
                    let a = old(self).areas@[i];
                    let b = #[trigger] child.areas@[i];
                    &&& b.start_addr == a.start_addr
                    &&& b.end_addr == a.end_addr
                    &&& b.name == a.name
                    &&& same_policy(a.handler, b.handler)
                },
            forall|k: int, p: usize|
                0 <= k < old(self).areas@.len() && #[trigger] region_page(old(self).areas@[k], p)
                    ==> cloned_entry(
                    old(self).areas@[k].handler,
                    old(self).page_table@,
                    old(ctx).cow.rc_map@,
                    *final(ctx),
                    child.page_table,
                    p,
                ),
            forall|k: int, p: usize|
                0 <= k < old(self).areas@.len() && #[trigger] region_page(old(self).areas@[k], p)
                    && old(self).areas@[k].handler is Cow ==> final(self).page_table@[p] == (
                PageTableEntry { writable: false, ..old(self).page_table@[p] }),
            forall|p: usize|
                child.page_table@.contains_key(p) <==> exists|i: int|
                    0 <= i < old(self).areas@.len() && region_page(
                        #[trigger] old(self).areas@[i],
                        p,
                    ),
    {
        let mut child = MemorySet::new(new_token);
        let n = self.areas.len();
        proof {
            assert(old(self).areas@.subrange(0, n as int) =~= old(self).areas@);
            assert forall|i: int|
                0 <= i < ctx.swap.manager@.len() && (#[trigger] ctx.swap.manager@[i]).token
                    == child.page_table.spec_token() implies crate::swap::desc_ok(
                ctx.swap.manager@[i],
                child.page_table,
            ) by {
                assert(ctx.swap.manager@[i].token != new_token);
            }
        }
        let mut i: usize = 0;
        while i < n
            invariant
                i <= n,
                n == self.areas@.len(),
                self.areas@ == old(self).areas@,
                self.page_table.spec_token() == old(self).page_table.spec_token(),
                entries_downgraded(old(self).page_table@, self.page_table@),
                ctx.wf(),
                swap_consistent(ctx.swap, self.page_table),
                swap_consistent(ctx.swap, child.page_table),
                ctx.swap.swapper@ == old(ctx).swap.swapper@,
                ctx.swap.manager@.subrange(0, old(ctx).swap.manager@.len() as int) == old(
                    ctx,
                ).swap.manager@,
                ctx.swap.manager@.len() >= old(ctx).swap.manager@.len(),
                forall|k: int|
                    old(ctx).swap.manager@.len() <= k < ctx.swap.manager@.len() ==> (
                    #[trigger] ctx.swap.manager@[k]).token == new_token,
                ctx.mem@.len() == old(ctx).mem@.len(),
                ctx.allocator@.len() == old(ctx).allocator@.len(),
                forall|f: int|
                    0 <= f < ctx.allocator@.len() && ctx.allocator@[f] ==> old(ctx).allocator@[f],
                forall|f: usize|
                    rc_read(ctx.cow.rc_map@, f) >= rc_read(old(ctx).cow.rc_map@, f) && rc_write(
                        ctx.cow.rc_map@,
                        f,
                    ) >= rc_write(old(ctx).cow.rc_map@, f),
                child.page_table.spec_token() == new_token,
                child.areas@.len() == i,
                forall|k: int|
                    0 <= k < i as int ==> {
                        let a = old(self).areas@[k];
                        let b = #[trigger] child.areas@[k];
                        &&& b.start_addr == a.start_addr
                        &&& b.end_addr == a.end_addr
                        &&& b.name == a.name
                        &&& same_policy(a.handler, b.handler)
                    },
                forall|k: int, p: usize|
                    0 <= k < i as int && #[trigger] region_page(old(self).areas@[k], p)
                        ==> cloned_entry(
                        old(self).areas@[k].handler,
                        old(self).page_table@,
                        old(ctx).cow.rc_map@,
                        *ctx,
                        child.page_table,
                        p,
                    ),
                forall|k: int, p: usize|
                    0 <= k < i as int && #[trigger] region_page(old(self).areas@[k], p)
                        && old(self).areas@[k].handler is Cow ==> self.page_table@[p] == (
                    PageTableEntry { writable: false, ..old(self).page_table@[p] }),
                forall|p: usize|
                    child.page_table@.contains_key(p) <==> exists|k: int|
                        0 <= k < i as int && region_page(#[trigger] old(self).areas@[k], p),
                crate::frames::count_free(ctx.allocator@) >= total_region_pages(
                    old(self).areas@.subrange(i as int, n as int),
                ),
                forall|f: usize|
                    rc_read(ctx.cow.rc_map@, f) + total_region_pages(
                        old(self).areas@.subrange(i as int, n as int),
                    ) <= 0xffff && rc_write(ctx.cow.rc_map@, f) + total_region_pages(
                        old(self).areas@.subrange(i as int, n as int),
                    ) <= 0xffff,
            decreases n - i,
        {
            proof {
                lemma_total_region_pages_drop(old(self).areas@, i as int);
            }
            let start = self.areas[i].start_addr;
            let end = self.areas[i].end_addr;
            let name = self.areas[i].name;
            let mut new_handler = self.areas[i].handler.clone_for_fork();
            proof {
                let area = old(self).areas@[i as int];
                assert(region_len(area) == page_of((end - 1) as usize) - page_of(start) + 1);
                assert(clone_area_pre(
                    new_handler,
                    start,
                    end,
                    *ctx,
                    self.page_table,
                    child.page_table,
                )) by {
                    let first = page_of(start);
                    let last2 = page_of((end - 1) as usize);
                    assert forall|p: usize|
                        first <= p <= last2 implies #[trigger] self.page_table@.contains_key(p)
                        && !child.page_table@.contains_key(p) by {
                        assert(region_page(area, p));
                        if child.page_table@.contains_key(p) {
                            let k = choose|k: int|
                                0 <= k < i as int && region_page(#[trigger] old(self).areas@[k], p);
                            assert(false);
                        }
                    }
                    assert forall|p: usize|
                        first <= p <= last2 implies {
                        let x = old(self).page_table@[p];
                        let y = (#[trigger] self.page_table@[p]);
                        region_page(area, p) && old(self).page_table@.contains_key(p) && y.present
                            == x.present && y.target == x.target && y.swapped == x.swapped
                    } by {
                        assert(region_page(area, p));
                    }
                    if area.handler is Simple {
                        let sh = area.handler->Simple_0;
                        assert forall|p: usize|
                            first <= p <= last2 implies sh.start_addr <= #[trigger] (p * PAGE_SIZE)
                            && (p * PAGE_SIZE - sh.start_addr) + sh.phys_start_addr
                            <= usize::MAX by {
                            assert(region_page(area, p));
                        }
                    }
                    if area.handler is Normal {
                        assert forall|p: usize|
                            first <= p <= last2 implies (
                        #[trigger] self.page_table@[p]).present && page_of(
                            self.page_table@[p].target,
                        ) < ctx.mem@.len() && !ctx.allocator@[page_of(
                            self.page_table@[p].target,
                        ) as int] by {
                            assert(region_page(area, p));
                            assert(old(self).page_table@[p].present);
                            assert(!old(ctx).allocator@[page_of(
                                old(self).page_table@[p].target,
                            ) as int]);
                        }
                    }
                    if area.handler is Swap {
                        assert forall|p: usize|
                            first <= p <= last2 && (#[trigger] self.page_table@[p]).present
                            implies page_of(self.page_table@[p].target) < ctx.mem@.len()
                            && !ctx.allocator@[page_of(self.page_table@[p].target) as int] by {
                            assert(region_page(area, p));
                            assert(old(self).page_table@[p].present);
                            assert(!old(ctx).allocator@[page_of(
                                old(self).page_table@[p].target,
                            ) as int]);
                        }
                    }
                    if area.handler is Cow {
                        assert forall|p: usize|
                            first <= p <= last2 implies (
                        #[trigger] self.page_table@[p]).present
                            && !self.page_table@[p].swapped by {
                            assert(region_page(area, p));
                            assert(old(self).page_table@[p].present);
                            assert(!old(self).page_table@[p].swapped);
                        }
                    }
                }
            }
            let ghost it_ctx = *ctx;
            let ghost it_parent = self.page_table;
            let ghost it_child = child.page_table;
            let ghost it_h = new_handler;
            clone_area_pages(
                &mut new_handler,
                start,
                end,
                ctx,
                &mut self.page_table,
                &mut child.page_table,
            );
            child.areas.push(MemoryArea::new(start, end, new_handler, name));
            proof {
                let area = old(self).areas@[i as int];
                let first = page_of(start);
                let last2 = page_of((end - 1) as usize);
                assert(ctx.swap.manager@.subrange(0, old(ctx).swap.manager@.len() as int)
                    =~= old(ctx).swap.manager@);
                assert forall|f: usize|
                    rc_read(ctx.cow.rc_map@, f) >= rc_read(old(ctx).cow.rc_map@, f) && rc_write(
                        ctx.cow.rc_map@,
                        f,
                    ) >= rc_write(old(ctx).cow.rc_map@, f) by {
                    assert(rc_read(ctx.cow.rc_map@, f) >= rc_read(it_ctx.cow.rc_map@, f)
                        && rc_write(ctx.cow.rc_map@, f) >= rc_write(it_ctx.cow.rc_map@, f));
                    assert(rc_read(it_ctx.cow.rc_map@, f) >= rc_read(old(ctx).cow.rc_map@, f)
                        && rc_write(it_ctx.cow.rc_map@, f) >= rc_write(old(ctx).cow.rc_map@, f));
                }
                assert forall|f: usize|
                    rc_read(ctx.cow.rc_map@, f) + total_region_pages(
                        old(self).areas@.subrange(i as int + 1, n as int),
                    ) <= 0xffff && rc_write(ctx.cow.rc_map@, f) + total_region_pages(
                        old(self).areas@.subrange(i as int + 1, n as int),
                    ) <= 0xffff by {
                    assert(rc_read(it_ctx.cow.rc_map@, f) + total_region_pages(
                        old(self).areas@.subrange(i as int, n as int),
                    ) <= 0xffff && rc_write(it_ctx.cow.rc_map@, f) + total_region_pages(
                        old(self).areas@.subrange(i as int, n as int),
                    ) <= 0xffff);
                    assert(rc_read(ctx.cow.rc_map@, f) <= rc_read(it_ctx.cow.rc_map@, f)
                        + region_len(area) && rc_write(ctx.cow.rc_map@, f) <= rc_write(
                        it_ctx.cow.rc_map@,
                        f,
                    ) + region_len(area));
                }
                assert forall|k: int|
                    old(ctx).swap.manager@.len() <= k < ctx.swap.manager@.len() implies (
                #[trigger] ctx.swap.manager@[k]).token == new_token by {
                    if k < it_ctx.swap.manager@.len() {
                        assert(ctx.swap.manager@[k] == it_ctx.swap.manager@[k]);
                    }
                }
                assert(entries_downgraded(old(self).page_table@, self.page_table@)) by {
                    assert forall|q: usize|
                        old(self).page_table@.contains_key(q) implies {
                        let x = old(self).page_table@[q];
                        let y = (#[trigger] self.page_table@[q]);
                        &&& y.present == x.present
                        &&& y.swapped == x.swapped
                        &&& y.target == x.target
                        &&& y.shared == x.shared
                        &&& (y.writable == x.writable || !y.writable)
                    } by {
                        assert(it_parent@.contains_key(q));
                    }
                }
                assert forall|k: int, p: usize|
                    0 <= k < i as int + 1 && #[trigger] region_page(old(self).areas@[k], p)
                    implies cloned_entry(
                    old(self).areas@[k].handler,
                    old(self).page_table@,
                    old(ctx).cow.rc_map@,
                    *ctx,
                    child.page_table,
                    p,
                ) by {
                    let h = old(self).areas@[k].handler;
                    if k < i as int {
                        assert(cloned_entry(
                            h,
                            old(self).page_table@,
                            old(ctx).cow.rc_map@,
                            it_ctx,
                            it_child,
                            p,
                        ));
                        assert(it_child@.contains_key(p));
                        assert(child.page_table@[p] == it_child@[p]);
                        if h is Swap {
                            let pe = old(self).page_table@[p];
                            if pe.present || pe.swapped {
                                let w = choose|w: int|
                                    0 <= w < it_ctx.swap.manager@.len() && (
                                    #[trigger] it_ctx.swap.manager@[w]).token
                                        == it_child.spec_token() && it_ctx.swap.manager@[w].virtaddr
                                        == (p * PAGE_SIZE) as usize;
                                assert(ctx.swap.manager@[w] == it_ctx.swap.manager@[w]);
                            }
                        }
                    } else {
                        assert(cloned_entry(
                            it_h,
                            it_parent@,
                            it_ctx.cow.rc_map@,
                            *ctx,
                            child.page_table,
                            p,
                        ));
                        assert(same_policy(h, it_h));
                        assert(handler_flags(it_h) == handler_flags(h));
                        assert(it_parent@[p].present == old(self).page_table@[p].present
                            && it_parent@[p].swapped == old(self).page_table@[p].swapped
                            && it_parent@[p].target == old(self).page_table@[p].target);
                        if h is Cow {
                            let f = page_of(old(self).page_table@[p].target);
                            assert(rc_total(it_ctx.cow.rc_map@, f) >= rc_total(
                                old(ctx).cow.rc_map@,
                                f,
                            ));
                        }
                    }
                }
                assert forall|k: int, p: usize|
                    0 <= k < i as int + 1 && #[trigger] region_page(old(self).areas@[k], p)
                        && old(self).areas@[k].handler is Cow implies self.page_table@[p] == (
                PageTableEntry { writable: false, ..old(self).page_table@[p] }) by {
                    if k < i as int {
                        assert(it_parent@[p] == (PageTableEntry {
                            writable: false,
                            ..old(self).page_table@[p]
                        }));
                        assert(it_parent@.contains_key(p));
                        assert(self.page_table@[p].present == it_parent@[p].present
                            && self.page_table@[p].swapped == it_parent@[p].swapped
                            && self.page_table@[p].target == it_parent@[p].target
                            && self.page_table@[p].shared == it_parent@[p].shared);
                        assert(self.page_table@[p].writable == it_parent@[p].writable
                            || !self.page_table@[p].writable);
                    } else {
                        assert(it_parent@[p].present == old(self).page_table@[p].present
                            && it_parent@[p].swapped == old(self).page_table@[p].swapped
                            && it_parent@[p].target == old(self).page_table@[p].target
                            && it_parent@[p].shared == old(self).page_table@[p].shared);
                        assert(self.page_table@[p] == (PageTableEntry {
                            writable: false,
                            ..it_parent@[p]
                        }));
                    }
                }
                assert forall|p: usize| child.page_table@.contains_key(p) implies exists|k: int|
                    0 <= k < i as int + 1 && #[trigger] region_page(old(self).areas@[k], p) by {
                    if !it_child@.contains_key(p) {
                        assert(first <= p <= last2);
                        assert(region_page(old(self).areas@[i as int], p));
                    } else {
                        let k = choose|k: int|
                            0 <= k < i as int && region_page(#[trigger] old(self).areas@[k], p);
                        assert(region_page(old(self).areas@[k], p));
                    }
                }
            }
            i = i + 1;
        }
        child
    }
}

/// One loadable piece of a process image: where it sits in the virtual
/// address space, how many bytes it spans, and whether it holds code.
#[derive(Clone, Copy, Debug, PartialEq, Eq, Structural)]
pub struct Segment {
    /// First virtual address of the piece.
    pub virt_addr: usize,
    /// Number of bytes the piece spans in memory.
    pub mem_size: usize,
    /// Whether the piece holds executable code.
    pub execute: bool,
}

/// The region attributes for a loadable piece of a user image: accessible
/// from user mode, and executable when the piece holds code.
pub fn memory_attr_from(execute: bool) -> (r: MemoryAttr)
    ensures
        r == (MemoryAttr { user: true, readonly: false, execute }),
{
    let mut flags = MemoryAttr::default().user();
    if execute {
        flags = flags.execute();
    }
    flags
}

/// The virtual range a segment covers, as a region.
pub open spec fn seg_start(s: Segment) -> usize {
    s.virt_addr
}

/// One past the last virtual address of a segment.
pub open spec fn seg_end(s: Segment) -> usize {
    (s.virt_addr + s.mem_size) as usize
}

/// Whether virtual page `p` lies inside the segment.
pub open spec fn seg_page(s: Segment, p: usize) -> bool {
    page_of(seg_start(s)) <= p <= page_of((seg_end(s) - 1) as usize)
}

/// The number of pages a segment covers.
pub open spec fn seg_len(s: Segment) -> int {
    page_of((seg_end(s) - 1) as usize) - page_of(seg_start(s)) + 1
}

/// The number of pages all the segments cover together.
pub open spec fn total_seg_pages(segs: Seq<Segment>) -> int
    decreases segs.len(),
{
    if segs.len() == 0 {
        0
    } else {
        seg_len(segs[0]) + total_seg_pages(segs.subrange(1, segs.len() as int))
    }
}

/// Each segment covers at least one page, so the total only shrinks as
/// segments are consumed from the front.
proof fn lemma_total_seg_pages_drop(segs: Seq<Segment>, k: int)
    requires
        0 <= k < segs.len(),
        forall|i: int|
            0 <= i < segs.len() ==> (#[trigger] segs[i]).mem_size > 0 && segs[i].virt_addr
                + segs[i].mem_size <= usize::MAX,
    ensures
        total_seg_pages(segs.subrange(k, segs.len() as int)) == seg_len(segs[k])
            + total_seg_pages(segs.subrange(k + 1, segs.len() as int)),
        total_seg_pages(segs.subrange(k, segs.len() as int)) >= seg_len(segs[k]),
        total_seg_pages(segs.subrange(k + 1, segs.len() as int)) >= 0,
    decreases segs.len() - k,
{
    let tail = segs.subrange(k, segs.len() as int);
    assert(tail[0] == segs[k]);
    assert(tail.subrange(1, tail.len() as int) =~= segs.subrange(k + 1, segs.len() as int));
    if k + 1 < segs.len() {
        lemma_total_seg_pages_drop(segs, k + 1);
        let sg = segs[k + 1];
        lemma_page_start_le((seg_end(sg) - 1) as usize);
        assert(seg_len(sg) >= 1) by {
            assert(page_of(seg_start(sg)) <= page_of((seg_end(sg) - 1) as usize))
                by (nonlinear_arith)
                requires
                    seg_start(sg) < seg_end(sg),
                    seg_end(sg) == seg_start(sg) + sg.mem_size,
                    sg.mem_size > 0,
                    PAGE_SIZE == 4096;
        }
    } else {
        assert(segs.subrange(k + 1, segs.len() as int).len() == 0);
    }
}

/// What building a memory set from an image's segments demands: the
/// segments are non-empty and do not overlap page-wise, nothing is queued
/// as swappable under the new table's token yet, and there are enough
/// free, unreferenced-enough frames for every page.
pub open spec fn image_pre(segs: Seq<Segment>, ctx: MemoryContext, token: usize) -> bool {
    &&& ctx.wf()
    &&& forall|i: int|
        0 <= i < ctx.swap.manager@.len() ==> (#[trigger] ctx.swap.manager@[i]).token != token
    &&& forall|i: int|
        0 <= i < segs.len() ==> (#[trigger] segs[i]).mem_size > 0 && segs[i].virt_addr
            + segs[i].mem_size <= usize::MAX
    &&& forall|i: int, j: int, p: usize|
        0 <= i < j < segs.len() && #[trigger] seg_page(segs[i], p) && #[trigger] seg_page(
            segs[j],
            p,
        ) ==> false
    &&& crate::frames::count_free(ctx.allocator@) >= total_seg_pages(segs)
    &&& forall|f: int|
        0 <= f < ctx.allocator@.len() && ctx.allocator@[f] ==> rc_total(
            ctx.cow.rc_map@,
            f as usize,
        ) < 0xffff
}

/// Build a memory set for a new process image: one copy-on-write region
/// per loadable segment, each page backed by a fresh frame registered with
/// the copy-on-write extension.  The caller pushes the stack region
/// separately, the way it selects any further regions.
#[verifier::loop_isolation(false)]
#[verifier::rlimit(100)]
pub fn memory_set_from(segments: &Vec<Segment>, token: usize, ctx: &mut MemoryContext) -> (r:
    MemorySet)
    requires
        image_pre(segments@, *old(ctx), token),
    ensures
        r.page_table.spec_token() == token,
        r.areas@.len() == segments@.len(),
        final(ctx).wf(),
        final(ctx).swap.manager@ == old(ctx).swap.manager@,
        final(ctx).swap.swapper@ == old(ctx).swap.swapper@,
        swap_consistent(final(ctx).swap, r.page_table),
        forall|k: int|
            0 <= k < segments@.len() ==> {
                let sg = segments@[k];
                let a = #[trigger] r.areas@[k];
                &&& a.start_addr == sg.virt_addr
                &&& a.end_addr == seg_end(sg)
                &&& a.handler == MemoryHandler::Cow(
                    (CowMemoryHandler {
                        flags: (MemoryAttr { user: true, readonly: false, execute: sg.execute }),
                    }),
                )
            },
        forall|k: int, p: usize|
            0 <= k < segments@.len() && #[trigger] seg_page(segments@[k], p) ==> pushed_entry(
                r.areas@[k].handler,
                *final(ctx),
                r.page_table,
                p,
            ),
        forall|p: usize|
            r.page_table@.contains_key(p) ==> exists|k: int|
                0 <= k < segments@.len() && #[trigger] seg_page(segments@[k], p),
{
    let mut set = MemorySet::new(token);
    let n = segments.len();
    proof {
        assert(segments@.subrange(0, n as int) =~= segments@);
        assert forall|i: int|
            0 <= i < ctx.swap.manager@.len() && (#[trigger] ctx.swap.manager@[i]).token
                == set.page_table.spec_token() implies crate::swap::desc_ok(
            ctx.swap.manager@[i],
            set.page_table,
        ) by {
            assert(ctx.swap.manager@[i].token != token);
        }
    }
    let mut i: usize = 0;
    while i < n
        invariant
            i <= n,
            n == segments@.len(),
            set.page_table.spec_token() == token,
            set.areas@.len() == i,
            ctx.wf(),
            swap_consistent(ctx.swap, set.page_table),
            ctx.swap.manager@ == old(ctx).swap.manager@,
            ctx.swap.swapper@ == old(ctx).swap.swapper@,
            ctx.allocator@.len() == old(ctx).allocator@.len(),
            ctx.mem@.len() == old(ctx).mem@.len(),
            forall|f: int|
                0 <= f < ctx.allocator@.len() && ctx.allocator@[f] ==> old(ctx).allocator@[f]
                    && rc_read(ctx.cow.rc_map@, f as usize) == rc_read(
                    old(ctx).cow.rc_map@,
                    f as usize,
                ) && rc_write(ctx.cow.rc_map@, f as usize) == rc_write(
                    old(ctx).cow.rc_map@,
                    f as usize,
                ),
            forall|f: usize|
                rc_read(ctx.cow.rc_map@, f) >= rc_read(old(ctx).cow.rc_map@, f) && rc_write(
                    ctx.cow.rc_map@,
                    f,
                ) >= rc_write(old(ctx).cow.rc_map@, f),
            crate::frames::count_free(ctx.allocator@) >= total_seg_pages(
                segments@.subrange(i as int, n as int),
            ),
            forall|k: int|
                0 <= k < i as int ==> {
                    let sg = segments@[k];
                    let a = (#[trigger] set.areas@[k]);
                    &&& a.start_addr == sg.virt_addr
                    &&& a.end_addr == seg_end(sg)
                    &&& a.handler == MemoryHandler::Cow(
                        (CowMemoryHandler {
                            flags: (MemoryAttr {
                                user: true,
                                readonly: false,
                                execute: sg.execute,
                            }),
                        }),
                    )
                },
            forall|k: int, p: usize|
                0 <= k < i as int && #[trigger] seg_page(segments@[k], p) ==> pushed_entry(
                    set.areas@[k].handler,
                    *ctx,
                    set.page_table,
                    p,
                ),
            forall|p: usize|
                set.page_table@.contains_key(p) ==> exists|k: int|
                    0 <= k < i as int && #[trigger] seg_page(segments@[k], p),
        decreases n - i,
    {
        proof {
            lemma_total_seg_pages_drop(segments@, i as int);
        }
        let sg = segments[i];
        let flags = memory_attr_from(sg.execute);
        let handler = MemoryHandler::Cow(CowMemoryHandler::new(flags));
        let area = MemoryArea::new(sg.virt_addr, sg.virt_addr + sg.mem_size, handler, "");
        let ghost prev_ctx = *ctx;
        let ghost prev_set_pt = set.page_table;
        let ghost prev_areas = set.areas@;
        proof {
            assert(region_len(area) == seg_len(segments@[i as int]));
            assert forall|p: usize| region_page(area, p) implies !set.page_table@.contains_key(
                p,
            ) by {
                assert(seg_page(segments@[i as int], p));
                if set.page_table@.contains_key(p) {
                    let k = choose|k: int|
                        0 <= k < i as int && #[trigger] seg_page(segments@[k], p);
                    assert(false);
                }
            }
        }
        set.push(ctx, area);
        proof {
            let sgv = segments@[i as int];
            assert forall|k: int, p: usize|
                0 <= k < i as int + 1 && #[trigger] seg_page(segments@[k], p) implies pushed_entry(
                set.areas@[k].handler,
                *ctx,
                set.page_table,
                p,
            ) by {
                if k < i as int {
                    assert(set.areas@[k] == prev_areas[k]);
                    assert(pushed_entry(set.areas@[k].handler, prev_ctx, prev_set_pt, p));
                    assert(!region_page(area, p)) by {
                        if region_page(area, p) {
                            assert(seg_page(segments@[i as int], p));
                        }
                    }
                    assert(set.page_table@[p] == prev_set_pt@[p]);
                    let e = prev_set_pt@[p];
                    assert(!ctx.allocator@[page_of(e.target) as int]);
                    assert(rc_total(ctx.cow.rc_map@, page_of(e.target)) >= rc_total(
                        prev_ctx.cow.rc_map@,
                        page_of(e.target),
                    ));
                } else {
                    assert(region_page(area, p));
                }
            }
            assert forall|p: usize| set.page_table@.contains_key(p) implies exists|k: int|
                0 <= k < i as int + 1 && #[trigger] seg_page(segments@[k], p) by {
                if !prev_set_pt@.contains_key(p) {
                    assert(region_page(area, p));
                    assert(seg_page(segments@[i as int], p));
                } else {
                    let k = choose|k: int| 0 <= k < i as int && #[trigger] seg_page(segments@[k], p);
                    assert(seg_page(segments@[k], p));
                }
            }
        }
        i = i + 1;
    }
    set
}


} // verus!
