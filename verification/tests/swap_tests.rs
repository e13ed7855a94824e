//! Tests of the swap-backed handler, the direct and eager handlers, the
//! page-fault dispatcher and the frame-lifecycle glue.

use ucore_memory::memory::alloc_frame;
use ucore_memory::memory::dealloc_frame;
use ucore_memory::memory::page_fault_handler;
use ucore_memory::memory::MemoryArea;
use ucore_memory::memory::MemoryContext;
use ucore_memory::memory::MemoryHandler;
use ucore_memory::memory::MemorySet;
use ucore_memory::memory::NormalMemoryHandler;
use ucore_memory::memory::SimpleMemoryHandler;
use ucore_memory::memory::SwapMemoryHandler;
use ucore_memory::paging::MemoryAttr;
use ucore_memory::paging::PageTable;
use ucore_memory::paging::PAGE_SIZE;

#[test]
fn delayed_alloc_idempotent() {
    let mut ctx = MemoryContext::new(8);
    let mut set = MemorySet::new(1);
    let handler = MemoryHandler::Swap(
        SwapMemoryHandler::new(MemoryAttr::default().user(), vec![0x1000]),
    );
    set.push(&mut ctx, MemoryArea::new(0x1000, 0x2000, handler, "lazy"));

    // The placeholder entry awaits its first access.
    let e0 = set.page_table.get_entry(0x1000).unwrap();
    assert!(!e0.present && !e0.swapped);

    // The first fault materializes the page exactly once.
    assert!(page_fault_handler(&mut set, &mut ctx, 0x1000));
    let e1 = set.page_table.get_entry(0x1000).unwrap();
    assert!(e1.present && !e1.swapped);

    // A second fault at the same address finds the page present: the
    // delayed-allocation branch is not re-entered, nothing changes.
    assert!(!page_fault_handler(&mut set, &mut ctx, 0x1000));
    assert_eq!(set.page_table.get_entry(0x1000).unwrap(), e1);
}

#[test]
fn end_to_end_swap() {
    let mut ctx = MemoryContext::new(4);
    let mut set = MemorySet::new(1);
    let handler = MemoryHandler::Swap(
        SwapMemoryHandler::new(MemoryAttr::default().user(), vec![0x1000, 0x2000, 0x3000]),
    );
    set.push(&mut ctx, MemoryArea::new(0x1000, 0x4000, handler, "swappable"));

    // Drive a fault at 0x1000: allocate a frame, register it swappable.
    assert!(page_fault_handler(&mut set, &mut ctx, 0x1000));
    let e1 = set.page_table.get_entry(0x1000).unwrap();
    assert!(e1.present && !e1.swapped);
    let mut data = vec![0u8; PAGE_SIZE];
    data[1] = 0x77;
    data[100] = 0x11;
    ctx.mem.write_page(e1.target / PAGE_SIZE, &data);

    // Exhaust physical memory, then request one more frame: the glue must
    // evict the FIFO head — the page at 0x1000 — and hand out its frame.
    while ctx.allocator.allocate().is_some() {}
    let evicted = alloc_frame(&mut ctx, &mut set.page_table).expect("eviction should free a frame");
    assert_eq!(evicted, e1.target);
    let e2 = set.page_table.get_entry(0x1000).unwrap();
    assert!(e2.swapped && !e2.present);

    // The fictitious requester releases the frame again, so the fault can
    // allocate.  The access at 0x1000 must hit the swap-in branch and
    // leave the entry present, not swapped, with its bytes restored.
    dealloc_frame(&mut ctx, evicted);
    assert!(page_fault_handler(&mut set, &mut ctx, 0x1000));
    let e3 = set.page_table.get_entry(0x1000).unwrap();
    assert!(e3.present && !e3.swapped);
    assert_eq!(ctx.mem.read_page(e3.target / PAGE_SIZE), data);
}

#[test]
fn dispatcher_rejects_uncovered_address() {
    let mut ctx = MemoryContext::new(4);
    let mut set = MemorySet::new(1);
    assert!(!page_fault_handler(&mut set, &mut ctx, 0x1234));

    let handler = MemoryHandler::Normal(NormalMemoryHandler::new(MemoryAttr::default()));
    set.push(&mut ctx, MemoryArea::new(0x1000, 0x2000, handler, "heap"));
    // Below, at the end, and far past the region: all uncovered.
    assert!(!page_fault_handler(&mut set, &mut ctx, 0xfff));
    assert!(!page_fault_handler(&mut set, &mut ctx, 0x2000));
    assert!(!page_fault_handler(&mut set, &mut ctx, 0x9000));
    // Inside the region the eager handler still reports unresolved: any
    // fault here is an error upstream.
    assert!(!page_fault_handler(&mut set, &mut ctx, 0x1400));
}

#[test]
fn direct_region_maps_fixed_offset() {
    let mut ctx = MemoryContext::new(4);
    let mut set = MemorySet::new(1);
    let handler = MemoryHandler::Simple(
        SimpleMemoryHandler::new(0x1000, 0x5000, MemoryAttr::default()),
    );
    set.push(&mut ctx, MemoryArea::new(0x1000, 0x3000, handler, "kernel"));
    assert_eq!(set.page_table.get_entry(0x1000).unwrap().target, 0x5000);
    assert_eq!(set.page_table.get_entry(0x2000).unwrap().target, 0x6000);
    // No frame ownership: the allocator is untouched.
    assert_eq!(ctx.allocator.allocate(), Some(0));
    // Direct regions never resolve a fault.
    assert!(!page_fault_handler(&mut set, &mut ctx, 0x1800));
}

#[test]
fn eager_region_allocates_and_clones_content() {
    let mut ctx = MemoryContext::new(4);
    let mut set = MemorySet::new(1);
    let handler = MemoryHandler::Normal(NormalMemoryHandler::new(MemoryAttr::default().user()));
    set.push(&mut ctx, MemoryArea::new(0x1000, 0x3000, handler, "data"));
    let ea = set.page_table.get_entry(0x1000).unwrap();
    let eb = set.page_table.get_entry(0x2000).unwrap();
    assert!(ea.present && eb.present);
    assert_ne!(ea.target, eb.target);

    let mut data = vec![0u8; PAGE_SIZE];
    data[3] = 3;
    ctx.mem.write_page(ea.target / PAGE_SIZE, &data);

    // At fork the eager handler gives the child a private copy.
    let mut child_pt = PageTable::new(2);
    let mut child_handler = set.areas[0].handler.clone_for_fork();
    child_handler.map_clone(&mut ctx, &mut set.page_table, &mut child_pt, 0x1000);
    let ce = child_pt.get_entry(0x1000).unwrap();
    assert!(ce.present);
    assert_ne!(ce.target, ea.target);
    assert_eq!(ctx.mem.read_page(ce.target / PAGE_SIZE), data);

    // Unmapping returns the frame to the allocator.
    let h2 = set.areas[0].handler.clone_for_fork();
    h2.unmap(&mut ctx, &mut set.page_table, 0x1000);
    assert!(set.page_table.get_entry(0x1000).is_none());
    assert_eq!(ctx.allocator.allocate(), Some(ea.target));
}

#[test]
fn swap_unmap_forces_swap_in_first() {
    let mut ctx = MemoryContext::new(2);
    let mut set = MemorySet::new(1);
    let handler = MemoryHandler::Swap(SwapMemoryHandler::new(MemoryAttr::default().user(), vec![]));
    set.push(&mut ctx, MemoryArea::new(0x1000, 0x2000, handler, "swappable"));
    let e0 = set.page_table.get_entry(0x1000).unwrap();
    assert!(e0.present);

    // Evict the page, so that its content lives only in the swap store.
    while ctx.allocator.allocate().is_some() {}
    let evicted = alloc_frame(&mut ctx, &mut set.page_table).unwrap();
    assert_eq!(evicted, e0.target);
    dealloc_frame(&mut ctx, evicted);
    assert!(set.page_table.get_entry(0x1000).unwrap().swapped);

    // Unmapping a swapped page swaps it in first, then releases its
    // frame and removes the entry.
    let h = set.areas[0].handler.clone_for_fork();
    h.unmap(&mut ctx, &mut set.page_table, 0x1000);
    assert!(set.page_table.get_entry(0x1000).is_none());
    assert_eq!(ctx.allocator.allocate(), Some(evicted));
}

#[test]
fn fork_resets_delayed_set_and_copies_content() {
    let mut ctx = MemoryContext::new(8);
    let mut set = MemorySet::new(1);
    let handler = MemoryHandler::Swap(
        SwapMemoryHandler::new(MemoryAttr::default().user(), vec![0x2000]),
    );
    set.push(&mut ctx, MemoryArea::new(0x1000, 0x3000, handler, "mixed"));
    let e0 = set.page_table.get_entry(0x1000).unwrap();
    assert!(e0.present);
    let mut data = vec![0u8; PAGE_SIZE];
    data[9] = 9;
    ctx.mem.write_page(e0.target / PAGE_SIZE, &data);

    let mut child_pt = PageTable::new(2);
    let mut child_handler = set.areas[0].handler.clone_for_fork();
    // The materialized page gets a private copy in the child.
    child_handler.map_clone(&mut ctx, &mut set.page_table, &mut child_pt, 0x1000);
    let c1 = child_pt.get_entry(0x1000).unwrap();
    assert!(c1.present);
    assert_ne!(c1.target, e0.target);
    assert_eq!(ctx.mem.read_page(c1.target / PAGE_SIZE), data);
    // The never-materialized page becomes a delayed allocation of the
    // child and stays absent there.
    child_handler.map_clone(&mut ctx, &mut set.page_table, &mut child_pt, 0x2000);
    let c2 = child_pt.get_entry(0x2000).unwrap();
    assert!(!c2.present && !c2.swapped);
}

#[test]
fn alloc_frame_fails_only_on_true_exhaustion() {
    let mut ctx = MemoryContext::new(2);
    let mut pt = PageTable::new(1);
    // Free frames and an empty swap queue: allocation succeeds.
    assert!(alloc_frame(&mut ctx, &mut pt).is_some());
    assert!(alloc_frame(&mut ctx, &mut pt).is_some());
    // No free frame and nothing swappable to evict: exhaustion is final.
    assert_eq!(alloc_frame(&mut ctx, &mut pt), None);
}

#[test]
fn fault_evicts_when_memory_exhausted() {
    let mut ctx = MemoryContext::new(2);
    let mut set = MemorySet::new(1);
    let handler = MemoryHandler::Swap(
        SwapMemoryHandler::new(MemoryAttr::default().user(), vec![0x1000, 0x2000]),
    );
    set.push(&mut ctx, MemoryArea::new(0x1000, 0x3000, handler, "lazy"));

    // Materialize 0x1000, then exhaust the remaining frames.
    assert!(page_fault_handler(&mut set, &mut ctx, 0x1000));
    let e1 = set.page_table.get_entry(0x1000).unwrap();
    while ctx.allocator.allocate().is_some() {}

    // The delayed fault at 0x2000 finds no free frame; it evicts the FIFO
    // head (the page at 0x1000) and reuses its frame.
    assert!(page_fault_handler(&mut set, &mut ctx, 0x2000));
    let e2 = set.page_table.get_entry(0x2000).unwrap();
    assert!(e2.present && !e2.swapped);
    assert_eq!(e2.target, e1.target);
    let e1b = set.page_table.get_entry(0x1000).unwrap();
    assert!(e1b.swapped && !e1b.present);
}

#[test]
fn fork_child_swap_pages_are_swappable() {
    let mut ctx = MemoryContext::new(8);
    let mut set = MemorySet::new(1);
    let handler = MemoryHandler::Swap(SwapMemoryHandler::new(MemoryAttr::default().user(), vec![]));
    set.push(&mut ctx, MemoryArea::new(0x1000, 0x2000, handler, "swappable"));
    let e0 = set.page_table.get_entry(0x1000).unwrap();

    // Fork the set: the child's materialized page gets a private frame and
    // is queued as an eviction candidate of the child's own table.
    let mut child = set.clone_for_fork(&mut ctx, 2);
    let ce = child.page_table.get_entry(0x1000).unwrap();
    assert!(ce.present && !ce.swapped);
    assert_ne!(ce.target, e0.target);

    // Tearing the child's region down finds its queue entry and releases
    // the frame, leaving the parent's registration untouched.
    child.areas[0].handler.unmap(&mut ctx, &mut child.page_table, 0x1000);
    assert!(child.page_table.get_entry(0x1000).is_none());
    assert_eq!(ctx.allocator.allocate(), Some(ce.target));

    // The parent's page is still present and still the eviction victim of
    // the parent's table.
    while ctx.allocator.allocate().is_some() {}
    let evicted = alloc_frame(&mut ctx, &mut set.page_table).expect("eviction should free a frame");
    assert_eq!(evicted, e0.target);
    assert!(set.page_table.get_entry(0x1000).unwrap().swapped);
}
