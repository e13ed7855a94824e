//! Tests of the copy-on-write extension and the copy-on-write region
//! handler: reference counting, the sole-owner fast path, copy isolation
//! and fork symmetry.

use ucore_memory::cow::CowExt;
use ucore_memory::memory::page_fault_handler;
use ucore_memory::memory::CowMemoryHandler;
use ucore_memory::memory::MemoryArea;
use ucore_memory::memory::MemoryContext;
use ucore_memory::memory::MemoryHandler;
use ucore_memory::memory::MemorySet;
use ucore_memory::paging::MemoryAttr;
use ucore_memory::paging::PageTable;
use ucore_memory::paging::PAGE_SIZE;

#[test]
fn cow_counts() {
    let mut cow = CowExt::new();
    cow.map_to_shared(0x0, true);
    cow.map_to_shared(0x0, true);
    cow.map_to_shared(0x0, false);
    assert_eq!(cow.rc_map.read_count(&0), 1);
    assert_eq!(cow.rc_map.write_count(&0), 2);
    assert!(!cow.is_one_shared(0x0));

    assert!(!cow.unmap_shared(0x0, true));
    assert!(!cow.unmap_shared(0x0, false));
    assert!(cow.is_one_shared(0x0));
    assert!(cow.unmap_shared(0x0, true));
    assert_eq!(cow.rc_map.read_count(&0), 0);
    assert_eq!(cow.rc_map.write_count(&0), 0);

    // Counts of different frames are independent.
    cow.map_to_shared(2 * PAGE_SIZE, false);
    cow.map_to_shared(3 * PAGE_SIZE, true);
    assert_eq!(cow.rc_map.read_count(&2), 1);
    assert_eq!(cow.rc_map.write_count(&2), 0);
    assert_eq!(cow.rc_map.write_count(&3), 1);
    assert!(cow.is_one_shared(2 * PAGE_SIZE));
}

fn cow_set(n_frames: usize) -> (MemoryContext, MemorySet) {
    let mut ctx = MemoryContext::new(n_frames);
    let mut set = MemorySet::new(1);
    let handler = MemoryHandler::Cow(CowMemoryHandler::new(MemoryAttr::default().user()));
    set.push(&mut ctx, MemoryArea::new(0x1000, 0x2000, handler, "user"));
    (ctx, set)
}

#[test]
fn sole_owner_fast_path() {
    let (mut ctx, mut set) = cow_set(8);
    let e0 = set.page_table.get_entry(0x1000).expect("page should be mapped");
    assert!(e0.present && e0.shared && e0.writable);
    let f0 = e0.target / PAGE_SIZE;
    assert_eq!(ctx.cow.rc_map.read_count(&f0), 0);
    assert_eq!(ctx.cow.rc_map.write_count(&f0), 1);

    let mut data = vec![0u8; PAGE_SIZE];
    data[0] = 42;
    ctx.mem.write_page(f0, &data);

    // Total count is 1: the fault must only flip the writable bit.
    let resolved = page_fault_handler(&mut set, &mut ctx, 0x1000);
    assert!(resolved);
    let e1 = set.page_table.get_entry(0x1000).unwrap();
    assert!(e1.writable);
    assert_eq!(e1.target, e0.target);
    assert_eq!(ctx.cow.rc_map.write_count(&f0), 1);
    assert_eq!(ctx.mem.read_page(f0), data);
}

#[test]
fn copy_isolation() {
    let (mut ctx, mut set) = cow_set(8);
    let e0 = set.page_table.get_entry(0x1000).unwrap();
    let f0 = e0.target / PAGE_SIZE;
    let mut data = vec![0u8; PAGE_SIZE];
    data[17] = 0x5a;
    data[PAGE_SIZE - 1] = 0xa5;
    ctx.mem.write_page(f0, &data);

    // A second mapping of the same frame, as a forked child would hold.
    let mut child_pt = PageTable::new(2);
    let mut child_handler = set.areas[0].handler.clone_for_fork();
    child_handler.map_clone(&mut ctx, &mut set.page_table, &mut child_pt, 0x1000);
    assert_eq!(ctx.cow.rc_map.write_count(&f0), 2);

    // Count is 2: the write fault must copy.
    let resolved = page_fault_handler(&mut set, &mut ctx, 0x1000);
    assert!(resolved);
    let e1 = set.page_table.get_entry(0x1000).unwrap();
    assert!(e1.writable);
    assert_ne!(e1.target, e0.target);
    // The old frame keeps exactly the other mapping's reference.
    assert_eq!(ctx.cow.rc_map.write_count(&f0), 1);
    assert_eq!(ctx.cow.rc_map.read_count(&f0), 0);
    // The new frame's bytes equal the pre-fault bytes of the old frame.
    assert_eq!(ctx.mem.read_page(e1.target / PAGE_SIZE), data);
    assert_eq!(ctx.mem.read_page(f0), data);
}

#[test]
fn fork_symmetry() {
    let (mut ctx, mut set) = cow_set(8);
    let e0 = set.page_table.get_entry(0x1000).unwrap();
    let f0 = e0.target / PAGE_SIZE;
    assert_eq!(ctx.cow.rc_map.read_count(&f0), 0);
    assert_eq!(ctx.cow.rc_map.write_count(&f0), 1);

    // Fork the whole memory set.
    let mut child = set.clone_for_fork(&mut ctx, 2);
    assert_eq!(child.token(), 2);
    assert_eq!(child.areas.len(), 1);

    // Parent's entry is now read-only; the counter chosen by the region's
    // writability was incremented: (0, 2), not (1, 1).
    let pe = set.page_table.get_entry(0x1000).unwrap();
    assert!(pe.present && !pe.writable);
    let ce = child.page_table.get_entry(0x1000).unwrap();
    assert!(ce.present && !ce.writable && ce.shared);
    assert_eq!(ce.target, pe.target);
    assert_eq!(ctx.cow.rc_map.read_count(&f0), 0);
    assert_eq!(ctx.cow.rc_map.write_count(&f0), 2);

    // The parent writes first: count 2 forces the copy path.
    let resolved = page_fault_handler(&mut set, &mut ctx, 0x1000);
    assert!(resolved);
    let pe2 = set.page_table.get_entry(0x1000).unwrap();
    assert!(pe2.writable);
    assert_ne!(pe2.target, pe.target);
    assert_eq!(ctx.cow.rc_map.write_count(&f0), 1);

    // The child writes second: it now finds count 1 and takes the fast
    // path, keeping the original frame.
    let resolved_child = page_fault_handler(&mut child, &mut ctx, 0x1000);
    assert!(resolved_child);
    let ce2 = child.page_table.get_entry(0x1000).unwrap();
    assert!(ce2.writable);
    assert_eq!(ce2.target, ce.target);
    assert_eq!(ctx.cow.rc_map.write_count(&f0), 1);
}

#[test]
fn readonly_cow_fault_is_illegal() {
    let mut ctx = MemoryContext::new(8);
    let mut set = MemorySet::new(1);
    let handler = MemoryHandler::Cow(
        CowMemoryHandler::new(MemoryAttr::default().user().readonly()),
    );
    set.push(&mut ctx, MemoryArea::new(0x1000, 0x2000, handler, "ro"));
    let e0 = set.page_table.get_entry(0x1000).unwrap();
    // Read-only regions still take part in copy-on-write accounting.
    assert!(!e0.writable && e0.shared);
    // A genuine protection violation: the fault stays unresolved.
    assert!(!page_fault_handler(&mut set, &mut ctx, 0x1000));
    assert_eq!(set.page_table.get_entry(0x1000).unwrap(), e0);
}

#[test]
fn cow_unmap_frees_frame_only_at_zero() {
    let (mut ctx, mut set) = cow_set(8);
    let e0 = set.page_table.get_entry(0x1000).unwrap();
    let f0 = e0.target / PAGE_SIZE;

    let mut child_pt = PageTable::new(2);
    let mut child_handler = set.areas[0].handler.clone_for_fork();
    child_handler.map_clone(&mut ctx, &mut set.page_table, &mut child_pt, 0x1000);
    assert_eq!(ctx.cow.rc_map.write_count(&f0), 2);

    // The child unmaps: one reference remains, the frame stays allocated.
    child_handler.unmap(&mut ctx, &mut child_pt, 0x1000);
    assert!(child_pt.get_entry(0x1000).is_none());
    assert_eq!(ctx.cow.rc_map.write_count(&f0), 1);

    // The parent unmaps: the count reaches zero and the frame is freed,
    // so the allocator hands it out again as the lowest free frame.
    let parent_handler = set.areas[0].handler.clone_for_fork();
    parent_handler.unmap(&mut ctx, &mut set.page_table, 0x1000);
    assert_eq!(ctx.cow.rc_map.write_count(&f0), 0);
    assert_eq!(ctx.allocator.allocate(), Some(e0.target));
}
