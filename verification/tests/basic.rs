//! Tests of the frame allocator, physical memory, attributes and the mock
//! swap store.

use ucore_memory::frames::FrameAllocator;
use ucore_memory::frames::PhysMemory;
use ucore_memory::paging::MemoryAttr;
use ucore_memory::paging::PageTable;
use ucore_memory::paging::PAGE_SIZE;
use ucore_memory::swap::MockSwapper;

#[test]
fn it_works() {
    assert_eq!(2 + 2, 4);
}

#[test]
fn allocator_hands_out_lowest_free_frame() {
    let mut alloc_bitmap = FrameAllocator::new(3);
    assert_eq!(alloc_bitmap.allocate(), Some(0));
    assert_eq!(alloc_bitmap.allocate(), Some(PAGE_SIZE));
    alloc_bitmap.deallocate(0);
    assert_eq!(alloc_bitmap.allocate(), Some(0));
    assert_eq!(alloc_bitmap.allocate(), Some(2 * PAGE_SIZE));
    assert_eq!(alloc_bitmap.allocate(), None);
}

#[test]
fn phys_memory_pages_round_trip() {
    let mut mem = PhysMemory::new(2);
    let mut data = vec![0u8; PAGE_SIZE];
    data[0] = 0xab;
    data[PAGE_SIZE - 1] = 0xcd;
    mem.write_page(1, &data);
    let back = mem.read_page(1);
    assert_eq!(back, data);
    mem.copy_page(1, 0);
    assert_eq!(mem.read_page(0), data);
}

#[test]
fn memory_attr_builders() {
    let a = MemoryAttr::default();
    assert!(!a.user && !a.readonly && !a.execute);
    let b = MemoryAttr::default().user().execute();
    assert!(b.user && b.execute && !b.readonly);
    let c = MemoryAttr::default().readonly();
    assert!(c.is_readonly());
}

#[test]
fn page_table_map_and_unmap() {
    let mut pt = PageTable::new(9);
    assert_eq!(pt.token(), 9);
    assert!(pt.get_entry(0x1000).is_none());
    pt.map(0x1234, 0x5000);
    let e = pt.get_entry(0x1000).expect("entry should exist");
    assert!(e.present && e.writable && !e.shared && !e.swapped);
    assert_eq!(e.target, 0x5000);
    let attr = MemoryAttr::default().readonly();
    attr.apply(&mut pt, 0x1000);
    assert!(!pt.get_entry(0x1fff).unwrap().writable);
    pt.unmap(0x1000);
    assert!(pt.get_entry(0x1000).is_none());
}

#[test]
fn mock_swapper_round_trip() {
    let mut swapper = MockSwapper::default();
    let mut data = vec![0u8; PAGE_SIZE];
    data[7] = 7;
    let token = swapper.swap_out(&data);
    let mut other = vec![1u8; PAGE_SIZE];
    other[0] = 9;
    let token2 = swapper.swap_out(&other);
    assert_ne!(token, token2);
    assert_eq!(swapper.read_slot(token), data);
    assert_eq!(swapper.swap_in(token), data);
    assert_eq!(swapper.swap_in(token2), other);
}
