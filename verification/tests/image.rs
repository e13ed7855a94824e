//! Tests of building a process memory set from an image's loadable
//! segments.

use ucore_memory::memory::memory_attr_from;
use ucore_memory::memory::memory_set_from;
use ucore_memory::memory::page_fault_handler;
use ucore_memory::memory::CowMemoryHandler;
use ucore_memory::memory::MemoryArea;
use ucore_memory::memory::MemoryContext;
use ucore_memory::memory::MemoryHandler;
use ucore_memory::memory::Segment;
use ucore_memory::paging::MemoryAttr;
use ucore_memory::paging::PAGE_SIZE;

#[test]
fn attr_for_loadable_segment() {
    let code = memory_attr_from(true);
    assert!(code.user && code.execute && !code.readonly);
    let data = memory_attr_from(false);
    assert!(data.user && !data.execute && !data.readonly);
}

#[test]
fn image_regions_from_segments() {
    let mut ctx = MemoryContext::new(8);
    let segments = vec![
        Segment { virt_addr: 0x1000, mem_size: 0x1800, execute: true },
        Segment { virt_addr: 0x4000, mem_size: 0x1000, execute: false },
    ];
    let mut set = memory_set_from(&segments, 5, &mut ctx);
    assert_eq!(set.token(), 5);
    assert_eq!(set.areas.len(), 2);

    // The first segment spans pages 1 and 2; the gap page 3 stays
    // unmapped; the second segment covers page 4.
    let e1 = set.page_table.get_entry(0x1000).unwrap();
    let e2 = set.page_table.get_entry(0x2000).unwrap();
    assert!(e1.present && e1.shared && e1.writable);
    assert!(e2.present);
    assert_ne!(e1.target, e2.target);
    assert!(set.page_table.get_entry(0x3000).is_none());
    let e4 = set.page_table.get_entry(0x4000).unwrap();
    assert!(e4.present && e4.shared);
    assert_eq!(ctx.cow.rc_map.write_count(&(e1.target / PAGE_SIZE)), 1);

    // The stack region is pushed separately, the way process creation
    // selects its further regions.
    let stack = MemoryHandler::Cow(CowMemoryHandler::new(MemoryAttr::default().user()));
    set.push(&mut ctx, MemoryArea::new(0x7000, 0x8000, stack, "user_stack"));
    assert!(set.page_table.get_entry(0x7000).unwrap().present);

    // A write fault on a sole-owner image page flips it writable in place.
    assert!(page_fault_handler(&mut set, &mut ctx, 0x1000));
    assert_eq!(set.page_table.get_entry(0x1000).unwrap().target, e1.target);
}
