use tcg_loader::firmware::{
    allocate_pages, exit_boot_services, free_pages, get_memory_map, AllocateType, Firmware,
    MemoryMapSnapshot, MemoryType, PoolAllocator, ADDR_BASE, ADDR_LIMIT,
};
use tcg_loader::memory::MemoryDescriptor;
use tcg_loader::status::Status;

fn fresh_firmware() -> Firmware {
    Firmware::new(0x1000, Vec::new(), 0)
}

fn descriptor(start: u64, pages: u64) -> MemoryDescriptor {
    MemoryDescriptor {
        ty: 7,
        physical_start: start,
        virtual_start: 0,
        number_of_pages: pages,
        attribute: 0xF,
    }
}

#[test]
fn pages_are_aligned_zeroed_and_sized() {
    let mut fw = fresh_firmware();
    let r = allocate_pages(&mut fw, AllocateType::AnyPages, MemoryType::LoaderData, 3, 0).unwrap();
    assert_eq!(r.addr() % 4096, 0);
    assert!(r.addr() >= ADDR_BASE);
    assert_eq!(r.len(), 3 * 4096);
    assert!(r.bytes().iter().all(|&b| b == 0));
}

#[test]
fn consecutive_page_regions_are_disjoint() {
    let mut fw = fresh_firmware();
    let a = allocate_pages(&mut fw, AllocateType::AnyPages, MemoryType::LoaderData, 1, 0).unwrap();
    let b = allocate_pages(&mut fw, AllocateType::AnyPages, MemoryType::LoaderData, 2, 0).unwrap();
    assert!(a.addr() + a.len() as u64 <= b.addr());
}

#[test]
fn unsupported_placement_is_refused() {
    let mut fw = fresh_firmware();
    let e = allocate_pages(&mut fw, AllocateType::MaxAddress, MemoryType::LoaderData, 1, 0)
        .unwrap_err();
    assert_eq!(e, Status::Unsupported);
}

#[test]
fn exhausted_pages_give_out_of_resources() {
    let mut fw = fresh_firmware();
    let e = allocate_pages(&mut fw, AllocateType::AnyPages, MemoryType::LoaderData, usize::MAX, 0)
        .unwrap_err();
    assert_eq!(e, Status::OutOfResources);
}

#[test]
fn pool_cycle_aligns_and_recovers_for_every_alignment() {
    let allocator = PoolAllocator;
    for &align in &[1usize, 2, 4, 8, 16, 32, 4096] {
        for &size in &[1usize, 8, 13, 100, 4000] {
            let mut fw = fresh_firmware();
            let backing = fw.allocation_cursor();
            let a = allocator.allocate(&mut fw, size, align).unwrap();
            assert_eq!(a % align as u64, 0, "align {align} size {size}");
            assert!(a >= backing);
            let pattern_a = vec![0xABu8; size];
            fw.write_pool(a, &pattern_a);
            // An adjacent allocation, then release the first one.
            let b_backing = fw.allocation_cursor();
            let b = allocator.allocate(&mut fw, size, 8).unwrap();
            let pattern_b = vec![0xCDu8; size];
            fw.write_pool(b, &pattern_b);
            let recovered = allocator.deallocate(&mut fw, a, size);
            assert_eq!(recovered, backing, "align {align} size {size}");
            assert_eq!(b, b_backing);
            // The adjacent allocation is intact; the released one is gone.
            assert_eq!(fw.read_pool(b, size), Some(pattern_b));
            assert_eq!(fw.read_pool(a, 1), None);
        }
    }
}

#[test]
fn pool_reads_back_what_was_written() {
    let allocator = PoolAllocator;
    let mut fw = fresh_firmware();
    let a = allocator.allocate(&mut fw, 5, 1).unwrap();
    fw.write_pool(a, &vec![1, 2, 3, 4, 5]);
    assert_eq!(fw.read_pool(a, 5), Some(vec![1, 2, 3, 4, 5]));
}

#[test]
fn memory_map_reports_the_layout_and_a_current_token() {
    let descs = vec![descriptor(0, 256), descriptor(0x100000, 1024)];
    let mut fw = Firmware::new(0x1000, descs.clone(), 0);
    let (map, key) = get_memory_map(&mut fw).unwrap();
    assert_eq!(map, descs);
    assert!(exit_boot_services(&mut fw, key).is_ok());
    assert!(!fw.services_are_active());
}

#[test]
fn allocation_after_snapshot_makes_the_token_stale() {
    let mut fw = Firmware::new(0x1000, vec![descriptor(0, 16)], 0);
    let (_, key) = get_memory_map(&mut fw).unwrap();
    let _ = allocate_pages(&mut fw, AllocateType::AnyPages, MemoryType::LoaderData, 1, 0).unwrap();
    let e = exit_boot_services(&mut fw, key).unwrap_err();
    assert_eq!(e, Status::InvalidParameter);
    assert!(fw.services_are_active());
    // A fresh snapshot authorizes the exit.
    let (_, key2) = get_memory_map(&mut fw).unwrap();
    assert!(exit_boot_services(&mut fw, key2).is_ok());
}

#[test]
fn releasing_pages_makes_the_token_stale() {
    let mut fw = Firmware::new(0x1000, vec![descriptor(0, 16)], 0);
    let r = allocate_pages(&mut fw, AllocateType::AnyPages, MemoryType::LoaderData, 1, 0).unwrap();
    let (_, key) = get_memory_map(&mut fw).unwrap();
    free_pages(&mut fw, r);
    let e = exit_boot_services(&mut fw, key).unwrap_err();
    assert_eq!(e, Status::InvalidParameter);
}

#[test]
fn snapshot_is_staged_inside_the_served_range() {
    let mut fw = Firmware::new(0x1000, vec![descriptor(0, 16)], 0);
    let snap = MemoryMapSnapshot::capture(&mut fw).unwrap();
    assert!(snap.addr() >= ADDR_BASE && snap.addr() < ADDR_LIMIT);
    assert_eq!(snap.descriptors().len(), 1);
}
