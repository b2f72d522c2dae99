use ventura::memory::{init_from_uefi, PhysicalMemoryMap, EFI_CONVENTIONAL_MEMORY, EFI_LOADER_CODE};
use ventura::pmm::{
    allocate_physical_page, free_physical_page, init, stats, test_allocator, PageAllocator,
    PageFreeError, PhysPage, MAX_MANAGED_PAGES,
};

fn map_of(list: &[(u32, u64, u64)]) -> PhysicalMemoryMap {
    let mut raw = Vec::new();
    for (kind, start, pages) in list {
        let mut bytes = vec![0u8; 48];
        bytes[0..4].copy_from_slice(&kind.to_le_bytes());
        bytes[8..16].copy_from_slice(&start.to_le_bytes());
        bytes[24..32].copy_from_slice(&pages.to_le_bytes());
        raw.extend(bytes);
    }
    let mut map = PhysicalMemoryMap::new();
    init_from_uefi(&mut map, &raw, 48, list.len());
    map
}

fn allocator(list: &[(u32, u64, u64)]) -> PageAllocator {
    let mut pmm = PageAllocator::new();
    init(&mut pmm, &map_of(list));
    pmm
}

#[test]
fn boot_totals() {
    let pmm = allocator(&[
        (EFI_CONVENTIONAL_MEMORY, 0, 122_880),
        (EFI_LOADER_CODE, 122_880 * 4096, 8_192),
    ]);
    let s = stats(&pmm);
    assert_eq!(s.total_managed_pages, 131_072);
    assert_eq!(s.usable_pages, 122_880);
    assert_eq!(s.free_pages, 122_879);
    assert_eq!(s.used_pages, 8_193);
}

#[test]
fn pages_come_in_order_and_page_zero_stays() {
    let mut pmm = allocator(&[(EFI_CONVENTIONAL_MEMORY, 0, 4)]);
    let pages: Vec<u64> = (0..3).map(|_| allocate_physical_page(&mut pmm).unwrap().addr()).collect();
    assert_eq!(pages, vec![0x1000, 0x2000, 0x3000]);
    assert_eq!(allocate_physical_page(&mut pmm), None);
    let s = stats(&pmm);
    assert_eq!(s.free_pages, 0);
    assert_eq!(s.used_pages, 4);
}

#[test]
fn a_page_given_back_comes_first_again() {
    let mut pmm = allocator(&[(EFI_CONVENTIONAL_MEMORY, 0, 200)]);
    for _ in 0..150 {
        allocate_physical_page(&mut pmm).unwrap();
    }
    assert_eq!(free_physical_page(&mut pmm, PhysPage(0x7000)), Ok(()));
    assert_eq!(free_physical_page(&mut pmm, PhysPage(0x80_000)), Ok(()));
    assert_eq!(allocate_physical_page(&mut pmm), Some(PhysPage(0x7000)));
    assert_eq!(allocate_physical_page(&mut pmm), Some(PhysPage(0x80_000)));
    assert_eq!(allocate_physical_page(&mut pmm), Some(PhysPage(151 * 4096)));
}

#[test]
fn refused_frees() {
    let mut pmm = allocator(&[(EFI_CONVENTIONAL_MEMORY, 0, 16)]);
    assert_eq!(
        free_physical_page(&mut pmm, PhysPage(0x1001)),
        Err(PageFreeError::UnalignedAddress)
    );
    assert_eq!(free_physical_page(&mut pmm, PhysPage(0)), Err(PageFreeError::ReservedMemory));
    assert_eq!(free_physical_page(&mut pmm, PhysPage(16 * 4096)), Err(PageFreeError::OutOfBounds));
    assert_eq!(free_physical_page(&mut pmm, PhysPage(0x2000)), Err(PageFreeError::DoubleFree));
    let p = allocate_physical_page(&mut pmm).unwrap();
    assert_eq!(free_physical_page(&mut pmm, p), Ok(()));
    assert_eq!(free_physical_page(&mut pmm, p), Err(PageFreeError::DoubleFree));
}

#[test]
fn memory_above_the_limit_is_not_managed() {
    let pmm = allocator(&[(EFI_CONVENTIONAL_MEMORY, 0x1_0000_0000 - 0x2000, 6)]);
    let s = stats(&pmm);
    assert_eq!(s.total_managed_pages, MAX_MANAGED_PAGES);
    assert_eq!(s.free_pages, 2);
}

#[test]
fn self_test_needs_two_pages() {
    let mut pmm = allocator(&[(EFI_CONVENTIONAL_MEMORY, 0, 1)]);
    assert_eq!(test_allocator(&mut pmm), Err("Allocation failed on empty pool"));
    let mut pmm = allocator(&[(EFI_CONVENTIONAL_MEMORY, 0, 2)]);
    assert_eq!(test_allocator(&mut pmm), Err("Second allocation failed"));
    let mut pmm = allocator(&[(EFI_CONVENTIONAL_MEMORY, 0, 3)]);
    let before = stats(&pmm);
    assert_eq!(test_allocator(&mut pmm), Ok(()));
    assert_eq!(stats(&pmm), before);
    assert_eq!(allocate_physical_page(&mut pmm), Some(PhysPage(0x1000)));
}

#[test]
fn page_addresses() {
    assert_eq!(PhysPage::null(), PhysPage(0));
    assert_eq!(PhysPage::from_addr(0x3000), Some(PhysPage(0x3000)));
    assert_eq!(PhysPage::from_addr(0x3008), None);
    assert_eq!(PhysPage(0x3000).page_number(), 3);
    assert_eq!(PhysPage::from_page_number(5).addr(), 0x5000);
}

#[test]
fn totals_follow_where_regions_overlap() {
    let mut pmm = allocator(&[
        (EFI_CONVENTIONAL_MEMORY, 0, 8),
        (EFI_CONVENTIONAL_MEMORY, 0x4000, 4),
    ]);
    let before = stats(&pmm);
    assert_eq!((before.free_pages, before.used_pages), (11, 0));
    let page = allocate_physical_page(&mut pmm).unwrap();
    assert_eq!(page.addr(), 0x1000);
    let taken = stats(&pmm);
    assert_eq!((taken.free_pages, taken.used_pages), (10, 1));
    assert_eq!(free_physical_page(&mut pmm, page), Ok(()));
    assert_eq!(stats(&pmm), before);
    assert_eq!(allocate_physical_page(&mut pmm), Some(page));
    assert_eq!(PhysPage::from_page_number(page.page_number()), page);
}

#[test]
fn the_self_test_gives_its_pages_back() {
    let mut pmm = allocator(&[(EFI_CONVENTIONAL_MEMORY, 0, 8)]);
    let before = stats(&pmm);
    assert_eq!(test_allocator(&mut pmm), Ok(()));
    assert_eq!(stats(&pmm), before);
}
