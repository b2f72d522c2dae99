use ventura::kernel_space::init as build_kernel_space;
use ventura::memory::{
    init_from_uefi, PhysicalMemoryMap, EFI_CONVENTIONAL_MEMORY, EFI_LOADER_CODE,
};
use ventura::paging::{
    map_page, read_word, root_pml4_page, translate, unmap_page, write_word, MemoryManager,
};
use ventura::pmm::{allocate_physical_page, stats, PageAllocator, PhysPage};
use ventura::regions::{allocate_and_map_region, map_region, unmap_region};
use ventura::vmm::{
    find_region_for_addr, is_canonical, register_region, reserve_virtual_region, MapError,
    PageTable, PageTableEntry, PageTableFlags, RegionPurpose, UnmapError, VirtAddr,
    VirtPermissions, VirtRegion, VirtualMemoryManager, VmmError, DYNAMIC_VIRT_START,
    MAX_VIRT_REGIONS,
};
use ventura::vmm_check::test_vmm;

struct Machine {
    frames: Vec<PageTable>,
    mm: MemoryManager,
    map: PhysicalMemoryMap,
}

fn bare(list: &[(u32, u64, u64)]) -> Machine {
    let mut raw = Vec::new();
    let mut pages = 0;
    for (kind, start, count) in list {
        let mut bytes = vec![0u8; 48];
        bytes[0..4].copy_from_slice(&kind.to_le_bytes());
        bytes[8..16].copy_from_slice(&start.to_le_bytes());
        bytes[24..32].copy_from_slice(&count.to_le_bytes());
        raw.extend(bytes);
        pages = pages.max(start / 4096 + count);
    }
    let mut map = PhysicalMemoryMap::new();
    init_from_uefi(&mut map, &raw, 48, list.len());
    let mut pmm = PageAllocator::new();
    ventura::pmm::init(&mut pmm, &map);
    let frames = vec![PageTable::empty(); pages as usize];
    Machine { frames, mm: MemoryManager::new(pmm), map }
}

fn machine(pages: u64) -> Machine {
    let mut m = bare(&[(EFI_CONVENTIONAL_MEMORY, 0, pages)]);
    build_kernel_space(&mut m.frames, &mut m.mm, &m.map);
    m
}

fn data() -> PageTableFlags {
    PageTableFlags::kernel_data()
}

#[test]
fn kernel_space_maps_memory_and_devices() {
    let mut m = bare(&[
        (EFI_CONVENTIONAL_MEMORY, 0, 256),
        (EFI_LOADER_CODE, 256 * 4096, 16),
        (EFI_CONVENTIONAL_MEMORY, 272 * 4096, 256),
    ]);
    let root = build_kernel_space(&mut m.frames, &mut m.mm, &m.map);
    assert_eq!(root, PhysPage(0x1000));
    assert_eq!(root_pml4_page(&m.mm), root);
    let at = |a: u64| translate(&m.frames, &m.mm, root, VirtAddr(a));
    assert_eq!(at(0x5123), Some((PhysPage(0x5123), PageTableFlags::kernel_data())));
    assert_eq!(at(0x10_0000), Some((PhysPage(0x10_0000), PageTableFlags::kernel_code())));
    assert_eq!(at(0xFEE0_0000), Some((PhysPage(0xFEE0_0000), PageTableFlags::mmio())));
    assert_eq!(at(0xFEC0_0000), Some((PhysPage(0xFEC0_0000), PageTableFlags::mmio())));
    assert_eq!(at(528 * 4096), None);
    assert_eq!(at(0xDEAD_0000_0000_0000), None);
    let r = find_region_for_addr(&m.mm.vmm, VirtAddr(0x10_0010)).unwrap();
    assert_eq!(r.purpose, RegionPurpose::KernelBinary);
    assert_eq!(r.size_bytes, 16 * 4096);
    let r = find_region_for_addr(&m.mm.vmm, VirtAddr(0xFEE0_0020)).unwrap();
    assert_eq!(r.permissions, VirtPermissions::mmio());
}

#[test]
fn a_mapped_page_translates_and_an_unmapped_one_does_not() {
    let mut m = machine(512);
    let root = m.mm.root;
    let virt = VirtAddr(0x0000_4000_0000_0000);
    let page = allocate_physical_page(&mut m.mm.pmm).unwrap();
    let free = stats(&m.mm.pmm).free_pages;
    assert_eq!(map_page(&mut m.frames, &mut m.mm, root, virt, page, data()), Ok(()));
    assert_eq!(stats(&m.mm.pmm).free_pages, free - 3);
    assert_eq!(
        translate(&m.frames, &m.mm, root, VirtAddr(virt.0 + 0x123)),
        Some((PhysPage(page.0 + 0x123), data()))
    );
    assert_eq!(
        map_page(&mut m.frames, &mut m.mm, root, virt, page, data()),
        Err(MapError::AlreadyMapped)
    );
    write_word(&mut m.frames, &m.mm, root, VirtAddr(virt.0 + 8), 77);
    assert_eq!(read_word(&m.frames, &m.mm, root, VirtAddr(virt.0 + 8)), 77);
    assert_eq!(read_word(&m.frames, &m.mm, root, VirtAddr(page.0 + 8)), 77);
    assert_eq!(unmap_page(&mut m.frames, &m.mm, root, virt), Ok(page));
    assert_eq!(translate(&m.frames, &m.mm, root, virt), None);
    assert_eq!(unmap_page(&mut m.frames, &m.mm, root, virt), Err(UnmapError::NotMapped));
}

#[test]
fn refused_mappings() {
    let mut m = machine(512);
    let root = m.mm.root;
    let page = PhysPage(0x8000);
    let mut map = |v: u64, p: PhysPage| {
        map_page(&mut m.frames, &mut m.mm, root, VirtAddr(v), p, PageTableFlags::kernel_data())
    };
    assert_eq!(map(0x0000_8000_0000_0000, page), Err(MapError::NonCanonicalAddress));
    assert_eq!(map(0x4000_0000_0001, page), Err(MapError::UnalignedVirtualAddress));
    assert_eq!(map(0x4000_0000_0000, PhysPage(1)), Err(MapError::UnalignedPhysicalAddress));
    let mut unmap = |v: u64| unmap_page(&mut m.frames, &m.mm, root, VirtAddr(v));
    assert_eq!(unmap(0x0000_8000_0000_0000), Err(UnmapError::NonCanonicalAddress));
    assert_eq!(unmap(0x4000_0000_0001), Err(UnmapError::UnalignedVirtualAddress));
    assert_eq!(unmap(0x4000_0000_0000), Err(UnmapError::ParentTableMissing));
}

#[test]
fn tables_need_frames() {
    let mut m = machine(64);
    let root = m.mm.root;
    while stats(&m.mm.pmm).free_pages > 2 {
        allocate_physical_page(&mut m.mm.pmm).unwrap();
    }
    let virt = VirtAddr(0x0000_4000_0000_0000);
    assert_eq!(
        map_page(&mut m.frames, &mut m.mm, root, virt, PhysPage(0x8000), data()),
        Err(MapError::FrameAllocationFailed)
    );
    assert_eq!(stats(&m.mm.pmm).free_pages, 0);
    assert_eq!(translate(&m.frames, &m.mm, root, virt), None);
}

#[test]
fn a_region_with_frames_of_its_own_comes_and_goes() {
    let mut m = machine(512);
    let free = stats(&m.mm.pmm).free_pages;
    let region = allocate_and_map_region(
        &mut m.frames,
        &mut m.mm,
        0x3000,
        VirtPermissions::kernel_data(),
        RegionPurpose::DynamicKernel,
    )
    .unwrap();
    assert_eq!(region.start, VirtAddr(DYNAMIC_VIRT_START));
    assert!(region.owns_physical_pages);
    assert_eq!(stats(&m.mm.pmm).free_pages, free - 6);
    let root = m.mm.root;
    assert!(translate(&m.frames, &m.mm, root, VirtAddr(DYNAMIC_VIRT_START + 0x2FFF)).is_some());
    let found = find_region_for_addr(&m.mm.vmm, VirtAddr(DYNAMIC_VIRT_START + 5)).unwrap();
    assert_eq!(found.size_bytes, 0x3000);
    assert_eq!(unmap_region(&mut m.frames, &mut m.mm, &region), Ok(()));
    assert_eq!(stats(&m.mm.pmm).free_pages, free - 3);
    assert!(find_region_for_addr(&m.mm.vmm, VirtAddr(DYNAMIC_VIRT_START)).is_none());
    assert!(translate(&m.frames, &m.mm, root, VirtAddr(DYNAMIC_VIRT_START)).is_none());
    assert_eq!(
        unmap_region(&mut m.frames, &mut m.mm, &region),
        Err(VmmError::PageTableMappingFailed)
    );
}

#[test]
fn a_region_is_given_back_among_others() {
    let mut m = machine(512);
    let take = |m: &mut Machine, size: u64| {
        allocate_and_map_region(
            &mut m.frames,
            &mut m.mm,
            size,
            VirtPermissions::kernel_data(),
            RegionPurpose::DynamicKernel,
        )
        .unwrap()
    };
    let a = take(&mut m, 0x2000);
    let b = take(&mut m, 0x3000);
    let c = take(&mut m, 0x1000);
    let root = m.mm.root;
    let (first, _) = translate(&m.frames, &m.mm, root, b.start).unwrap();
    let count = m.mm.vmm.region_count;
    let free = stats(&m.mm.pmm).free_pages;
    assert_eq!(unmap_region(&mut m.frames, &mut m.mm, &b), Ok(()));
    assert_eq!(m.mm.vmm.region_count, count - 1);
    assert_eq!(stats(&m.mm.pmm).free_pages, free + 3);
    for addr in [b.start.0, b.start.0 + 0x1000, b.start.0 + 0x2FFF] {
        assert!(translate(&m.frames, &m.mm, root, VirtAddr(addr)).is_none());
        assert!(find_region_for_addr(&m.mm.vmm, VirtAddr(addr)).is_none());
    }
    for other in [a, c] {
        assert!(translate(&m.frames, &m.mm, root, other.start).is_some());
        assert_eq!(find_region_for_addr(&m.mm.vmm, other.start).unwrap().start, other.start);
    }
    assert_eq!(allocate_physical_page(&mut m.mm.pmm), Some(first));
}

#[test]
fn a_failed_allocation_is_rolled_back() {
    let mut m = machine(128);
    while stats(&m.mm.pmm).free_pages > 4 {
        allocate_physical_page(&mut m.mm.pmm).unwrap();
    }
    let count = m.mm.vmm.region_count;
    let take = |m: &mut Machine, size: u64| {
        allocate_and_map_region(
            &mut m.frames,
            &mut m.mm,
            size,
            VirtPermissions::kernel_data(),
            RegionPurpose::DynamicKernel,
        )
    };
    assert_eq!(take(&mut m, 0x5000), Err(VmmError::PhysicalAllocationFailed));
    assert_eq!(stats(&m.mm.pmm).free_pages, 4);
    assert_eq!(m.mm.vmm.region_count, count);
    assert_eq!(m.mm.vmm.next_dynamic_addr, DYNAMIC_VIRT_START);
    assert_eq!(take(&mut m, 0x3000), Err(VmmError::PageTableMappingFailed));
    assert_eq!(m.mm.vmm.region_count, count);
    assert_eq!(m.mm.vmm.next_dynamic_addr, DYNAMIC_VIRT_START);
    assert_eq!(stats(&m.mm.pmm).free_pages, 3);
    assert_eq!(take(&mut m, 0), Err(VmmError::ZeroSize));
    assert_eq!(take(&mut m, 0x1001), Err(VmmError::ZeroSize));
}

#[test]
fn given_frames_are_mapped_or_none_is() {
    let mut m = machine(512);
    let region = reserve_virtual_region(
        &mut m.mm.vmm,
        0x2000,
        VirtPermissions::kernel_rodata(),
        RegionPurpose::DynamicKernel,
    )
    .unwrap();
    let root = m.mm.root;
    let blocked = VirtAddr(region.start.0 + 0x1000);
    map_page(&mut m.frames, &mut m.mm, root, blocked, PhysPage(0x9000), data()).unwrap();
    let pages = [PhysPage(0x7000), PhysPage(0x8000)];
    assert_eq!(
        map_region(&mut m.frames, &mut m.mm, &region, &pages),
        Err(VmmError::PageTableMappingFailed)
    );
    assert_eq!(translate(&m.frames, &m.mm, root, region.start), None);
    unmap_page(&mut m.frames, &m.mm, root, blocked).unwrap();
    assert_eq!(map_region(&mut m.frames, &mut m.mm, &region, &pages), Ok(()));
    let (phys, flags) = translate(&m.frames, &m.mm, root, blocked).unwrap();
    assert_eq!(phys, PhysPage(0x8000));
    assert_eq!(flags, VirtPermissions::kernel_rodata().to_page_flags());
}

#[test]
fn regions_do_not_overlap() {
    let mut vmm = VirtualMemoryManager::new();
    let at = |start: u64, size: u64| VirtRegion {
        start: VirtAddr(start),
        size_bytes: size,
        ..VirtRegion::empty()
    };
    assert_eq!(register_region(&mut vmm, at(0x1000, 0x2000)), Ok(()));
    assert_eq!(register_region(&mut vmm, at(0x2000, 0x1000)), Err(VmmError::RegionOverlaps));
    assert_eq!(register_region(&mut vmm, at(0x3000, 0x1000)), Ok(()));
    assert_eq!(register_region(&mut vmm, at(0x5001, 0x1000)), Err(VmmError::UnalignedVirtualAddress));
    assert_eq!(register_region(&mut vmm, at(0x5000, 0)), Err(VmmError::ZeroSize));
    assert_eq!(
        register_region(&mut vmm, at(0x8000_0000_0000, 0x1000)),
        Err(VmmError::NonCanonicalAddress)
    );
    for i in 2..MAX_VIRT_REGIONS as u64 {
        assert_eq!(register_region(&mut vmm, at(0x10_0000 + i * 0x1000, 0x1000)), Ok(()));
    }
    assert_eq!(register_region(&mut vmm, at(0x40_0000, 0x1000)), Err(VmmError::RegionTableFull));
    let found = find_region_for_addr(&vmm, VirtAddr(0x2FFF)).unwrap();
    assert_eq!(found.start, VirtAddr(0x1000));
    assert!(find_region_for_addr(&vmm, VirtAddr(0x4000)).is_none());
}

#[test]
fn reservations_follow_each_other() {
    let mut vmm = VirtualMemoryManager::new();
    let mut reserve = |size: u64| {
        reserve_virtual_region(
            &mut vmm,
            size,
            VirtPermissions::kernel_data(),
            RegionPurpose::DynamicKernel,
        )
    };
    assert_eq!(reserve(0x1000).unwrap().start, VirtAddr(0x1000_0000_0000));
    assert_eq!(reserve(0x4000).unwrap().start, VirtAddr(0x1000_0000_1000));
    assert_eq!(reserve(0x6000_0000_0000), Err(VmmError::AddressOverflow));
    assert_eq!(reserve(u64::MAX - 0xFFF), Err(VmmError::AddressOverflow));
    assert_eq!(reserve(0x1000).unwrap().start, VirtAddr(0x1000_0000_5000));
}

#[test]
fn addresses_are_taken_apart() {
    assert!(is_canonical(0x0000_7FFF_FFFF_F000));
    assert!(is_canonical(0xFFFF_8000_0000_0000));
    assert!(!is_canonical(0xDEAD_0000_0000_0000));
    assert!(!is_canonical(0x0000_8000_0000_0000));
    let a = VirtAddr(0xFFFF_FF80_4020_1ABC);
    assert_eq!(a.pml4_index(), 511);
    assert_eq!(a.pdpt_index(), 1);
    assert_eq!(a.pd_index(), 1);
    assert_eq!(a.pt_index(), 1);
    assert_eq!(a.page_offset(), 0xABC);
    assert!(!a.is_aligned());
}

#[test]
fn permissions_become_flags() {
    assert_eq!(VirtPermissions::kernel_data().to_page_flags().0, 0x8000_0000_0000_0003);
    assert_eq!(VirtPermissions::kernel_code().to_page_flags().0, 0x1);
    assert_eq!(VirtPermissions::kernel_rodata().to_page_flags().0, 0x8000_0000_0000_0001);
    let user = VirtPermissions { readable: true, writable: true, executable: true, user: true };
    assert_eq!(user.to_page_flags().0, 0x7);
}

#[test]
fn an_entry_gives_back_what_was_written() {
    let mut e = PageTableEntry::empty();
    assert!(!e.is_present());
    e.set(0x0000_0001_2345_6000, PageTableFlags(0x8000_0000_0000_0003));
    assert!(e.is_present());
    assert_eq!(e.phys_addr(), 0x1_2345_6000);
    assert_eq!(e.flags(), PageTableFlags(0x8000_0000_0000_0003));
    e.clear();
    assert!(!e.is_present());
}

#[test]
fn virtual_memory_passes_its_self_test() {
    let mut m = machine(512);
    assert_eq!(test_vmm(&mut m.frames, &mut m.mm), Ok(()));
    assert_eq!(m.mm.vmm.next_dynamic_addr, DYNAMIC_VIRT_START + 0x6000);
    let mut m = machine(64);
    while stats(&m.mm.pmm).free_pages > 1 {
        allocate_physical_page(&mut m.mm.pmm).unwrap();
    }
    assert_eq!(test_vmm(&mut m.frames, &mut m.mm), Err("allocate_and_map_region failed!"));
}

#[test]
fn links_allow_what_the_page_may_allow() {
    let mut m = machine(128);
    let root = m.mm.root;
    let page = VirtAddr(0x0000_5000_0000_0000);
    let frame = allocate_physical_page(&mut m.mm.pmm).unwrap();
    let flags = PageTableFlags::present();
    assert_eq!(map_page(&mut m.frames, &mut m.mm, root, page, frame, flags), Ok(()));
    let top = m.frames[(root.0 / 4096) as usize].entries[page.pml4_index()];
    assert_eq!(top.0 & 0x8000_0000_0000_0FFF, 7);
    let upper = m.frames[(top.phys_addr() / 4096) as usize].entries[page.pdpt_index()];
    assert_eq!(upper.0 & 0x8000_0000_0000_0FFF, 7);
    let lower = m.frames[(upper.phys_addr() / 4096) as usize].entries[page.pd_index()];
    assert_eq!(lower.0 & 0x8000_0000_0000_0FFF, 7);
    assert_eq!(translate(&m.frames, &m.mm, root, page), Some((frame, flags)));
}

#[test]
fn the_self_test_of_regions_gives_its_frames_back() {
    let mut m = machine(512);
    assert_eq!(test_vmm(&mut m.frames, &mut m.mm), Ok(()));
    let before = stats(&m.mm.pmm);
    assert_eq!(test_vmm(&mut m.frames, &mut m.mm), Ok(()));
    assert_eq!(stats(&m.mm.pmm), before);
}
