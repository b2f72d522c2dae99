use ventura::memory::{
    descriptor_count, descriptors_fit, init_from_uefi, log_diagnostics, region_count, reserved_memory_bytes,
    total_memory_bytes, usable_memory_bytes, MemoryRegion, MemoryType, PhysicalMemoryMap,
    EFI_ACPI_MEMORY_NVS, EFI_ACPI_RECLAIM_MEMORY, EFI_BOOT_SERVICES_CODE, EFI_BOOT_SERVICES_DATA,
    EFI_CONVENTIONAL_MEMORY, EFI_LOADER_CODE, EFI_LOADER_DATA, EFI_MEMORY_MAPPED_IO,
    EFI_MEMORY_MAPPED_IO_PORT_SPACE, EFI_RESERVED_MEMORY_TYPE, EFI_RUNTIME_SERVICES_CODE,
    EFI_RUNTIME_SERVICES_DATA, EFI_UNUSABLE_MEMORY, MAX_REGIONS,
};

fn descriptor(kind: u32, start: u64, pages: u64, size: usize) -> Vec<u8> {
    let mut bytes = vec![0u8; size];
    bytes[0..4].copy_from_slice(&kind.to_le_bytes());
    bytes[8..16].copy_from_slice(&start.to_le_bytes());
    bytes[24..32].copy_from_slice(&pages.to_le_bytes());
    bytes
}

fn parse(list: &[(u32, u64, u64)], size: usize) -> PhysicalMemoryMap {
    let mut raw = Vec::new();
    for (kind, start, pages) in list {
        raw.extend(descriptor(*kind, *start, *pages, size));
    }
    let mut map = PhysicalMemoryMap::new();
    init_from_uefi(&mut map, &raw, size, list.len());
    map
}

#[test]
fn types_are_classified() {
    let kinds = [
        (EFI_CONVENTIONAL_MEMORY, MemoryType::Usable, "Usable RAM"),
        (EFI_LOADER_CODE, MemoryType::LoaderCode, "Loader Code"),
        (EFI_LOADER_DATA, MemoryType::LoaderData, "Loader Data"),
        (EFI_BOOT_SERVICES_CODE, MemoryType::BootServicesCode, ""),
        (EFI_BOOT_SERVICES_DATA, MemoryType::BootServicesData, ""),
        (EFI_RUNTIME_SERVICES_CODE, MemoryType::RuntimeServicesCode, ""),
        (EFI_RUNTIME_SERVICES_DATA, MemoryType::RuntimeServicesData, ""),
        (EFI_ACPI_RECLAIM_MEMORY, MemoryType::AcpiReclaim, ""),
        (EFI_ACPI_MEMORY_NVS, MemoryType::AcpiNvs, ""),
        (EFI_MEMORY_MAPPED_IO, MemoryType::Mmio, ""),
        (EFI_MEMORY_MAPPED_IO_PORT_SPACE, MemoryType::Mmio, ""),
        (EFI_RESERVED_MEMORY_TYPE, MemoryType::Reserved, ""),
        (EFI_UNUSABLE_MEMORY, MemoryType::Reserved, ""),
        (77, MemoryType::Reserved, ""),
    ];
    for (kind, expected, _) in kinds {
        let map = parse(&[(kind, 0x10_0000, 2)], 48);
        assert_eq!(region_count(&map), 1);
        assert_eq!(map.regions[0].region_type, expected);
        assert_eq!(map.regions[0].is_usable, expected == MemoryType::Usable);
        assert_eq!(map.regions[0].physical_end, 0x10_2000);
        assert_eq!(map.regions[0].size_bytes(), 0x2000);
    }
}

#[test]
fn totals_add_up() {
    let map = parse(
        &[
            (EFI_CONVENTIONAL_MEMORY, 0, 100),
            (EFI_LOADER_CODE, 0x64000, 20),
            (EFI_CONVENTIONAL_MEMORY, 0x10_0000, 50),
        ],
        40,
    );
    assert_eq!(region_count(&map), 3);
    assert_eq!(total_memory_bytes(&map), 170 * 4096);
    assert_eq!(usable_memory_bytes(&map), 150 * 4096);
    assert_eq!(reserved_memory_bytes(&map), 20 * 4096);
}

#[test]
fn bad_descriptors_are_passed_over() {
    let map = parse(
        &[
            (EFI_CONVENTIONAL_MEMORY, 0x1000, 0),
            (EFI_CONVENTIONAL_MEMORY, 0x1000, u64::MAX),
            (EFI_CONVENTIONAL_MEMORY, u64::MAX - 0xFFF, 2),
            (EFI_CONVENTIONAL_MEMORY, 0x2000, 3),
        ],
        48,
    );
    assert_eq!(region_count(&map), 1);
    assert_eq!(map.regions[0].physical_start, 0x2000);
}

#[test]
fn short_buffers_and_full_maps_end_the_list() {
    let raw = descriptor(EFI_CONVENTIONAL_MEMORY, 0, 1, 60);
    let mut map = PhysicalMemoryMap::new();
    init_from_uefi(&mut map, &raw, 48, 2);
    assert_eq!(region_count(&map), 1);
    init_from_uefi(&mut map, &raw[..39], 48, 1);
    assert_eq!(region_count(&map), 0);
    assert_eq!(total_memory_bytes(&map), 0);
    let many: Vec<(u32, u64, u64)> = (0..(MAX_REGIONS as u64 + 3))
        .map(|i| (EFI_CONVENTIONAL_MEMORY, i * 0x2000, 1))
        .collect();
    let map = parse(&many, 48);
    assert_eq!(region_count(&map), MAX_REGIONS);
}

#[test]
fn sums_beyond_64_bits_are_recognised() {
    let mut raw = Vec::new();
    for _ in 0..2 {
        raw.extend(descriptor(EFI_CONVENTIONAL_MEMORY, 0, (1u64 << 52) - 1, 48));
    }
    assert!(!descriptors_fit(&raw, 48, 2));
    assert!(descriptors_fit(&raw, 48, 1));
}

#[test]
fn diagnostics_list_the_first_ranges() {
    let list: Vec<(u32, u64, u64)> = (0..8)
        .map(|i| (EFI_CONVENTIONAL_MEMORY, i * 0x10_0000, 256))
        .chain([(EFI_MEMORY_MAPPED_IO, 0xFEC0_0000, 256)])
        .collect();
    let map = parse(&list, 48);
    let d = log_diagnostics(&map);
    assert_eq!(d.region_count, 9);
    assert_eq!(d.total_mib, 9);
    assert_eq!(d.usable_mib, 8);
    assert_eq!(d.reserved_mib, 1);
    assert_eq!(d.reserved_bytes, 1_048_576);
    assert_eq!(d.range_count, 6);
    assert_eq!(d.ranges[5].start, 0x50_0000);
    assert_eq!(d.ranges[5].end, 0x60_0000);
    assert_eq!(d.ranges[5].kib, 1024);
    assert_eq!(d.ranges[5].label, MemoryType::Usable.name());
}

#[test]
fn descriptors_are_counted() {
    assert_eq!(descriptor_count(0, 480, 48), Some(10));
    assert_eq!(descriptor_count(0, 500, 48), Some(10));
    assert_eq!(descriptor_count(1, 480, 48), None);
    assert_eq!(descriptor_count(0, 480, 0), None);
}

#[test]
fn an_empty_region_has_no_bytes() {
    let r = MemoryRegion::empty();
    assert_eq!(r.size_bytes(), 0);
    assert!(!r.is_usable);
}

#[test]
fn a_descriptor_may_stand_alone_whatever_the_stride() {
    let raw = descriptor(EFI_CONVENTIONAL_MEMORY, 0x10_0000, 4, 48);
    let mut map = PhysicalMemoryMap::new();
    assert!(descriptors_fit(&raw, usize::MAX, 1));
    init_from_uefi(&mut map, &raw, usize::MAX, 1);
    assert_eq!(region_count(&map), 1);
    assert_eq!(total_memory_bytes(&map), 0x4000);
    assert_eq!(map.regions[0].size_bytes(), 0x4000);
    assert!(map.regions[0].is_usable);
}
