//! The physical memory map that the firmware hands over at boot.

use vstd::prelude::*;

verus! {

pub const PAGE_SIZE: u64 = 4096;

pub const MAX_REGIONS: usize = 128;

pub const EFI_RESERVED_MEMORY_TYPE: u32 = 0;

pub const EFI_LOADER_CODE: u32 = 1;

pub const EFI_LOADER_DATA: u32 = 2;

pub const EFI_BOOT_SERVICES_CODE: u32 = 3;

pub const EFI_BOOT_SERVICES_DATA: u32 = 4;

pub const EFI_RUNTIME_SERVICES_CODE: u32 = 5;

pub const EFI_RUNTIME_SERVICES_DATA: u32 = 6;

pub const EFI_CONVENTIONAL_MEMORY: u32 = 7;

pub const EFI_UNUSABLE_MEMORY: u32 = 8;

pub const EFI_ACPI_RECLAIM_MEMORY: u32 = 9;

pub const EFI_ACPI_MEMORY_NVS: u32 = 10;

pub const EFI_MEMORY_MAPPED_IO: u32 = 11;

pub const EFI_MEMORY_MAPPED_IO_PORT_SPACE: u32 = 12;

pub const EFI_PAL_CODE: u32 = 13;

pub const EFI_PERSISTENT_MEMORY: u32 = 14;

/// The bytes that one firmware memory descriptor occupies.
pub const DESCRIPTOR_BYTES: usize = 40;

/// How many ranges the boot diagnostics list at most.
pub const MAX_LOGGED_RANGES: usize = 6;

/// One entry of the firmware's memory map.
#[derive(Copy, Clone, Debug)]
pub struct EfiMemoryDescriptor {
    pub memory_type: u32,
    pub pad: u32,
    pub physical_start: u64,
    pub virtual_start: u64,
    pub number_of_pages: u64,
    pub attribute: u64,
}

#[derive(Copy, Clone, Debug, PartialEq, Eq, Structural)]
pub enum MemoryType {
    Usable,
    LoaderCode,
    LoaderData,
    BootServicesCode,
    BootServicesData,
    RuntimeServicesCode,
    RuntimeServicesData,
    AcpiReclaim,
    AcpiNvs,
    Mmio,
    Reserved,
}

impl MemoryType {
    /// The label that a memory type has in the boot log.
    pub open spec fn label(self) -> Seq<char> {
        match self {
            MemoryType::Usable => "USABLE"@,
            MemoryType::LoaderCode => "LOADER_CODE"@,
            MemoryType::LoaderData => "LOADER_DATA"@,
            MemoryType::BootServicesCode => "BOOT_SERVICES_CODE"@,
            MemoryType::BootServicesData => "BOOT_SERVICES_DATA"@,
            MemoryType::RuntimeServicesCode => "RUNTIME_CODE"@,
            MemoryType::RuntimeServicesData => "RUNTIME_DATA"@,
            MemoryType::AcpiReclaim => "ACPI_RECLAIM"@,
            MemoryType::AcpiNvs => "ACPI_NVS"@,
            MemoryType::Mmio => "MMIO"@,
            MemoryType::Reserved => "RESERVED"@,
        }
    }

    pub fn name(self) -> (r: &'static str)
        ensures
            r@ == self.label(),
            self == MemoryType::Usable ==> r@ == "USABLE"@,
            self == MemoryType::LoaderCode ==> r@ == "LOADER_CODE"@,
            self == MemoryType::LoaderData ==> r@ == "LOADER_DATA"@,
            self == MemoryType::BootServicesCode ==> r@ == "BOOT_SERVICES_CODE"@,
            self == MemoryType::BootServicesData ==> r@ == "BOOT_SERVICES_DATA"@,
            self == MemoryType::RuntimeServicesCode ==> r@ == "RUNTIME_CODE"@,
            self == MemoryType::RuntimeServicesData ==> r@ == "RUNTIME_DATA"@,
            self == MemoryType::AcpiReclaim ==> r@ == "ACPI_RECLAIM"@,
            self == MemoryType::AcpiNvs ==> r@ == "ACPI_NVS"@,
            self == MemoryType::Mmio ==> r@ == "MMIO"@,
            self == MemoryType::Reserved ==> r@ == "RESERVED"@,
    {
        match self {
            MemoryType::Usable => "USABLE",
            MemoryType::LoaderCode => "LOADER_CODE",
            MemoryType::LoaderData => "LOADER_DATA",
            MemoryType::BootServicesCode => "BOOT_SERVICES_CODE",
            MemoryType::BootServicesData => "BOOT_SERVICES_DATA",
            MemoryType::RuntimeServicesCode => "RUNTIME_CODE",
            MemoryType::RuntimeServicesData => "RUNTIME_DATA",
            MemoryType::AcpiReclaim => "ACPI_RECLAIM",
            MemoryType::AcpiNvs => "ACPI_NVS",
            MemoryType::Mmio => "MMIO",
            MemoryType::Reserved => "RESERVED",
        }
    }
}

/// A run of physical pages of one type.
#[derive(Copy, Clone, Debug)]
pub struct MemoryRegion {
    pub physical_start: u64,
    pub physical_end: u64,
    pub page_count: u64,
    pub region_type: MemoryType,
    pub is_usable: bool,
}

impl MemoryRegion {
    /// The region holds at least one page and ends where its pages do.
    pub open spec fn wf(self) -> bool {
        &&& self.page_count > 0
        &&& self.physical_end == self.physical_start + self.page_count * 4096
    }

    /// A region without pages.
    pub open spec fn spec_empty() -> MemoryRegion {
        MemoryRegion {
            physical_start: 0,
            physical_end: 0,
            page_count: 0,
            region_type: MemoryType::Reserved,
            is_usable: false,
        }
    }

    pub fn empty() -> (r: Self)
        ensures
            r == MemoryRegion::spec_empty(),
            r.physical_start == 0,
            r.physical_end == 0,
            r.page_count == 0,
            r.region_type == MemoryType::Reserved,
            !r.is_usable,
    {
        Self {
            physical_start: 0,
            physical_end: 0,
            page_count: 0,
            region_type: MemoryType::Reserved,
            is_usable: false,
        }
    }

    pub fn size_bytes(&self) -> (r: u64)
        ensures
            r == if self.physical_end >= self.physical_start {
                self.physical_end - self.physical_start
            } else {
                0
            },
    {
        self.physical_end.saturating_sub(self.physical_start)
    }
}

/// The memory map of the machine, and what it adds up to.
pub struct PhysicalMemoryMap {
    pub regions: [MemoryRegion; MAX_REGIONS],
    pub region_count: usize,
    pub total_memory_bytes: u64,
    pub usable_memory_bytes: u64,
    pub reserved_memory_bytes: u64,
}

impl View for PhysicalMemoryMap {
    type V = Seq<MemoryRegion>;

    /// The regions that the map lists.
    open spec fn view(&self) -> Seq<MemoryRegion> {
        self.regions@.take(self.region_count as int)
    }
}

/// The bytes of the regions of `s`.
pub open spec fn total_bytes(s: Seq<MemoryRegion>) -> int
    decreases s.len(),
{
    if s.len() == 0 {
        0
    } else {
        total_bytes(s.drop_last()) + s.last().page_count * 4096
    }
}

/// The bytes of those regions of `s` whose usability is `usable`.
pub open spec fn bytes_where(s: Seq<MemoryRegion>, usable: bool) -> int
    decreases s.len(),
{
    if s.len() == 0 {
        0
    } else {
        bytes_where(s.drop_last(), usable) + if s.last().is_usable == usable {
            s.last().page_count * 4096
        } else {
            0
        }
    }
}

impl PhysicalMemoryMap {
    /// The listed regions are whole pages, and the three totals are theirs.
    pub open spec fn wf(&self) -> bool {
        &&& self.region_count <= MAX_REGIONS
        &&& forall|i: int| 0 <= i < self@.len() ==> (#[trigger] self@[i]).wf()
        &&& self.total_memory_bytes == total_bytes(self@)
        &&& self.usable_memory_bytes == bytes_where(self@, true)
        &&& self.reserved_memory_bytes == bytes_where(self@, false)
    }

    /// A map that lists no region: every slot is empty, and so are the totals.
    pub fn new() -> (r: Self)
        ensures
            r.wf(),
            r@ == Seq::<MemoryRegion>::empty(),
            r.region_count == 0,
            r.total_memory_bytes == 0,
            r.usable_memory_bytes == 0,
            r.reserved_memory_bytes == 0,
            forall|i: int|
                0 <= i < MAX_REGIONS ==> #[trigger] r.regions@[i] == MemoryRegion::spec_empty(),
    {
        let blank = MemoryRegion::empty();
        Self {
            regions: [blank; MAX_REGIONS],
            region_count: 0,
            total_memory_bytes: 0,
            usable_memory_bytes: 0,
            reserved_memory_bytes: 0,
        }
    }
}

pub fn total_memory_bytes(map: &PhysicalMemoryMap) -> (r: u64)
    ensures
        r == map.total_memory_bytes,
{
    map.total_memory_bytes
}

pub fn usable_memory_bytes(map: &PhysicalMemoryMap) -> (r: u64)
    ensures
        r == map.usable_memory_bytes,
{
    map.usable_memory_bytes
}

pub fn reserved_memory_bytes(map: &PhysicalMemoryMap) -> (r: u64)
    ensures
        r == map.reserved_memory_bytes,
{
    map.reserved_memory_bytes
}

pub fn region_count(map: &PhysicalMemoryMap) -> (r: usize)
    ensures
        r == map.region_count,
{
    map.region_count
}

/// The little-endian 32-bit number in the four bytes of `raw` from `at` on.
pub open spec fn le_u32(raw: Seq<u8>, at: int) -> int {
    raw[at] + 0x100 * raw[at + 1] + 0x1_0000 * raw[at + 2] + 0x100_0000 * raw[at + 3]
}

/// The little-endian 64-bit number in the eight bytes of `raw` from `at` on.
pub open spec fn le_u64(raw: Seq<u8>, at: int) -> int {
    le_u32(raw, at) + 0x1_0000_0000 * le_u32(raw, at + 4)
}

/// The descriptor whose bytes start at `at`.
pub open spec fn descriptor_at(raw: Seq<u8>, at: int) -> EfiMemoryDescriptor {
    EfiMemoryDescriptor {
        memory_type: le_u32(raw, at) as u32,
        pad: le_u32(raw, at + 4) as u32,
        physical_start: le_u64(raw, at + 8) as u64,
        virtual_start: le_u64(raw, at + 16) as u64,
        number_of_pages: le_u64(raw, at + 24) as u64,
        attribute: le_u64(raw, at + 32) as u64,
    }
}

/// The kernel's type for a firmware type code.
pub open spec fn type_of_code(code: u32) -> MemoryType {
    if code == EFI_CONVENTIONAL_MEMORY {
        MemoryType::Usable
    } else if code == EFI_LOADER_CODE {
        MemoryType::LoaderCode
    } else if code == EFI_LOADER_DATA {
        MemoryType::LoaderData
    } else if code == EFI_BOOT_SERVICES_CODE {
        MemoryType::BootServicesCode
    } else if code == EFI_BOOT_SERVICES_DATA {
        MemoryType::BootServicesData
    } else if code == EFI_RUNTIME_SERVICES_CODE {
        MemoryType::RuntimeServicesCode
    } else if code == EFI_RUNTIME_SERVICES_DATA {
        MemoryType::RuntimeServicesData
    } else if code == EFI_ACPI_RECLAIM_MEMORY {
        MemoryType::AcpiReclaim
    } else if code == EFI_ACPI_MEMORY_NVS {
        MemoryType::AcpiNvs
    } else if code == EFI_MEMORY_MAPPED_IO || code == EFI_MEMORY_MAPPED_IO_PORT_SPACE {
        MemoryType::Mmio
    } else {
        MemoryType::Reserved
    }
}

/// The region that a descriptor stands for; none if it has no pages or does
/// not fit in the address space.
pub open spec fn region_of(d: EfiMemoryDescriptor) -> Option<MemoryRegion> {
    let end = d.physical_start + d.number_of_pages * 4096;
    if d.number_of_pages == 0 || end > u64::MAX {
        None
    } else {
        Some(
            MemoryRegion {
                physical_start: d.physical_start,
                physical_end: end as u64,
                page_count: d.number_of_pages,
                region_type: type_of_code(d.memory_type),
                is_usable: type_of_code(d.memory_type) == MemoryType::Usable,
            },
        )
    }
}

/// A descriptor with pages whose end fits in 64 bits stands for a region: from its
/// start to behind its pages, of the type that its code stands for, and usable if and
/// only if the code is that of conventional memory. Any other stands for none.
pub proof fn lemma_region_of(d: EfiMemoryDescriptor)
    ensures
        region_of(d) is Some <==> d.number_of_pages > 0 && d.physical_start + 4096
            * d.number_of_pages < 0x1_0000_0000_0000_0000,
        region_of(d) matches Some(r) ==> {
            &&& r.physical_start == d.physical_start
            &&& r.physical_end == d.physical_start + 4096 * d.number_of_pages
            &&& r.page_count == d.number_of_pages
            &&& r.is_usable <==> d.memory_type == 7
            &&& r.region_type == MemoryType::Usable <==> d.memory_type == 7
            &&& r.region_type == MemoryType::LoaderCode <==> d.memory_type == 1
            &&& r.region_type == MemoryType::LoaderData <==> d.memory_type == 2
            &&& r.region_type == MemoryType::BootServicesCode <==> d.memory_type == 3
            &&& r.region_type == MemoryType::BootServicesData <==> d.memory_type == 4
            &&& r.region_type == MemoryType::RuntimeServicesCode <==> d.memory_type == 5
            &&& r.region_type == MemoryType::RuntimeServicesData <==> d.memory_type == 6
            &&& r.region_type == MemoryType::AcpiReclaim <==> d.memory_type == 9
            &&& r.region_type == MemoryType::AcpiNvs <==> d.memory_type == 10
            &&& r.region_type == MemoryType::Mmio <==> d.memory_type == 11 || d.memory_type == 12
            &&& r.region_type == MemoryType::Reserved <==> d.memory_type == 0 || d.memory_type == 8
                || d.memory_type >= 13
        },
{
}

/// What a descriptor stands for follows from its type code, its start and its number
/// of pages alone: two that differ in other fields stand for the same.
pub proof fn lemma_other_fields_ignored(d: EfiMemoryDescriptor, e: EfiMemoryDescriptor)
    requires
        d.memory_type == e.memory_type,
        d.physical_start == e.physical_start,
        d.number_of_pages == e.number_of_pages,
    ensures
        region_of(d) == region_of(e),
{
}

/// What one descriptor more does to the map that the first `k` give. If all its 40
/// bytes are there and the map lists fewer than 128 regions, the map lists one more
/// if the descriptor stands for one: its type code is in the first four bytes, its
/// start in the eight from 8 on and its number of pages in the eight from 24 on, the
/// least byte first. The regions before it are as they were. Without descriptors the
/// map lists nothing.
pub proof fn lemma_next_descriptor(raw: Seq<u8>, stride: int, k: nat)
    requires
        stride >= 0,
    ensures
        accepted(raw, stride, 0).len() == 0,
        ({
            let at = k * stride;
            let before = accepted(raw, stride, k);
            let after = accepted(raw, stride, k + 1);
            let code = raw[at] + 0x100 * raw[at + 1] + 0x1_0000 * raw[at + 2] + 0x100_0000 * raw[at
                + 3];
            let start = raw[at + 8] + 0x100 * raw[at + 9] + 0x1_0000 * raw[at + 10] + 0x100_0000
                * raw[at + 11] + 0x1_0000_0000 * raw[at + 12] + 0x100_0000_0000 * raw[at + 13]
                + 0x1_0000_0000_0000 * raw[at + 14] + 0x100_0000_0000_0000 * raw[at + 15];
            let pages = raw[at + 24] + 0x100 * raw[at + 25] + 0x1_0000 * raw[at + 26] + 0x100_0000
                * raw[at + 27] + 0x1_0000_0000 * raw[at + 28] + 0x100_0000_0000 * raw[at + 29]
                + 0x1_0000_0000_0000 * raw[at + 30] + 0x100_0000_0000_0000 * raw[at + 31];
            let end = start + 4096 * pages;
            if at + 40 <= raw.len() && before.len() < 128 && pages > 0 && end
                < 0x1_0000_0000_0000_0000 {
                &&& after.len() == before.len() + 1
                &&& after.drop_last() == before
                &&& after.last().physical_start == start
                &&& after.last().physical_end == end
                &&& after.last().page_count == pages
                &&& after.last().is_usable <==> code == 7
                &&& after.last().region_type == type_of_code(code as u32)
            } else {
                after == before
            }
        }),
{
    let at = k * stride;
    let before = accepted(raw, stride, k);
    let d = descriptor_at(raw, at);
    assert((k + 1) - 1 == k);
    lemma_region_of(d);
    if at + 40 <= raw.len() && before.len() < 128 {
        if let Some(r) = region_of(d) {
            assert(accepted(raw, stride, k + 1) == before.push(r));
            assert(before.push(r).drop_last() =~= before);
        }
    }
}

/// One region more adds its bytes to the total, and to the usable bytes if it is
/// usable or to the others if it is not. No regions have no bytes.
pub proof fn lemma_bytes_of_next(s: Seq<MemoryRegion>, r: MemoryRegion)
    requires
        r.wf(),
    ensures
        total_bytes(Seq::<MemoryRegion>::empty()) == 0,
        bytes_where(Seq::<MemoryRegion>::empty(), true) == 0,
        bytes_where(Seq::<MemoryRegion>::empty(), false) == 0,
        total_bytes(s.push(r)) == total_bytes(s) + (r.physical_end - r.physical_start),
        r.is_usable ==> {
            &&& bytes_where(s.push(r), true) == bytes_where(s, true) + (r.physical_end
                - r.physical_start)
            &&& bytes_where(s.push(r), false) == bytes_where(s, false)
        },
        !r.is_usable ==> {
            &&& bytes_where(s.push(r), true) == bytes_where(s, true)
            &&& bytes_where(s.push(r), false) == bytes_where(s, false) + (r.physical_end
                - r.physical_start)
        },
{
    lemma_total_of_push(s, r);
}

/// The regions that the first `count` descriptors of `raw`, `stride` bytes
/// apart, stand for. Reading ends where a descriptor is cut off, and where the
/// map is full.
pub open spec fn accepted(raw: Seq<u8>, stride: int, count: nat) -> Seq<MemoryRegion>
    decreases count,
{
    if count == 0 {
        Seq::empty()
    } else {
        let before = accepted(raw, stride, (count - 1) as nat);
        let at = (count - 1) * stride;
        if at + DESCRIPTOR_BYTES > raw.len() || before.len() >= MAX_REGIONS {
            before
        } else {
            match region_of(descriptor_at(raw, at)) {
                Some(region) => before.push(region),
                None => before,
            }
        }
    }
}

proof fn lemma_total_of_push(s: Seq<MemoryRegion>, r: MemoryRegion)
    ensures
        total_bytes(s.push(r)) == total_bytes(s) + r.page_count * 4096,
        forall|u: bool|
            bytes_where(s.push(r), u) == bytes_where(s, u) + if r.is_usable == u {
                r.page_count * 4096
            } else {
                0
            },
{
    assert(s.push(r).drop_last() =~= s);
}

/// Usable and reserved bytes make up the total.
pub proof fn lemma_usable_and_reserved_make_total(s: Seq<MemoryRegion>)
    ensures
        total_bytes(s) == bytes_where(s, true) + bytes_where(s, false),
        bytes_where(s, true) >= 0,
        bytes_where(s, false) >= 0,
    decreases s.len(),
{
    if s.len() > 0 {
        lemma_usable_and_reserved_make_total(s.drop_last());
    }
}

/// What a prefix of the descriptors adds up to is no more than what all do;
/// once reading has ended, more descriptors change nothing.
proof fn lemma_accepted_grows(raw: Seq<u8>, stride: int, a: nat, b: nat)
    requires
        a <= b,
        stride >= 0,
    ensures
        total_bytes(accepted(raw, stride, a)) <= total_bytes(accepted(raw, stride, b)),
        (a * stride + DESCRIPTOR_BYTES > raw.len() || accepted(raw, stride, a).len()
            >= MAX_REGIONS) ==> accepted(raw, stride, b) == accepted(raw, stride, a),
    decreases b - a,
{
    if a < b {
        let c = (b - 1) as nat;
        lemma_accepted_grows(raw, stride, a, c);
        assert(a * stride <= c * stride) by (nonlinear_arith)
            requires
                a <= c,
                stride >= 0,
        ;
        let before = accepted(raw, stride, c);
        if !(c * stride + DESCRIPTOR_BYTES > raw.len() || before.len() >= MAX_REGIONS) {
            if let Some(r) = region_of(descriptor_at(raw, c * stride)) {
                lemma_total_of_push(before, r);
            }
        }
    }
}

proof fn lemma_accepted_shape(raw: Seq<u8>, stride: int, count: nat)
    ensures
        accepted(raw, stride, count).len() <= MAX_REGIONS,
        forall|i: int|
            0 <= i < accepted(raw, stride, count).len() ==> (#[trigger] accepted(
                raw,
                stride,
                count,
            )[i]).wf(),
    decreases count,
{
    if count > 0 {
        lemma_accepted_shape(raw, stride, (count - 1) as nat);
    }
}

fn read_u32(raw: &[u8], at: usize) -> (r: u32)
    requires
        at + 4 <= raw.len(),
    ensures
        r == le_u32(raw@, at as int),
{
    raw[at] as u32 + 0x100 * (raw[at + 1] as u32) + 0x1_0000 * (raw[at + 2] as u32) + 0x100_0000 * (
    raw[at + 3] as u32)
}

fn read_u64(raw: &[u8], at: usize) -> (r: u64)
    requires
        at + 8 <= raw.len(),
    ensures
        r == le_u64(raw@, at as int),
{
    read_u32(raw, at) as u64 + 0x1_0000_0000 * (read_u32(raw, at + 4) as u64)
}

/// Reads the descriptor whose bytes start at `at`.
fn read_descriptor(raw: &[u8], at: usize) -> (d: EfiMemoryDescriptor)
    requires
        at + DESCRIPTOR_BYTES <= raw.len(),
    ensures
        d == descriptor_at(raw@, at as int),
{
    EfiMemoryDescriptor {
        memory_type: read_u32(raw, at),
        pad: read_u32(raw, at + 4),
        physical_start: read_u64(raw, at + 8),
        virtual_start: read_u64(raw, at + 16),
        number_of_pages: read_u64(raw, at + 24),
        attribute: read_u64(raw, at + 32),
    }
}

fn classify(code: u32) -> (r: MemoryType)
    ensures
        r == type_of_code(code),
{
    match code {
        EFI_CONVENTIONAL_MEMORY => MemoryType::Usable,
        EFI_LOADER_CODE => MemoryType::LoaderCode,
        EFI_LOADER_DATA => MemoryType::LoaderData,
        EFI_BOOT_SERVICES_CODE => MemoryType::BootServicesCode,
        EFI_BOOT_SERVICES_DATA => MemoryType::BootServicesData,
        EFI_RUNTIME_SERVICES_CODE => MemoryType::RuntimeServicesCode,
        EFI_RUNTIME_SERVICES_DATA => MemoryType::RuntimeServicesData,
        EFI_ACPI_RECLAIM_MEMORY => MemoryType::AcpiReclaim,
        EFI_ACPI_MEMORY_NVS => MemoryType::AcpiNvs,
        EFI_MEMORY_MAPPED_IO | EFI_MEMORY_MAPPED_IO_PORT_SPACE => MemoryType::Mmio,
        _ => MemoryType::Reserved,
    }
}

/// The region that a descriptor stands for, if it stands for one.
fn region_from_descriptor(desc: &EfiMemoryDescriptor) -> (r: Option<MemoryRegion>)
    ensures
        r == region_of(*desc),
        r is Some <==> desc.number_of_pages > 0 && desc.physical_start + 4096 * desc.number_of_pages
            <= u64::MAX,
        r matches Some(region) ==> {
            &&& region.physical_start == desc.physical_start
            &&& region.physical_end == desc.physical_start + 4096 * desc.number_of_pages
            &&& region.page_count == desc.number_of_pages
            &&& region.is_usable <==> desc.memory_type == 7
        },
{
    if desc.number_of_pages == 0 {
        return None;
    }
    let length: u64 = match desc.number_of_pages.checked_mul(PAGE_SIZE) {
        Some(l) => l,
        None => return None,
    };
    let physical_end: u64 = match desc.physical_start.checked_add(length) {
        Some(end) => end,
        None => return None,
    };
    let region_type = classify(desc.memory_type);
    Some(
        MemoryRegion {
            physical_start: desc.physical_start,
            physical_end,
            page_count: desc.number_of_pages,
            region_type,
            is_usable: region_type == MemoryType::Usable,
        },
    )
}

/// Fills `map` from the firmware's descriptors, which lie `descriptor_size`
/// bytes apart in `raw_descriptors`.
///
/// The bytes that the map adds up to have to fit in 64 bits.
pub fn init_from_uefi(
    map: &mut PhysicalMemoryMap,
    raw_descriptors: &[u8],
    descriptor_size: usize,
    descriptor_count: usize,
)
    requires
        total_bytes(
            accepted(raw_descriptors@, descriptor_size as int, descriptor_count as nat),
        ) <= u64::MAX,
    ensures
        final(map).wf(),
        final(map)@ == accepted(
            raw_descriptors@,
            descriptor_size as int,
            descriptor_count as nat,
        ),
        forall|i: int|
            final(map).region_count <= i < MAX_REGIONS ==> final(map).regions[i] == old(
                map,
            ).regions[i],
{
    map.region_count = 0;
    map.total_memory_bytes = 0;
    map.usable_memory_bytes = 0;
    map.reserved_memory_bytes = 0;

    let ghost stride = descriptor_size as int;
    let ghost all = accepted(raw_descriptors@, stride, descriptor_count as nat);
    let mut current_offset: usize = 0;
    let mut k: usize = 0;
    while k < descriptor_count
        invariant_except_break
            current_offset == k * stride || (current_offset == raw_descriptors@.len() && k * stride
                >= raw_descriptors@.len()),
        invariant
            k <= descriptor_count,
            stride == descriptor_size,
            all == accepted(raw_descriptors@, stride, descriptor_count as nat),
            total_bytes(all) <= u64::MAX,
            map.wf(),
            map@ == accepted(raw_descriptors@, stride, k as nat),
            forall|i: int|
                map.region_count <= i < MAX_REGIONS ==> map.regions[i] == old(map).regions[i],
        ensures
            map@ == all,
        decreases descriptor_count - k,
    {
        proof {
            lemma_accepted_grows(raw_descriptors@, stride, k as nat, descriptor_count as nat);
        }
        if current_offset > raw_descriptors.len() || raw_descriptors.len() - current_offset
            < DESCRIPTOR_BYTES {
            break;
        }
        if map.region_count >= MAX_REGIONS {
            break;
        }
        let desc = read_descriptor(raw_descriptors, current_offset);
        let left: usize = raw_descriptors.len() - current_offset;
        current_offset = current_offset + if descriptor_size < left {
            descriptor_size
        } else {
            left
        };
        proof {
            lemma_accepted_grows(raw_descriptors@, stride, (k + 1) as nat, descriptor_count as nat);
            assert((k + 1) * stride == k * stride + stride) by (nonlinear_arith);
        }
        k = k + 1;
        if let Some(region) = region_from_descriptor(&desc) {
            let ghost before = map@;
            proof {
                lemma_total_of_push(before, region);
                lemma_usable_and_reserved_make_total(before);
                lemma_usable_and_reserved_make_total(before.push(region));
            }
            let length: u64 = region.page_count * PAGE_SIZE;
            map.regions[map.region_count] = region;
            map.region_count = map.region_count + 1;
            map.total_memory_bytes = map.total_memory_bytes + length;
            if region.is_usable {
                map.usable_memory_bytes = map.usable_memory_bytes + length;
            } else {
                map.reserved_memory_bytes = map.reserved_memory_bytes + length;
            }
            assert(map@ =~= before.push(region));
        }
    }
}

/// How many descriptors the firmware handed over in `map_size` bytes; none if it
/// failed or did not say how large they are.
pub fn descriptor_count(status: usize, map_size: usize, descriptor_size: usize) -> (r: Option<usize>)
    ensures
        r == if status == 0 && descriptor_size > 0 {
            Some(map_size / descriptor_size)
        } else {
            None
        },
{
    if status == 0 && descriptor_size > 0 {
        Some(map_size / descriptor_size)
    } else {
        None
    }
}

/// Whether the bytes that the descriptors add up to fit in 64 bits, which
/// `init_from_uefi` asks for.
pub fn descriptors_fit(
    raw_descriptors: &[u8],
    descriptor_size: usize,
    descriptor_count: usize,
) -> (r: bool)
    ensures
        r == (total_bytes(
            accepted(raw_descriptors@, descriptor_size as int, descriptor_count as nat),
        ) <= u64::MAX),
{
    let ghost stride = descriptor_size as int;
    let ghost all = accepted(raw_descriptors@, stride, descriptor_count as nat);
    let mut current_offset: usize = 0;
    let mut listed: usize = 0;
    let mut total: u64 = 0;
    let mut k: usize = 0;
    while k < descriptor_count
        invariant_except_break
            current_offset == k * stride || (current_offset == raw_descriptors@.len() && k * stride
                >= raw_descriptors@.len()),
        invariant
            k <= descriptor_count,
            stride == descriptor_size,
            all == accepted(raw_descriptors@, stride, descriptor_count as nat),
            listed == accepted(raw_descriptors@, stride, k as nat).len(),
            listed <= MAX_REGIONS,
            total == total_bytes(accepted(raw_descriptors@, stride, k as nat)),
        ensures
            total == total_bytes(all),
        decreases descriptor_count - k,
    {
        proof {
            lemma_accepted_grows(raw_descriptors@, stride, k as nat, descriptor_count as nat);
        }
        if current_offset > raw_descriptors.len() || raw_descriptors.len() - current_offset
            < DESCRIPTOR_BYTES {
            break;
        }
        if listed >= MAX_REGIONS {
            break;
        }
        let desc = read_descriptor(raw_descriptors, current_offset);
        let ghost before = accepted(raw_descriptors@, stride, k as nat);
        let left: usize = raw_descriptors.len() - current_offset;
        current_offset = current_offset + if descriptor_size < left {
            descriptor_size
        } else {
            left
        };
        proof {
            lemma_accepted_grows(raw_descriptors@, stride, (k + 1) as nat, descriptor_count as nat);
            assert((k + 1) * stride == k * stride + stride) by (nonlinear_arith);
        }
        k = k + 1;
        if let Some(region) = region_from_descriptor(&desc) {
            proof {
                lemma_total_of_push(before, region);
            }
            match total.checked_add(region.page_count * PAGE_SIZE) {
                Some(sum) => {
                    total = sum;
                },
                None => return false,
            }
            listed = listed + 1;
        }
    }
    true
}

/// One range of the boot diagnostics.
#[derive(Copy, Clone, Debug)]
pub struct LoggedRange {
    pub start: u64,
    pub end: u64,
    pub label: &'static str,
    pub kib: u64,
}

/// What the boot log says of the memory map.
pub struct MemoryDiagnostics {
    pub region_count: usize,
    pub total_mib: u64,
    pub total_bytes: u64,
    pub usable_mib: u64,
    pub usable_bytes: u64,
    pub reserved_mib: u64,
    pub reserved_bytes: u64,
    pub ranges: [LoggedRange; MAX_LOGGED_RANGES],
    pub range_count: usize,
}

/// The regions that the boot log is about: usable memory and the loader's own.
pub open spec fn is_logged(r: MemoryRegion) -> bool {
    r.is_usable || r.region_type == MemoryType::LoaderCode || r.region_type
        == MemoryType::LoaderData
}

/// The regions that the boot log lists: the first few that it is about.
pub open spec fn logged_regions(s: Seq<MemoryRegion>) -> Seq<MemoryRegion> {
    let picked = s.filter(|r: MemoryRegion| is_logged(r));
    if picked.len() <= MAX_LOGGED_RANGES {
        picked
    } else {
        picked.take(MAX_LOGGED_RANGES as int)
    }
}

/// What one region more does to what the boot log lists: it is listed behind the
/// others if it is usable or the loader's, and fewer than six are. Of no regions, none
/// is listed.
pub proof fn lemma_logged_next(s: Seq<MemoryRegion>, r: MemoryRegion)
    ensures
        logged_regions(Seq::<MemoryRegion>::empty()).len() == 0,
        logged_regions(s).len() <= 6,
        logged_regions(s.push(r)) == if logged_regions(s).len() < 6 && (r.is_usable || r.region_type
            == MemoryType::LoaderCode || r.region_type == MemoryType::LoaderData) {
            logged_regions(s).push(r)
        } else {
            logged_regions(s)
        },
{
    reveal(Seq::filter);
    let f = |r: MemoryRegion| is_logged(r);
    assert(s.push(r).drop_last() =~= s);
    assert(s.push(r).filter(f) == if is_logged(r) {
        s.filter(f).push(r)
    } else {
        s.filter(f)
    });
    let before = s.filter(f);
    let after = s.push(r).filter(f);
    if before.len() >= 6 {
        assert(before.take(6) =~= after.take(6));
        assert(logged_regions(s) =~= before.take(6));
        assert(logged_regions(s.push(r)) =~= after.take(6));
    }
}

/// `l` is the line of the boot log for `r`.
pub open spec fn describes(l: LoggedRange, r: MemoryRegion) -> bool {
    &&& l.start == r.physical_start
    &&& l.end == r.physical_end
    &&& l.label@ == r.region_type.label()
    &&& l.kib == if r.physical_end >= r.physical_start {
        (r.physical_end - r.physical_start) / 1024
    } else {
        0
    }
}

/// What a line of the boot log says of a region: where it starts and ends, and how many
/// whole KiB it has.
pub proof fn lemma_described(l: LoggedRange, r: MemoryRegion)
    requires
        r.wf(),
        describes(l, r),
    ensures
        l.start == r.physical_start,
        l.end == r.physical_end,
        l.kib == 4 * r.page_count,
        r.region_type == MemoryType::Usable ==> l.label@ == "USABLE"@,
        r.region_type == MemoryType::LoaderCode ==> l.label@ == "LOADER_CODE"@,
        r.region_type == MemoryType::LoaderData ==> l.label@ == "LOADER_DATA"@,
{
}

/// What there is to log of the memory map.
pub fn log_diagnostics(map: &PhysicalMemoryMap) -> (r: MemoryDiagnostics)
    requires
        map.region_count <= MAX_REGIONS,
    ensures
        r.region_count == map.region_count,
        r.total_bytes == map.total_memory_bytes,
        r.total_mib == map.total_memory_bytes / 1048576,
        r.usable_bytes == map.usable_memory_bytes,
        r.usable_mib == map.usable_memory_bytes / 1048576,
        r.reserved_bytes == map.reserved_memory_bytes,
        r.reserved_mib == map.reserved_memory_bytes / 1048576,
        r.range_count == logged_regions(map@).len(),
        forall|i: int|
            0 <= i < r.range_count ==> describes(#[trigger] r.ranges@[i], logged_regions(map@)[i]),
{
    let ghost keep = |r: MemoryRegion| is_logged(r);
    let blank = LoggedRange { start: 0, end: 0, label: "", kib: 0 };
    let mut ranges: [LoggedRange; MAX_LOGGED_RANGES] = [blank; MAX_LOGGED_RANGES];
    let mut range_count: usize = 0;
    let mut i: usize = 0;
    while i < map.region_count
        invariant
            map.region_count <= MAX_REGIONS,
            i <= map.region_count,
            keep == (|r: MemoryRegion| is_logged(r)),
            range_count <= MAX_LOGGED_RANGES,
            range_count == logged_regions(map@.take(i as int)).len(),
            forall|k: int|
                0 <= k < range_count ==> describes(
                    #[trigger] ranges@[k],
                    logged_regions(map@.take(i as int))[k],
                ),
        decreases map.region_count - i,
    {
        let r = &map.regions[i];
        proof {
            let s = map@.take(i as int);
            assert(map@.take(i + 1) =~= s.push(*r));
            assert(s.push(*r).drop_last() =~= s);
            reveal_with_fuel(Seq::filter, 2);
        }
        if r.is_usable || r.region_type == MemoryType::LoaderCode || r.region_type
            == MemoryType::LoaderData {
            if range_count < MAX_LOGGED_RANGES {
                ranges[range_count] = LoggedRange {
                    start: r.physical_start,
                    end: r.physical_end,
                    label: r.region_type.name(),
                    kib: r.size_bytes() / 1024,
                };
                range_count = range_count + 1;
            }
        }
        i = i + 1;
    }
    assert(map@.take(i as int) =~= map@);
    MemoryDiagnostics {
        region_count: map.region_count,
        total_mib: map.total_memory_bytes / 1048576,
        total_bytes: map.total_memory_bytes,
        usable_mib: map.usable_memory_bytes / 1048576,
        usable_bytes: map.usable_memory_bytes,
        reserved_mib: map.reserved_memory_bytes / 1048576,
        reserved_bytes: map.reserved_memory_bytes,
        ranges,
        range_count,
    }
}

/// The bytes of the regions `s`, each from its start to its end.
pub open spec fn spanned_bytes(s: Seq<MemoryRegion>) -> int
    decreases s.len(),
{
    if s.len() == 0 {
        0
    } else {
        spanned_bytes(s.drop_last()) + s.last().physical_end - s.last().physical_start
    }
}

proof fn lemma_spanned(s: Seq<MemoryRegion>)
    requires
        forall|i: int| 0 <= i < s.len() ==> (#[trigger] s[i]).wf(),
    ensures
        spanned_bytes(s) == total_bytes(s),
    decreases s.len(),
{
    if s.len() > 0 {
        assert(s.last().wf());
        assert forall|i: int| 0 <= i < s.drop_last().len() implies (
        #[trigger] s.drop_last()[i]).wf() by {
            assert(s[i].wf());
        }
        lemma_spanned(s.drop_last());
    }
}

proof fn lemma_accepted_kinds(raw: Seq<u8>, stride: int, count: nat)
    ensures
        accepted(raw, stride, count).len() <= count,
        forall|i: int|
            0 <= i < accepted(raw, stride, count).len() ==> (#[trigger] accepted(
                raw,
                stride,
                count,
            )[i]).is_usable == (accepted(raw, stride, count)[i].region_type == MemoryType::Usable),
    decreases count,
{
    if count > 0 {
        lemma_accepted_kinds(raw, stride, (count - 1) as nat);
    }
}

/// What a memory map that was read from `count` descriptors adds up to: the
/// total is the usable and the reserved bytes, and the sizes of the regions.
/// There are no more regions than descriptors and than the map has room for;
/// each has pages and ends where they do, and is usable if and only if its type
/// is.
pub proof fn lemma_map_totals(map: PhysicalMemoryMap, raw: Seq<u8>, stride: int, count: nat)
    requires
        map.wf(),
        map@ == accepted(raw, stride, count),
    ensures
        map.total_memory_bytes == map.usable_memory_bytes + map.reserved_memory_bytes,
        map.total_memory_bytes == spanned_bytes(map@),
        map@.len() <= count,
        map@.len() <= MAX_REGIONS,
        forall|i: int| 0 <= i < map@.len() ==> (#[trigger] map@[i]).wf(),
        forall|i: int|
            0 <= i < map@.len() ==> ((#[trigger] map@[i]).is_usable <==> map@[i].region_type
                == MemoryType::Usable),
{
    lemma_usable_and_reserved_make_total(map@);
    lemma_spanned(map@);
    lemma_accepted_kinds(raw, stride, count);
    lemma_accepted_shape(raw, stride, count);
}

} // verus!
