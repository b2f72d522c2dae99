//! Virtual addresses, page table entries, and the registry of virtual regions.

use vstd::prelude::*;
use crate::memory::PAGE_SIZE;

verus! {

pub const DYNAMIC_VIRT_START: u64 = 0x0000_1000_0000_0000;

pub const DYNAMIC_VIRT_END: u64 = 0x0000_7000_0000_0000;

pub const MAX_VIRT_REGIONS: usize = 64;

/// The address bits of a page table entry.
pub const ENTRY_ADDRESS_MASK: u64 = 0x000F_FFFF_FFFF_F000;

/// The flag bits of a page table entry.
pub const ENTRY_FLAGS_MASK: u64 = 0xFFF0_0000_0000_0FFF;

/// The upper 17 bits of a canonical address are all the same.
pub open spec fn canonical(addr: u64) -> bool {
    addr < 0x0000_8000_0000_0000 || addr >= 0xFFFF_8000_0000_0000
}

pub fn is_canonical(addr: u64) -> (r: bool)
    ensures
        r == canonical(addr),
{
    let sign_ext: i64 = (addr as i64) >> 47;
    assert((((addr as i64) >> 47) == 0 || ((addr as i64) >> 47) == -1) <==> (addr
        < 0x0000_8000_0000_0000 || addr >= 0xFFFF_8000_0000_0000)) by (bit_vector);
    sign_ext == 0 || sign_ext == -1
}

/// A virtual address.
#[derive(Copy, Clone, Debug, PartialEq, Eq, PartialOrd, Ord, Structural)]
pub struct VirtAddr(pub u64);

impl VirtAddr {
    pub fn new(addr: u64) -> (r: Self)
        ensures
            r == VirtAddr(addr),
    {
        Self(addr)
    }

    pub fn as_u64(self) -> (r: u64)
        ensures
            r == self.0,
    {
        self.0
    }

    pub fn is_aligned(self) -> (r: bool)
        ensures
            r == (self.0 % 4096 == 0),
    {
        self.0 % PAGE_SIZE == 0
    }

    pub fn pml4_index(self) -> (r: usize)
        ensures
            r == (self.0 as int / 0x80_0000_0000) % 512,
    {
        let a: u64 = self.0;
        assert((a >> 39) & 0x1FF == (a / 0x80_0000_0000) % 512) by (bit_vector);
        ((self.0 >> 39) & 0x1FF) as usize
    }

    pub fn pdpt_index(self) -> (r: usize)
        ensures
            r == (self.0 as int / 0x4000_0000) % 512,
    {
        let a: u64 = self.0;
        assert((a >> 30) & 0x1FF == (a / 0x4000_0000) % 512) by (bit_vector);
        ((self.0 >> 30) & 0x1FF) as usize
    }

    pub fn pd_index(self) -> (r: usize)
        ensures
            r == (self.0 as int / 0x20_0000) % 512,
    {
        let a: u64 = self.0;
        assert((a >> 21) & 0x1FF == (a / 0x20_0000) % 512) by (bit_vector);
        ((self.0 >> 21) & 0x1FF) as usize
    }

    pub fn pt_index(self) -> (r: usize)
        ensures
            r == (self.0 as int / 0x1000) % 512,
    {
        let a: u64 = self.0;
        assert((a >> 12) & 0x1FF == (a / 0x1000) % 512) by (bit_vector);
        ((self.0 >> 12) & 0x1FF) as usize
    }

    pub fn page_offset(self) -> (r: u64)
        ensures
            r == self.0 % 4096,
    {
        let a: u64 = self.0;
        assert(a & 0xFFF == a % 4096) by (bit_vector);
        self.0 & 0xFFF
    }
}

/// What a virtual region may be used for.
#[derive(Copy, Clone, Debug, PartialEq, Eq, Structural)]
pub struct VirtPermissions {
    pub readable: bool,
    pub writable: bool,
    pub executable: bool,
    pub user: bool,
}

impl VirtPermissions {
    pub fn kernel_code() -> (r: Self)
        ensures
            r == (VirtPermissions {
                readable: true,
                writable: false,
                executable: true,
                user: false,
            }),
    {
        Self { readable: true, writable: false, executable: true, user: false }
    }

    pub fn kernel_data() -> (r: Self)
        ensures
            r == (VirtPermissions {
                readable: true,
                writable: true,
                executable: false,
                user: false,
            }),
    {
        Self { readable: true, writable: true, executable: false, user: false }
    }

    pub fn kernel_rodata() -> (r: Self)
        ensures
            r == (VirtPermissions {
                readable: true,
                writable: false,
                executable: false,
                user: false,
            }),
    {
        Self { readable: true, writable: false, executable: false, user: false }
    }

    pub fn mmio() -> (r: Self)
        ensures
            r == (VirtPermissions {
                readable: true,
                writable: true,
                executable: false,
                user: false,
            }),
    {
        Self { readable: true, writable: true, executable: false, user: false }
    }

    /// The entry flags that grant these permissions: bit 0 (present), bit 1
    /// (writable), bit 2 (user accessible) and bit 63 (no execute).
    pub open spec fn page_flags(self) -> PageTableFlags {
        PageTableFlags(
            (1 + (if self.writable {
                2int
            } else {
                0
            }) + (if self.user {
                4int
            } else {
                0
            }) + (if self.executable {
                0int
            } else {
                0x8000_0000_0000_0000
            })) as u64,
        )
    }

    pub fn to_page_flags(self) -> (r: PageTableFlags)
        ensures
            r == self.page_flags(),
    {
        let mut flags = PageTableFlags::present();
        if self.writable {
            flags = flags | PageTableFlags::writable();
        }
        if self.user {
            flags = flags | PageTableFlags::user_accessible();
        }
        if !self.executable {
            flags = flags | PageTableFlags::no_execute();
        }
        assert(1u64 | 2 == 3 && 1u64 | 4 == 5 && 3u64 | 4 == 7 && 1u64 | 0x8000_0000_0000_0000
            == 0x8000_0000_0000_0001 && 3u64 | 0x8000_0000_0000_0000 == 0x8000_0000_0000_0003
            && 5u64 | 0x8000_0000_0000_0000 == 0x8000_0000_0000_0005 && 7u64 | 0x8000_0000_0000_0000
            == 0x8000_0000_0000_0007) by (bit_vector);
        flags
    }
}

/// The flag bits of a page table entry.
#[derive(Copy, Clone, Debug, PartialEq, Eq, Structural)]
pub struct PageTableFlags(pub u64);

impl PageTableFlags {
    pub fn present() -> (r: Self)
        ensures
            r.0 == 0x1,
    {
        Self(0x1)
    }

    pub fn writable() -> (r: Self)
        ensures
            r.0 == 0x2,
    {
        Self(0x2)
    }

    pub fn user_accessible() -> (r: Self)
        ensures
            r.0 == 0x4,
    {
        Self(0x4)
    }

    pub fn write_through() -> (r: Self)
        ensures
            r.0 == 0x8,
    {
        Self(0x8)
    }

    pub fn no_cache() -> (r: Self)
        ensures
            r.0 == 0x10,
    {
        Self(0x10)
    }

    pub fn accessed() -> (r: Self)
        ensures
            r.0 == 0x20,
    {
        Self(0x20)
    }

    pub fn dirty() -> (r: Self)
        ensures
            r.0 == 0x40,
    {
        Self(0x40)
    }

    pub fn huge_page() -> (r: Self)
        ensures
            r.0 == 0x80,
    {
        Self(0x80)
    }

    pub fn global() -> (r: Self)
        ensures
            r.0 == 0x100,
    {
        Self(0x100)
    }

    pub fn no_execute() -> (r: Self)
        ensures
            r.0 == 0x8000_0000_0000_0000,
    {
        Self(0x8000_0000_0000_0000)
    }

    /// Present, read-only and executable.
    pub fn kernel_code() -> (r: Self)
        ensures
            r.0 == 0x1,
    {
        Self(0x1)
    }

    /// Present, writable and not executable.
    pub fn kernel_data() -> (r: Self)
        ensures
            r.0 == 0x8000_0000_0000_0003,
    {
        Self(0x8000_0000_0000_0003)
    }

    /// Present, writable, uncached, write-through and not executable.
    pub fn mmio() -> (r: Self)
        ensures
            r.0 == 0x8000_0000_0000_001B,
    {
        Self(0x8000_0000_0000_001B)
    }
}

impl core::ops::BitOr for PageTableFlags {
    type Output = Self;

    fn bitor(self, rhs: Self) -> (r: Self) {
        Self(self.0 | rhs.0)
    }
}

impl vstd::std_specs::ops::BitOrSpecImpl for PageTableFlags {
    open spec fn obeys_bitor_spec() -> bool {
        true
    }

    open spec fn bitor_req(self, rhs: Self) -> bool {
        true
    }

    open spec fn bitor_spec(self, rhs: Self) -> Self {
        PageTableFlags(self.0 | rhs.0)
    }
}

impl core::ops::BitAnd for PageTableFlags {
    type Output = Self;

    fn bitand(self, rhs: Self) -> (r: Self) {
        Self(self.0 & rhs.0)
    }
}

impl vstd::std_specs::ops::BitAndSpecImpl for PageTableFlags {
    open spec fn obeys_bitand_spec() -> bool {
        true
    }

    open spec fn bitand_req(self, rhs: Self) -> bool {
        true
    }

    open spec fn bitand_spec(self, rhs: Self) -> Self {
        PageTableFlags(self.0 & rhs.0)
    }
}

impl core::ops::BitOrAssign for PageTableFlags {
    fn bitor_assign(&mut self, rhs: Self)
        ensures
            final(self).0 == old(self).0 | rhs.0,
    {
        self.0 = self.0 | rhs.0;
    }
}

/// Flags that are joined have the bits of either, and those that are met the bits of
/// both.
pub proof fn lemma_flags_combined(a: PageTableFlags, b: PageTableFlags)
    ensures
        vstd::std_specs::ops::BitOrSpec::bitor_spec(a, b).0 == a.0 | b.0,
        vstd::std_specs::ops::BitAndSpec::bitand_spec(a, b).0 == a.0 & b.0,
{
}

/// One word of a page table.
#[derive(Copy, Clone, Debug, PartialEq, Eq, Structural)]
pub struct PageTableEntry(pub u64);

/// The entry that `set` writes for a physical address and flags.
pub open spec fn entry_for(phys_addr: u64, flags: PageTableFlags) -> PageTableEntry {
    PageTableEntry((phys_addr & ENTRY_ADDRESS_MASK) | flags.0)
}

impl PageTableEntry {
    /// The entry maps something.
    pub open spec fn maps(self) -> bool {
        self.0 & 1 != 0
    }

    /// The physical address that the entry holds.
    pub open spec fn target(self) -> u64 {
        self.0 & ENTRY_ADDRESS_MASK
    }

    /// The flags that the entry holds.
    pub open spec fn mode(self) -> PageTableFlags {
        PageTableFlags(self.0 & ENTRY_FLAGS_MASK)
    }

    pub fn empty() -> (r: Self)
        ensures
            r == PageTableEntry(0),
            !r.maps(),
    {
        assert(0u64 & 1 == 0) by (bit_vector);
        Self(0)
    }

    pub fn is_present(self) -> (r: bool)
        ensures
            r == self.maps(),
            r <==> self.0 & 1 != 0,
    {
        (self.0 & 0x1) != 0
    }

    pub fn flags(self) -> (r: PageTableFlags)
        ensures
            r == self.mode(),
            r.0 == self.0 & 0xFFF0_0000_0000_0FFF,
    {
        PageTableFlags(self.0 & ENTRY_FLAGS_MASK)
    }

    pub fn phys_addr(self) -> (r: u64)
        ensures
            r == self.target(),
            r == self.0 & 0x000F_FFFF_FFFF_F000,
            r % 4096 == 0,
            r < 0x10_0000_0000_0000,
    {
        proof {
            lemma_entry_target(self);
        }
        self.0 & ENTRY_ADDRESS_MASK
    }

    pub fn set(&mut self, phys_addr: u64, flags: PageTableFlags)
        ensures
            *final(self) == entry_for(phys_addr, flags),
            final(self).0 == (phys_addr & 0x000F_FFFF_FFFF_F000) | flags.0,
    {
        self.0 = (phys_addr & ENTRY_ADDRESS_MASK) | flags.0;
    }

    pub fn clear(&mut self)
        ensures
            *final(self) == PageTableEntry(0),
            !final(self).maps(),
    {
        assert(0u64 & 1 == 0) by (bit_vector);
        self.0 = 0;
    }
}

/// An entry points at a whole page below 2^52.
pub proof fn lemma_entry_target(e: PageTableEntry)
    ensures
        e.target() % 4096 == 0,
        e.target() < 0x10_0000_0000_0000,
{
    let w = e.0;
    assert((w & 0x000F_FFFF_FFFF_F000) % 4096 == 0) by (bit_vector);
    assert((w & 0x000F_FFFF_FFFF_F000) < 0x10_0000_0000_0000) by (bit_vector);
}

/// An entry gives back the page and the flags that were written to it, where
/// the page is aligned and below 2^52 and the flags are flag bits only.
pub proof fn lemma_entry_round_trip(phys_addr: u64, flags: PageTableFlags)
    requires
        phys_addr % 4096 == 0,
        phys_addr < 0x10_0000_0000_0000,
        flags.0 & ENTRY_ADDRESS_MASK == 0,
    ensures
        entry_for(phys_addr, flags).target() == phys_addr,
        entry_for(phys_addr, flags).mode() == flags,
        entry_for(phys_addr, flags).maps() == (flags.0 & 1 != 0),
{
    let f = flags.0;
    assert(((phys_addr & 0x000F_FFFF_FFFF_F000) | f) & 0x000F_FFFF_FFFF_F000 == phys_addr && ((
    phys_addr & 0x000F_FFFF_FFFF_F000) | f) & 0xFFF0_0000_0000_0FFF == f && ((phys_addr
        & 0x000F_FFFF_FFFF_F000) | f) & 1 == f & 1) by (bit_vector)
        requires
            phys_addr % 4096 == 0,
            phys_addr < 0x10_0000_0000_0000,
            f & 0x000F_FFFF_FFFF_F000 == 0,
    ;
}

/// Whether an entry maps something is up to the flags alone.
pub proof fn lemma_entry_maps(phys_addr: u64, flags: PageTableFlags)
    ensures
        entry_for(phys_addr, flags).maps() == (flags.0 & 1 != 0),
{
    let f = flags.0;
    assert(((phys_addr & 0x000F_FFFF_FFFF_F000) | f) & 1 == f & 1) by (bit_vector);
}

/// A frame of physical memory: 512 words, which are the entries of a table
/// where the frame is used as one.
#[derive(Copy, Clone)]
pub struct PageTable {
    pub entries: [PageTableEntry; 512],
}

impl PageTable {
    pub fn empty() -> (r: Self)
        ensures
            forall|i: int| 0 <= i < 512 ==> #[trigger] r.entries@[i] == PageTableEntry(0),
    {
        let e = PageTableEntry::empty();
        Self { entries: [e; 512] }
    }

    pub fn zero(&mut self)
        ensures
            forall|i: int| 0 <= i < 512 ==> #[trigger] final(self).entries@[i] == PageTableEntry(0),
    {
        let mut i: usize = 0;
        while i < 512
            invariant
                i <= 512,
                forall|k: int| 0 <= k < i ==> #[trigger] self.entries@[k] == PageTableEntry(0),
            decreases 512 - i,
        {
            self.entries[i].clear();
            i = i + 1;
        }
    }
}

#[derive(Copy, Clone, Debug, PartialEq, Eq, Structural)]
pub enum RegionPurpose {
    KernelBinary,
    KernelStack,
    DirectMappedRam,
    Mmio,
    DynamicKernel,
    Reserved,
}

impl RegionPurpose {
    /// The label that a purpose has in the boot log.
    pub open spec fn label(self) -> Seq<char> {
        match self {
            RegionPurpose::KernelBinary => "KERNEL_BINARY"@,
            RegionPurpose::KernelStack => "KERNEL_STACK"@,
            RegionPurpose::DirectMappedRam => "DIRECT_RAM"@,
            RegionPurpose::Mmio => "MMIO"@,
            RegionPurpose::DynamicKernel => "DYNAMIC_KERNEL"@,
            RegionPurpose::Reserved => "RESERVED"@,
        }
    }

    pub fn name(self) -> (r: &'static str)
        ensures
            r@ == self.label(),
            self == RegionPurpose::KernelBinary ==> r@ == "KERNEL_BINARY"@,
            self == RegionPurpose::KernelStack ==> r@ == "KERNEL_STACK"@,
            self == RegionPurpose::DirectMappedRam ==> r@ == "DIRECT_RAM"@,
            self == RegionPurpose::Mmio ==> r@ == "MMIO"@,
            self == RegionPurpose::DynamicKernel ==> r@ == "DYNAMIC_KERNEL"@,
            self == RegionPurpose::Reserved ==> r@ == "RESERVED"@,
    {
        match self {
            RegionPurpose::KernelBinary => "KERNEL_BINARY",
            RegionPurpose::KernelStack => "KERNEL_STACK",
            RegionPurpose::DirectMappedRam => "DIRECT_RAM",
            RegionPurpose::Mmio => "MMIO",
            RegionPurpose::DynamicKernel => "DYNAMIC_KERNEL",
            RegionPurpose::Reserved => "RESERVED",
        }
    }
}

/// A range of virtual addresses with one purpose.
#[derive(Copy, Clone, Debug, PartialEq, Eq, Structural)]
pub struct VirtRegion {
    pub start: VirtAddr,
    pub size_bytes: u64,
    pub permissions: VirtPermissions,
    pub purpose: RegionPurpose,
    pub owns_physical_pages: bool,
}

impl VirtRegion {
    /// The address after the region.
    pub open spec fn limit(self) -> int {
        self.start.0 + self.size_bytes
    }

    /// The address after the region fits in 64 bits.
    pub open spec fn fits(self) -> bool {
        self.limit() <= u64::MAX
    }

    /// The number of whole pages of the region.
    pub open spec fn pages(self) -> int {
        self.size_bytes as int / 4096
    }

    /// Address `addr` lies in the region.
    pub open spec fn covers(self, addr: int) -> bool {
        self.start.0 <= addr < self.limit()
    }

    /// Some address lies in the region and from `start` to below `end`, given
    /// that neither is empty.
    pub open spec fn meets(self, start: int, end: int) -> bool {
        self.start.0 < end && start < self.limit()
    }

    pub open spec fn spec_empty() -> VirtRegion {
        VirtRegion {
            start: VirtAddr(0),
            size_bytes: 0,
            permissions: VirtPermissions {
                readable: true,
                writable: true,
                executable: false,
                user: false,
            },
            purpose: RegionPurpose::Reserved,
            owns_physical_pages: false,
        }
    }

    pub fn empty() -> (r: Self)
        ensures
            r == VirtRegion::spec_empty(),
            r.start.0 == 0,
            r.size_bytes == 0,
            r.purpose == RegionPurpose::Reserved,
            !r.owns_physical_pages,
    {
        Self {
            start: VirtAddr(0),
            size_bytes: 0,
            permissions: VirtPermissions::kernel_data(),
            purpose: RegionPurpose::Reserved,
            owns_physical_pages: false,
        }
    }

    pub fn end(&self) -> (r: VirtAddr)
        requires
            self.fits(),
        ensures
            r.0 == self.limit(),
            r.0 == self.start.0 + self.size_bytes,
    {
        VirtAddr::new(self.start.as_u64() + self.size_bytes)
    }

    pub fn contains(&self, addr: VirtAddr) -> (r: bool)
        requires
            self.fits(),
        ensures
            r == self.covers(addr.0 as int),
            r <==> self.start.0 <= addr.0 < self.start.0 + self.size_bytes,
    {
        addr.as_u64() >= self.start.as_u64() && addr.as_u64() < self.end().as_u64()
    }

    pub fn overlaps(&self, other_start: VirtAddr, other_size: u64) -> (r: bool)
        requires
            self.fits(),
            other_start.0 + other_size <= u64::MAX,
        ensures
            r == self.meets(other_start.0 as int, other_start.0 + other_size),
            r <==> self.start.0 < other_start.0 + other_size && other_start.0 < self.start.0
                + self.size_bytes,
    {
        let self_start: u64 = self.start.as_u64();
        let self_end: u64 = self.end().as_u64();
        let other_end: u64 = other_start.as_u64() + other_size;

        self_start < other_end && other_start.as_u64() < self_end
    }
}

#[derive(Copy, Clone, Debug, PartialEq, Eq, Structural)]
pub enum MapError {
    NonCanonicalAddress,
    UnalignedVirtualAddress,
    UnalignedPhysicalAddress,
    FrameAllocationFailed,
    AlreadyMapped,
}

#[derive(Copy, Clone, Debug, PartialEq, Eq, Structural)]
pub enum UnmapError {
    NonCanonicalAddress,
    UnalignedVirtualAddress,
    NotMapped,
    ParentTableMissing,
}

#[derive(Copy, Clone, Debug, PartialEq, Eq, Structural)]
pub enum VmmError {
    NonCanonicalAddress,
    UnalignedVirtualAddress,
    UnalignedPhysicalAddress,
    ZeroSize,
    RegionTableFull,
    RegionOverlaps,
    AddressOverflow,
    PhysicalAllocationFailed,
    PageTableMappingFailed,
    RegionNotFound,
}

/// The registry of virtual regions, and where the next dynamic one starts.
pub struct VirtualMemoryManager {
    pub regions: [VirtRegion; MAX_VIRT_REGIONS],
    pub region_count: usize,
    pub next_dynamic_addr: u64,
}

impl View for VirtualMemoryManager {
    type V = Seq<VirtRegion>;

    /// The registered regions.
    open spec fn view(&self) -> Seq<VirtRegion> {
        self.regions@.take(self.region_count as int)
    }
}

/// A region that may be registered: whole pages at canonical addresses.
pub open spec fn region_ok(r: VirtRegion) -> bool {
    &&& r.fits()
    &&& canonical(r.start.0)
    &&& canonical(r.limit() as u64)
    &&& r.start.0 % 4096 == 0
    &&& r.size_bytes > 0
    &&& r.size_bytes % 4096 == 0
}

/// No address lies in two regions of `s`.
pub open spec fn regions_disjoint(s: Seq<VirtRegion>) -> bool {
    forall|i: int, j: int|
        0 <= i < j < s.len() ==> !(#[trigger] s[i]).meets(
            (#[trigger] s[j]).start.0 as int,
            s[j].limit(),
        )
}

/// A region of `s` meets the addresses from `start` to below `end`.
pub open spec fn taken(s: Seq<VirtRegion>, start: int, end: int) -> bool {
    exists|i: int| 0 <= i < s.len() && (#[trigger] s[i]).meets(start, end)
}

impl VirtualMemoryManager {
    /// The registered regions are whole pages and do not overlap; the next
    /// dynamic address is a page of the dynamic range or its end.
    pub open spec fn wf(&self) -> bool {
        &&& self.region_count <= MAX_VIRT_REGIONS
        &&& forall|i: int| 0 <= i < self@.len() ==> region_ok(#[trigger] self@[i])
        &&& regions_disjoint(self@)
        &&& DYNAMIC_VIRT_START <= self.next_dynamic_addr <= DYNAMIC_VIRT_END
        &&& self.next_dynamic_addr % 4096 == 0
    }

    /// A registry without regions.
    pub fn new() -> (r: Self)
        ensures
            r.wf(),
            r@ == Seq::<VirtRegion>::empty(),
            r.next_dynamic_addr == 0x0000_1000_0000_0000,
            forall|i: int| 0 <= i < MAX_VIRT_REGIONS ==> r.regions@[i] == VirtRegion::spec_empty(),
    {
        let blank = VirtRegion::empty();
        Self {
            regions: [blank; MAX_VIRT_REGIONS],
            region_count: 0,
            next_dynamic_addr: DYNAMIC_VIRT_START,
        }
    }
}

/// Whether a registered region meets the `size_bytes` bytes from `start` on.
fn overlaps_any(vmm: &VirtualMemoryManager, start: VirtAddr, size_bytes: u64) -> (r: bool)
    requires
        vmm.wf(),
        start.0 + size_bytes <= u64::MAX,
    ensures
        r == taken(vmm@, start.0 as int, start.0 + size_bytes),
{
    let mut i: usize = 0;
    while i < vmm.region_count
        invariant
            vmm.wf(),
            start.0 + size_bytes <= u64::MAX,
            i <= vmm.region_count,
            forall|k: int|
                0 <= k < i ==> !(#[trigger] vmm@[k]).meets(start.0 as int, start.0 + size_bytes),
        decreases vmm.region_count - i,
    {
        assert(vmm.regions@[i as int] == vmm@[i as int]);
        if vmm.regions[i].overlaps(start, size_bytes) {
            return true;
        }
        i = i + 1;
    }
    false
}

/// Why `region` cannot be registered beside the regions of `s`; none if it can.
pub open spec fn register_refusal(s: Seq<VirtRegion>, region: VirtRegion) -> Option<VmmError> {
    if !canonical(region.start.0) || !canonical(region.limit() as u64) {
        Some(VmmError::NonCanonicalAddress)
    } else if region.start.0 % 4096 != 0 {
        Some(VmmError::UnalignedVirtualAddress)
    } else if region.size_bytes == 0 || region.size_bytes % 4096 != 0 {
        Some(VmmError::ZeroSize)
    } else if s.len() >= MAX_VIRT_REGIONS {
        Some(VmmError::RegionTableFull)
    } else if taken(s, region.start.0 as int, region.limit()) {
        Some(VmmError::RegionOverlaps)
    } else {
        None
    }
}

/// Registers a region that the caller places.
pub fn register_region(vmm: &mut VirtualMemoryManager, region: VirtRegion) -> (r: Result<
    (),
    VmmError,
>)
    requires
        old(vmm).wf(),
        region.fits(),
    ensures
        final(vmm).wf(),
        final(vmm).next_dynamic_addr == old(vmm).next_dynamic_addr,
        match register_refusal(old(vmm)@, region) {
            Some(e) => r == Err::<(), VmmError>(e) && *final(vmm) == *old(vmm),
            None => r == Ok::<(), VmmError>(()) && final(vmm)@ == old(vmm)@.push(region),
        },
{
    if !is_canonical(region.start.as_u64()) || !is_canonical(region.end().as_u64()) {
        return Err(VmmError::NonCanonicalAddress);
    }
    if !region.start.is_aligned() {
        return Err(VmmError::UnalignedVirtualAddress);
    }
    if region.size_bytes == 0 || region.size_bytes % PAGE_SIZE != 0 {
        return Err(VmmError::ZeroSize);
    }
    if vmm.region_count >= MAX_VIRT_REGIONS {
        return Err(VmmError::RegionTableFull);
    }
    if overlaps_any(vmm, region.start, region.size_bytes) {
        return Err(VmmError::RegionOverlaps);
    }
    push_region(vmm, region);
    Ok(())
}

/// Adds a region that the registry has room for and that meets no other.
fn push_region(vmm: &mut VirtualMemoryManager, region: VirtRegion)
    requires
        old(vmm).wf(),
        region_ok(region),
        old(vmm).region_count < MAX_VIRT_REGIONS,
        !taken(old(vmm)@, region.start.0 as int, region.limit()),
    ensures
        final(vmm).wf(),
        final(vmm)@ == old(vmm)@.push(region),
        final(vmm).next_dynamic_addr == old(vmm).next_dynamic_addr,
{
    let ghost before = vmm@;
    vmm.regions[vmm.region_count] = region;
    vmm.region_count = vmm.region_count + 1;
    proof {
        assert(vmm@ =~= before.push(region));
        assert forall|i: int, j: int| 0 <= i < j < vmm@.len() implies !(
        #[trigger] vmm@[i]).meets((#[trigger] vmm@[j]).start.0 as int, vmm@[j].limit()) by {
            if j < before.len() {
                assert(!before[i].meets(before[j].start.0 as int, before[j].limit()));
            } else {
                assert(!before[i].meets(region.start.0 as int, region.limit()));
            }
        }
    }
}

/// The region that a reservation of `size_bytes` gets next.
pub open spec fn next_region(
    next: u64,
    size_bytes: u64,
    permissions: VirtPermissions,
    purpose: RegionPurpose,
) -> VirtRegion {
    VirtRegion {
        start: VirtAddr(next),
        size_bytes,
        permissions,
        purpose,
        owns_physical_pages: false,
    }
}

/// Why `size_bytes` bytes from `next` on cannot be reserved beside the regions
/// of `s`; none if they can.
pub open spec fn reserve_refusal(
    s: Seq<VirtRegion>,
    next: u64,
    size_bytes: u64,
) -> Option<VmmError> {
    let end = next + size_bytes;
    if size_bytes == 0 || size_bytes % 4096 != 0 {
        Some(VmmError::ZeroSize)
    } else if end > DYNAMIC_VIRT_END {
        Some(VmmError::AddressOverflow)
    } else if taken(s, next as int, end) {
        Some(VmmError::RegionOverlaps)
    } else if s.len() >= MAX_VIRT_REGIONS {
        Some(VmmError::RegionTableFull)
    } else {
        None
    }
}

/// Reserves the next addresses of the dynamic range.
pub fn reserve_virtual_region(
    vmm: &mut VirtualMemoryManager,
    size_bytes: u64,
    permissions: VirtPermissions,
    purpose: RegionPurpose,
) -> (r: Result<VirtRegion, VmmError>)
    requires
        old(vmm).wf(),
    ensures
        final(vmm).wf(),
        r matches Ok(region) ==> {
            &&& region.start == VirtAddr(old(vmm).next_dynamic_addr)
            &&& region.size_bytes == size_bytes
            &&& region.permissions == permissions
            &&& region.purpose == purpose
            &&& !region.owns_physical_pages
        },
        match reserve_refusal(old(vmm)@, old(vmm).next_dynamic_addr, size_bytes) {
            Some(e) => r == Err::<VirtRegion, VmmError>(e) && *final(vmm) == *old(vmm),
            None => {
                let region = next_region(
                    old(vmm).next_dynamic_addr,
                    size_bytes,
                    permissions,
                    purpose,
                );
                &&& r == Ok::<VirtRegion, VmmError>(region)
                &&& region_ok(region)
                &&& final(vmm)@ == old(vmm)@.push(region)
                &&& final(vmm).next_dynamic_addr == region.limit()
            },
        },
{
    if size_bytes == 0 || size_bytes % PAGE_SIZE != 0 {
        return Err(VmmError::ZeroSize);
    }
    let start_addr: u64 = vmm.next_dynamic_addr;
    let end_addr: u64 = match start_addr.checked_add(size_bytes) {
        Some(e) => e,
        None => return Err(VmmError::AddressOverflow),
    };
    if end_addr > DYNAMIC_VIRT_END || !is_canonical(end_addr) {
        return Err(VmmError::AddressOverflow);
    }
    if overlaps_any(vmm, VirtAddr::new(start_addr), size_bytes) {
        return Err(VmmError::RegionOverlaps);
    }
    let region = VirtRegion {
        start: VirtAddr::new(start_addr),
        size_bytes,
        permissions,
        purpose,
        owns_physical_pages: false,
    };
    if vmm.region_count >= MAX_VIRT_REGIONS {
        return Err(VmmError::RegionTableFull);
    }
    push_region(vmm, region);
    vmm.next_dynamic_addr = end_addr;
    Ok(region)
}

/// The registered region that `addr` lies in.
pub fn find_region_for_addr(vmm: &VirtualMemoryManager, addr: VirtAddr) -> (r: Option<VirtRegion>)
    requires
        vmm.wf(),
    ensures
        match r {
            Some(region) => region.covers(addr.0 as int) && exists|i: int|
                0 <= i < vmm@.len() && #[trigger] vmm@[i] == region,
            None => forall|i: int|
                0 <= i < vmm@.len() ==> !(#[trigger] vmm@[i]).covers(addr.0 as int),
        },
        r matches Some(region) ==> region.start.0 <= addr.0 < region.start.0 + region.size_bytes,
        r is None ==> forall|i: int|
            0 <= i < vmm@.len() ==> addr.0 < (#[trigger] vmm@[i]).start.0 || vmm@[i].start.0
                + vmm@[i].size_bytes <= addr.0,
{
    let mut i: usize = 0;
    while i < vmm.region_count
        invariant
            vmm.wf(),
            i <= vmm.region_count,
            forall|k: int| 0 <= k < i ==> !(#[trigger] vmm@[k]).covers(addr.0 as int),
        decreases vmm.region_count - i,
    {
        assert(vmm.regions@[i as int] == vmm@[i as int]);
        if vmm.regions[i].contains(addr) {
            return Some(vmm.regions[i]);
        }
        i = i + 1;
    }
    None
}

/// Regions that do not overlap share no address, so at most one region
/// answers a lookup.
pub proof fn lemma_region_lookup_unique(s: Seq<VirtRegion>, i: int, j: int, addr: int)
    requires
        regions_disjoint(s),
        0 <= i < s.len(),
        0 <= j < s.len(),
        s[i].covers(addr),
        s[j].covers(addr),
    ensures
        i == j,
{
    if i < j {
        assert(!s[i].meets(s[j].start.0 as int, s[j].limit()));
    }
    if j < i {
        assert(!s[j].meets(s[i].start.0 as int, s[i].limit()));
    }
}

/// The registry without the first region that starts at `start`, whose place
/// the last one takes.
pub open spec fn without_region(s: Seq<VirtRegion>, start: VirtAddr) -> Seq<VirtRegion> {
    if exists|i: int| 0 <= i < s.len() && (#[trigger] s[i]).start == start {
        let i = choose|i: int|
            0 <= i < s.len() && (#[trigger] s[i]).start == start && forall|k: int|
                0 <= k < i ==> (#[trigger] s[k]).start != start;
        s.update(i, s.last()).drop_last()
    } else {
        s
    }
}

/// Drops the region that starts at `start` from the registry.
pub(crate) fn forget_region(vmm: &mut VirtualMemoryManager, start: VirtAddr)
    requires
        old(vmm).wf(),
    ensures
        final(vmm).wf(),
        final(vmm)@ == without_region(old(vmm)@, start),
        final(vmm).next_dynamic_addr == old(vmm).next_dynamic_addr,
{
    let ghost before = vmm@;
    let mut i: usize = 0;
    while i < vmm.region_count
        invariant
            *vmm == *old(vmm),
            vmm.wf(),
            before == vmm@,
            i <= vmm.region_count,
            forall|k: int| 0 <= k < i ==> (#[trigger] before[k]).start != start,
        decreases vmm.region_count - i,
    {
        assert(vmm.regions@[i as int] == before[i as int]);
        if vmm.regions[i].start == start {
            let last: usize = vmm.region_count - 1;
            assert(vmm.regions@[last as int] == before[last as int]);
            vmm.regions[i] = vmm.regions[last];
            vmm.regions[last] = VirtRegion::empty();
            vmm.region_count = last;
            proof {
                let after = before.update(i as int, before.last()).drop_last();
                assert(vmm@ =~= after);
                assert(without_region(before, start) == after) by {
                    let c = choose|c: int|
                        0 <= c < before.len() && (#[trigger] before[c]).start == start
                            && forall|k: int| 0 <= k < c ==> (#[trigger] before[k]).start != start;
                    assert(before[i as int].start == start);
                    assert(c == i);
                }
                assert forall|a: int, b: int| 0 <= a < b < after.len() implies !(
                #[trigger] after[a]).meets((#[trigger] after[b]).start.0 as int, after[b].limit()) by {
                    let a0 = if a == i {
                        last as int
                    } else {
                        a
                    };
                    let b0 = if b == i {
                        last as int
                    } else {
                        b
                    };
                    assert(after[a] == before[a0] && after[b] == before[b0]);
                    if a0 < b0 {
                        assert(!before[a0].meets(before[b0].start.0 as int, before[b0].limit()));
                    } else {
                        assert(!before[b0].meets(before[a0].start.0 as int, before[a0].limit()));
                    }
                }
            }
            return;
        }
        i = i + 1;
    }
}

/// Drops the region that was reserved last and sets where the next one starts.
pub(crate) fn cancel_reservation(vmm: &mut VirtualMemoryManager, next_dynamic_addr: u64)
    requires
        old(vmm).wf(),
        old(vmm)@.len() > 0,
        DYNAMIC_VIRT_START <= next_dynamic_addr <= DYNAMIC_VIRT_END,
        next_dynamic_addr % 4096 == 0,
    ensures
        final(vmm).wf(),
        final(vmm)@ == old(vmm)@.drop_last(),
        final(vmm).next_dynamic_addr == next_dynamic_addr,
{
    let ghost before = vmm@;
    let last: usize = vmm.region_count - 1;
    vmm.regions[last] = VirtRegion::empty();
    vmm.region_count = last;
    vmm.next_dynamic_addr = next_dynamic_addr;
    proof {
        assert(vmm@ =~= before.drop_last());
        assert forall|i: int, j: int| 0 <= i < j < vmm@.len() implies !(
        #[trigger] vmm@[i]).meets((#[trigger] vmm@[j]).start.0 as int, vmm@[j].limit()) by {
            assert(!before[i].meets(before[j].start.0 as int, before[j].limit()));
        }
        assert forall|i: int| 0 <= i < vmm@.len() implies region_ok(#[trigger] vmm@[i]) by {
            assert(region_ok(before[i]));
        }
    }
}

} // verus!
