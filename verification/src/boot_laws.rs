//! What holds of the kernel's address space once it was built at boot.

use vstd::prelude::*;
use crate::kernel_space;
use crate::memory::{MemoryRegion, MemoryType};
use crate::paging;
use crate::paging::MemoryManager;
use crate::paging_laws;
use crate::pmm;
use crate::pmm::PhysPage;
use crate::vmm;
use crate::vmm::{PageTable, PageTableFlags, RegionPurpose, VirtAddr, VirtRegion};
use crate::walk;

verus! {

/// Address `addr` lies in region `r`, which starts at a page.
pub open spec fn lies_in(r: MemoryRegion, addr: int) -> bool {
    r.physical_start % 4096 == 0 && r.physical_start <= addr < r.physical_end
}

/// The first region that holds a page decides how it is mapped; a page that none
/// holds is not mapped for the sake of memory.
#[verifier::rlimit(20)]
proof fn lemma_first_holder(s: Seq<MemoryRegion>, a: u64)
    ensures
        forall|i: int|
            0 <= i < s.len() && lies_in(#[trigger] s[i], a as int) && (forall|j: int|
                0 <= j < i ==> !lies_in(#[trigger] s[j], a as int)) ==> kernel_space::ram_entry(s, a)
                == Some(
                vmm::entry_for(
                    a,
                    PageTableFlags(
                        if s[i].region_type == MemoryType::LoaderCode {
                            1
                        } else {
                            0x8000_0000_0000_0003
                        },
                    ),
                ),
            ),
        (forall|i: int| 0 <= i < s.len() ==> !lies_in(#[trigger] s[i], a as int))
            ==> kernel_space::ram_entry(s, a) is None,
    decreases s.len(),
{
    if s.len() > 0 {
        let t = s.drop_last();
        let last = s.len() - 1;
        lemma_first_holder(t, a);
        assert forall|i: int|
            0 <= i < s.len() && lies_in(#[trigger] s[i], a as int) && (forall|j: int|
                0 <= j < i ==> !lies_in(#[trigger] s[j], a as int)) implies kernel_space::ram_entry(
            s,
            a,
        ) == Some(
            vmm::entry_for(
                a,
                PageTableFlags(
                    if s[i].region_type == MemoryType::LoaderCode {
                        1
                    } else {
                        0x8000_0000_0000_0003
                    },
                ),
            ),
        ) by {
            if i < last {
                assert(t[i] == s[i]);
                assert forall|j: int| 0 <= j < i implies !lies_in(#[trigger] t[j], a as int) by {
                    assert(t[j] == s[j]);
                }
            } else {
                assert forall|j: int| 0 <= j < t.len() implies !lies_in(
                    #[trigger] t[j],
                    a as int,
                ) by {
                    assert(t[j] == s[j]);
                }
            }
        }
        if forall|i: int| 0 <= i < s.len() ==> !lies_in(#[trigger] s[i], a as int) {
            assert forall|j: int| 0 <= j < t.len() implies !lies_in(#[trigger] t[j], a as int) by {
                assert(t[j] == s[j]);
            }
            assert(!lies_in(s[last], a as int));
        }
    }
}

/// The page that an address lies in.
proof fn lemma_page_start(addr: u64) -> (page: u64)
    requires
        vmm::canonical(addr),
    ensures
        page == addr - addr % 4096,
        page % 4096 == 0,
        vmm::canonical(page),
        walk::page_of(page) == walk::page_of(addr),
{
    let page = (addr - addr % 4096) as u64;
    let q = addr as int / 4096;
    assert(page == 4096 * q);
    assert(page as int % 0x1_0000_0000_0000 == 4096 * (q % 0x10_0000_0000));
    assert(addr as int % 0x1_0000_0000_0000 == 4096 * (q % 0x10_0000_0000) + addr % 4096);
    page
}

/// What an address translates to where its page is mapped to itself with `flags`, as
/// far as there is a table for it.
proof fn lemma_identity(
    mm: MemoryManager,
    mem: Seq<PageTable>,
    root: PhysPage,
    s: Seq<MemoryRegion>,
    addr: u64,
    page: u64,
    flags: PageTableFlags,
)
    requires
        kernel_space::boot_mapped(mm, mem, root, s),
        addr < 0x0000_8000_0000_0000,
        page == addr - addr % 4096,
        kernel_space::boot_entry(s, page) == Some(vmm::entry_for(page, flags)),
        flags.0 & vmm::ENTRY_ADDRESS_MASK == 0,
    ensures
        paging::translation(mem, root, VirtAddr(addr)) matches Some(t) ==> t == (
            PhysPage(addr),
            flags,
        ),
        paging::translation(mem, root, VirtAddr(addr)) is None ==> mm.pmm@.free_count() == 0,
{
    let p = lemma_page_start(addr);
    assert(p == page);
    vmm::lemma_entry_round_trip(page, flags);
    let r = root.0 as int / 4096;
    assert(walk::mapping(mem, r, walk::page_of(page)) == if walk::table_at(
        mem,
        r,
        walk::page_of(page),
        1,
    ) is Some {
        kernel_space::boot_entry(s, page)
    } else {
        None
    });
}

proof fn lemma_boot_flags()
    ensures
        1u64 & vmm::ENTRY_ADDRESS_MASK == 0,
        0x8000_0000_0000_0003u64 & vmm::ENTRY_ADDRESS_MASK == 0,
        0x8000_0000_0000_001Bu64 & vmm::ENTRY_ADDRESS_MASK == 0,
{
    assert(1u64 & 0x000F_FFFF_FFFF_F000 == 0 && 0x8000_0000_0000_0003u64 & 0x000F_FFFF_FFFF_F000
        == 0 && 0x8000_0000_0000_001Bu64 & 0x000F_FFFF_FFFF_F000 == 0) by (bit_vector);
}

/// Memory is mapped to itself. The first region that holds an address decides: the
/// loader's code is present only, so it can be run and not written, and memory of any
/// other type is present, writable and not executable. An address of memory
/// translates to nothing only where the frames for its tables ran out.
pub proof fn lemma_memory_mapped(
    mm: MemoryManager,
    mem: Seq<PageTable>,
    root: PhysPage,
    s: Seq<MemoryRegion>,
    i: int,
    addr: u64,
)
    requires
        kernel_space::boot_mapped(mm, mem, root, s),
        forall|j: int| 0 <= j < s.len() ==> (#[trigger] s[j]).wf(),
        0 <= i < s.len(),
        lies_in(s[i], addr as int),
        forall|j: int| 0 <= j < i ==> !lies_in(#[trigger] s[j], addr as int),
        addr < 0x0000_8000_0000_0000,
    ensures
        s[i].region_type == MemoryType::LoaderCode ==> (paging::translation(
            mem,
            root,
            VirtAddr(addr),
        ) matches Some(t) ==> t == (PhysPage(addr), PageTableFlags(0x1))),
        s[i].region_type != MemoryType::LoaderCode ==> (paging::translation(
            mem,
            root,
            VirtAddr(addr),
        ) matches Some(t) ==> t == (PhysPage(addr), PageTableFlags(0x8000_0000_0000_0003))),
        paging::translation(mem, root, VirtAddr(addr)) is None ==> mm.pmm@.free_count() == 0,
{
    let page = lemma_page_start(addr);
    lemma_whole_pages(s, addr, page);
    lemma_first_holder(s, page);
    lemma_boot_flags();
    let flags = PageTableFlags(
        if s[i].region_type == MemoryType::LoaderCode {
            1
        } else {
            0x8000_0000_0000_0003
        },
    );
    assert(lies_in(s[i], page as int));
    assert(kernel_space::ram_entry(s, page) == Some(vmm::entry_for(page, flags)));
    lemma_identity(mm, mem, root, s, addr, page, flags);
}

/// A region of whole pages that starts at a page holds all of a page or nothing.
proof fn lemma_whole_pages(s: Seq<MemoryRegion>, addr: u64, page: u64)
    requires
        forall|j: int| 0 <= j < s.len() ==> (#[trigger] s[j]).wf(),
        page == addr - addr % 4096,
    ensures
        forall|j: int|
            0 <= j < s.len() ==> lies_in(#[trigger] s[j], addr as int) == lies_in(
                s[j],
                page as int,
            ),
{
    assert forall|j: int| 0 <= j < s.len() implies lies_in(#[trigger] s[j], addr as int) == lies_in(
        s[j],
        page as int,
    ) by {
        let r = s[j];
        assert(r.wf());
        if r.physical_start % 4096 == 0 {
            let a = r.physical_start as int / 4096;
            let b = a + r.page_count;
            assert(r.physical_start == 4096 * a);
            assert(r.physical_end == 4096 * b);
        }
    }
}

/// The registers of the interrupt controllers and the memory of the screen are mapped
/// to themselves where memory does not hold them: present, writable, not cached and
/// not executable.
pub proof fn lemma_devices_mapped(
    mm: MemoryManager,
    mem: Seq<PageTable>,
    root: PhysPage,
    s: Seq<MemoryRegion>,
    addr: u64,
)
    requires
        kernel_space::boot_mapped(mm, mem, root, s),
        forall|j: int| 0 <= j < s.len() ==> (#[trigger] s[j]).wf(),
        forall|j: int| 0 <= j < s.len() ==> !lies_in(#[trigger] s[j], addr as int),
        0xFEE0_0000 <= addr < 0xFEE0_1000 || 0xFEC0_0000 <= addr < 0xFEC0_1000 || 0xA_0000 <= addr
            < 0x10_0000,
    ensures
        paging::translation(mem, root, VirtAddr(addr)) matches Some(t) ==> t == (
            PhysPage(addr),
            PageTableFlags(0x8000_0000_0000_001B),
        ),
        paging::translation(mem, root, VirtAddr(addr)) is None ==> mm.pmm@.free_count() == 0,
{
    let page = lemma_page_start(addr);
    lemma_whole_pages(s, addr, page);
    lemma_first_holder(s, page);
    lemma_boot_flags();
    assert(kernel_space::ram_entry(s, page) is None);
    lemma_identity(mm, mem, root, s, addr, page, PageTableFlags(0x8000_0000_0000_001B));
}

/// Nothing else is mapped.
pub proof fn lemma_rest_unmapped(
    mm: MemoryManager,
    mem: Seq<PageTable>,
    root: PhysPage,
    s: Seq<MemoryRegion>,
    addr: u64,
)
    requires
        kernel_space::boot_mapped(mm, mem, root, s),
        forall|j: int| 0 <= j < s.len() ==> (#[trigger] s[j]).wf(),
        forall|j: int| 0 <= j < s.len() ==> !lies_in(#[trigger] s[j], addr as int),
        !(0xFEE0_0000 <= addr < 0xFEE0_1000),
        !(0xFEC0_0000 <= addr < 0xFEC0_1000),
        !(0xA_0000 <= addr < 0x10_0000),
    ensures
        paging::translation(mem, root, VirtAddr(addr)) is None,
{
    if vmm::canonical(addr) {
        let page = lemma_page_start(addr);
        lemma_whole_pages(s, addr, page);
        lemma_first_holder(s, page);
        assert(kernel_space::boot_entry(s, page) is None);
        let r = root.0 as int / 4096;
        assert(walk::mapping(mem, r, walk::page_of(page)) is None);
    }
}

/// The addresses from `start` to below `end` meet no region of `s`.
pub open spec fn clear_of(s: Seq<VirtRegion>, start: int, end: int) -> bool {
    forall|j: int|
        0 <= j < s.len() ==> (#[trigger] s[j]).start.0 + s[j].size_bytes <= start || end
            <= s[j].start.0
}

/// Addresses meet a registered region or are clear of all.
pub proof fn lemma_taken_or_clear(s: Seq<VirtRegion>, start: int, end: int)
    ensures
        vmm::taken(s, start, end) == !clear_of(s, start, end),
{
    if !clear_of(s, start, end) {
        let j = choose|j: int|
            0 <= j < s.len() && !((#[trigger] s[j]).start.0 + s[j].size_bytes <= start || end
                <= s[j].start.0);
        assert(s[j].meets(start, end));
    }
}

/// When a region is registered: if it is whole pages at addresses that the processor
/// takes, fewer than 64 are registered and none of them has an address in common with
/// it. It is then the last.
pub proof fn lemma_registered_when(s: Seq<VirtRegion>, region: VirtRegion)
    requires
        region.start.0 + region.size_bytes <= 0xFFFF_FFFF_FFFF_FFFF,
    ensures
        ({
            let start = region.start.0 as int;
            let end = start + region.size_bytes;
            if paging_laws::proper(start) && paging_laws::proper(end) && start % 4096 == 0
                && region.size_bytes > 0 && region.size_bytes % 4096 == 0 && s.len() < 64 && clear_of(s, start, end) {
                kernel_space::registered(s, region) == s.push(region)
            } else {
                kernel_space::registered(s, region) == s
            }
        }),
{
    let start = region.start.0 as int;
    let end = start + region.size_bytes;
    lemma_taken_or_clear(s, start, end);
}

/// What one region of memory more does to the registry at boot: it is registered, if
/// it can be, at its own addresses, the loader's code as the kernel's own, for running
/// and not for writing, and any other as memory, for writing and not for running.
pub proof fn lemma_memory_registered(s: Seq<VirtRegion>, regions: Seq<MemoryRegion>, r: MemoryRegion)
    requires
        r.wf(),
    ensures
        kernel_space::ram_registered(s, Seq::<MemoryRegion>::empty()) == s,
        ({
            let before = kernel_space::ram_registered(s, regions);
            let after = kernel_space::ram_registered(s, regions.push(r));
            let start = r.physical_start as int;
            let end = r.physical_end as int;
            let code = r.region_type == MemoryType::LoaderCode;
            if paging_laws::proper(start) && paging_laws::proper(end) && start % 4096 == 0 && before.len() < 64 && clear_of(
                before,
                start,
                end,
            ) {
                &&& after.len() == before.len() + 1
                &&& after.drop_last() == before
                &&& after.last().start.0 == start
                &&& after.last().start.0 + after.last().size_bytes == end
                &&& after.last().permissions.readable
                &&& after.last().permissions.writable == !code
                &&& after.last().permissions.executable == code
                &&& !after.last().permissions.user
                &&& after.last().purpose == if code {
                    RegionPurpose::KernelBinary
                } else {
                    RegionPurpose::DirectMappedRam
                }
                &&& !after.last().owns_physical_pages
            } else {
                after == before
            }
        }),
{
    let before = kernel_space::ram_registered(s, regions);
    let region = kernel_space::ram_region(r);
    assert(regions.push(r).drop_last() =~= regions);
    lemma_registered_when(before, region);
    assert(before.push(region).drop_last() =~= before);
}

/// `after` is `before`, with a region for device registers from `start` to below `end`
/// behind it if one can be registered there: for reading and writing by the kernel.
pub open spec fn device_registered(
    before: Seq<VirtRegion>,
    after: Seq<VirtRegion>,
    start: int,
    end: int,
) -> bool {
    if before.len() < 64 && clear_of(before, start, end) {
        &&& after.len() == before.len() + 1
        &&& after.drop_last() == before
        &&& after.last().start.0 == start
        &&& after.last().start.0 + after.last().size_bytes == end
        &&& after.last().permissions.readable
        &&& after.last().permissions.writable
        &&& !after.last().permissions.executable
        &&& !after.last().permissions.user
        &&& after.last().purpose == RegionPurpose::Mmio
        &&& !after.last().owns_physical_pages
    } else {
        after == before
    }
}

/// After memory, the page of the local interrupt controller is registered, then that
/// of the I/O controller, then the memory of the screen.
pub proof fn lemma_devices_registered(s: Seq<VirtRegion>, regions: Seq<MemoryRegion>)
    ensures
        exists|a: Seq<VirtRegion>, b: Seq<VirtRegion>|
            {
                &&& #[trigger] device_registered(
                    kernel_space::ram_registered(s, regions),
                    a,
                    0xFEE0_0000,
                    0xFEE0_1000,
                )
                &&& #[trigger] device_registered(a, b, 0xFEC0_0000, 0xFEC0_1000)
                &&& device_registered(
                    b,
                    kernel_space::boot_registered(s, regions),
                    0xA_0000,
                    0x10_0000,
                )
            },
{
    let ram = kernel_space::ram_registered(s, regions);
    let x = kernel_space::device_region(0xFEE0_0000, 0x1000);
    let y = kernel_space::device_region(0xFEC0_0000, 0x1000);
    let z = kernel_space::device_region(0xA_0000, 0x6_0000);
    let a = kernel_space::registered(ram, x);
    let b = kernel_space::registered(a, y);
    lemma_registered_when(ram, x);
    lemma_registered_when(a, y);
    lemma_registered_when(b, z);
    assert(ram.push(x).drop_last() =~= ram);
    assert(a.push(y).drop_last() =~= a);
    assert(b.push(z).drop_last() =~= b);
    assert(device_registered(ram, a, 0xFEE0_0000, 0xFEE0_1000));
    assert(device_registered(a, b, 0xFEC0_0000, 0xFEC0_1000));
}

/// The pages that the allocator starts with on a machine with memory map `s`. It
/// manages the pages up to the highest end of a region, but no more than 1048576. A
/// page is free if and only if it is one of those, it is not page 0, and a usable
/// region holds it.
pub proof fn lemma_pages_at_first(s: Seq<MemoryRegion>)
    ensures
        ({
            let pool = pmm::initial_pool(s);
            let total = pool.stats.total_managed_pages as int;
            &&& 0 <= total <= 1048576
            &&& forall|k: int|
                0 <= k < s.len() ==> (#[trigger] s[k]).physical_end as int / 4096 <= total || total
                    == 1048576
            &&& total > 0 ==> exists|k: int|
                0 <= k < s.len() && total <= (#[trigger] s[k]).physical_end as int / 4096
            &&& pool.used.len() == 1048576
            &&& forall|f: int|
                0 <= f < 1048576 ==> (#[trigger] pool.used[f] <==> !(0 < f < total && exists|k: int|
                    0 <= k < s.len() && (#[trigger] s[k]).is_usable && s[k].physical_start as int
                        / 4096 <= f < s[k].physical_end as int / 4096))
            &&& pool.stats.free_pages == pmm::usable_pages(s, 1, total) as usize
            &&& pool.stats.usable_pages == pmm::usable_pages(s, 0, total) as usize
            &&& pmm::usable_pages(s, 1, total) < total ==> pool.stats.used_pages == (total
                - pmm::usable_pages(s, 1, total)) as usize
            &&& pmm::usable_pages(s, 1, total) >= total ==> pool.stats.used_pages == 0
        }),
{
    let pool = pmm::initial_pool(s);
    let total = pmm::managed_pages(s);
    lemma_highest_end(s);
    assert(total as usize == total);
    assert forall|f: int| 0 <= f < 1048576 implies (#[trigger] pool.used[f] <==> !(0 < f < total
        && exists|k: int|
        0 <= k < s.len() && (#[trigger] s[k]).is_usable && s[k].physical_start as int / 4096 <= f
            < s[k].physical_end as int / 4096)) by {
        if pmm::usable_page(s, f) {
            let k = choose|k: int| 0 <= k < s.len() && pmm::usable_in(#[trigger] s[k], f);
            assert(s[k].is_usable);
        }
        if exists|k: int|
            0 <= k < s.len() && (#[trigger] s[k]).is_usable && s[k].physical_start as int / 4096 <= f
                < s[k].physical_end as int / 4096 {
            let k = choose|k: int|
                0 <= k < s.len() && (#[trigger] s[k]).is_usable && s[k].physical_start as int / 4096
                    <= f < s[k].physical_end as int / 4096;
            assert(pmm::usable_in(s[k], f));
        }
    }
}

/// The highest end of a region is the end of one, and none ends behind it.
proof fn lemma_highest_end(s: Seq<MemoryRegion>)
    ensures
        forall|k: int| 0 <= k < s.len() ==> (#[trigger] s[k]).physical_end <= pmm::highest_end(s),
        pmm::highest_end(s) > 0 ==> exists|k: int|
            0 <= k < s.len() && (#[trigger] s[k]).physical_end == pmm::highest_end(s),
    decreases s.len(),
{
    if s.len() > 0 {
        let t = s.drop_last();
        lemma_highest_end(t);
        assert forall|k: int| 0 <= k < s.len() implies (#[trigger] s[k]).physical_end
            <= pmm::highest_end(s) by {
            if k < t.len() {
                assert(t[k] == s[k]);
            }
        }
        if pmm::highest_end(s) > 0 {
            if s.last().physical_end > pmm::highest_end(t) {
                assert(s[s.len() - 1].physical_end == pmm::highest_end(s));
            } else {
                let k = choose|k: int|
                    0 <= k < t.len() && (#[trigger] t[k]).physical_end == pmm::highest_end(t);
                assert(s[k] == t[k]);
            }
        }
    }
}

/// What one region more adds to the pages that are counted from page `lo` to below
/// page `total`: if it is usable, those of its pages that are among them.
pub proof fn lemma_usable_counted(s: Seq<MemoryRegion>, r: MemoryRegion, lo: int, total: int)
    ensures
        pmm::usable_pages(Seq::<MemoryRegion>::empty(), lo, total) == 0,
        ({
            let a = r.physical_start as int / 4096;
            let b = r.physical_end as int / 4096;
            let from = if a < lo {
                lo
            } else {
                a
            };
            let to = if b < total {
                b
            } else {
                total
            };
            pmm::usable_pages(s.push(r), lo, total) == pmm::usable_pages(s, lo, total) + if r.is_usable
                && from < to {
                to - from
            } else {
                0
            }
        }),
{
    assert(s.push(r).drop_last() =~= s);
}

} // verus!
