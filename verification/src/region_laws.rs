//! What holds of reserving, mapping and giving back virtual regions.

use vstd::prelude::*;
use crate::boot_laws;
use crate::paging;
use crate::paging::MemoryManager;
use crate::paging_laws;
use crate::pmm;
use crate::pmm::PhysPage;
use crate::regions;
use crate::vmm;
use crate::vmm::{PageTable, VirtAddr, VirtRegion, VmmError};
use crate::walk;

verus! {

/// None of the `n` pages from `start` on translates to anything under `root`.
pub open spec fn untranslated(mem: Seq<PageTable>, root: PhysPage, start: int, n: int) -> bool {
    forall|i: int|
        0 <= i < n ==> paging::translation(
            mem,
            root,
            VirtAddr(#[trigger] regions::page_addr(start as u64, i)),
        ) is None
}

/// When `size_bytes` bytes from `next` on can be reserved, and why they cannot: whole
/// pages, up to the end of the dynamic range, that have no address in common with a
/// registered region, and fewer than 64 of these.
pub proof fn lemma_reserved_when(s: Seq<VirtRegion>, next: u64, size_bytes: u64)
    ensures
        vmm::reserve_refusal(s, next, size_bytes) == if size_bytes == 0 || size_bytes % 4096 != 0 {
            Some(VmmError::ZeroSize)
        } else if next + size_bytes > 0x0000_7000_0000_0000 {
            Some(VmmError::AddressOverflow)
        } else if !boot_laws::clear_of(s, next as int, next + size_bytes) {
            Some(VmmError::RegionOverlaps)
        } else if s.len() >= 64 {
            Some(VmmError::RegionTableFull)
        } else {
            None
        },
{
    boot_laws::lemma_taken_or_clear(s, next as int, next + size_bytes);
}

/// When a region that the caller places can be registered, and why it cannot: it starts
/// and ends at addresses that the processor takes, is whole pages, and has no address in
/// common with a registered region, and fewer than 64 of these are there.
pub proof fn lemma_placed_when(s: Seq<VirtRegion>, region: VirtRegion)
    requires
        region.start.0 + region.size_bytes <= 0xFFFF_FFFF_FFFF_FFFF,
    ensures
        ({
            let start = region.start.0 as int;
            let size = region.size_bytes as int;
            vmm::register_refusal(s, region) == if !paging_laws::proper(start)
                || !paging_laws::proper(start + size) {
                Some(VmmError::NonCanonicalAddress)
            } else if start % 4096 != 0 {
                Some(VmmError::UnalignedVirtualAddress)
            } else if size == 0 || size % 4096 != 0 {
                Some(VmmError::ZeroSize)
            } else if s.len() >= 64 {
                Some(VmmError::RegionTableFull)
            } else if !boot_laws::clear_of(s, start, start + size) {
                Some(VmmError::RegionOverlaps)
            } else {
                None
            }
        }),
{
    let start = region.start.0 as int;
    boot_laws::lemma_taken_or_clear(s, start, start + region.size_bytes);
}

/// The pages of a run can be mapped if none of them is.
proof fn lemma_run_free(mem: Seq<PageTable>, root: PhysPage, start: u64, n: int, pages: Seq<PhysPage>)
    requires
        start % 4096 == 0,
        start + 4096 * n <= 0x0000_8000_0000_0000,
        forall|i: int| 0 <= i < n ==> (#[trigger] pages[i]).0 % 4096 == 0,
    ensures
        untranslated(mem, root, start as int, n) <==> forall|i: int|
            0 <= i < n ==> #[trigger] regions::mappable(
                mem,
                root.0 as int / 4096,
                start,
                i,
                pages[i],
            ),
{
    let r = root.0 as int / 4096;
    assert forall|i: int| 0 <= i < n implies (paging::translation(
        mem,
        root,
        VirtAddr(#[trigger] regions::page_addr(start, i)),
    ) is None <==> regions::mappable(mem, r, start, i, pages[i])) by {
        assert(regions::page_addr(start, i) == start + 4096 * i);
        assert(pages[i].0 % 4096 == 0);
    }
    if untranslated(mem, root, start as int, n) {
        assert forall|i: int| 0 <= i < n implies #[trigger] regions::mappable(
            mem,
            r,
            start,
            i,
            pages[i],
        ) by {
            assert(paging::translation(mem, root, VirtAddr(regions::page_addr(start, i))) is None);
        }
    }
    if forall|i: int|
        0 <= i < n ==> #[trigger] regions::mappable(mem, r, start, i, pages[i]) {
        assert forall|i: int| 0 <= i < n implies paging::translation(
            mem,
            root,
            VirtAddr(#[trigger] regions::page_addr(start, i)),
        ) is None by {
            assert(regions::mappable(mem, r, start, i, pages[i]));
        }
    }
}

/// When `n` pages can be mapped to fresh frames, and why they cannot: there must be a
/// free frame for each of them, none of them may be mapped, and the frames that are
/// left must suffice for the tables that are missing.
pub proof fn lemma_fresh_when(mm: MemoryManager, mem: Seq<PageTable>, start: u64, n: int)
    requires
        mm.ready(mem),
        0 <= n,
        start % 4096 == 0,
        start + 4096 * n <= 0x0000_8000_0000_0000,
    ensures
        ({
            let free = mm.pmm@.free_count();
            let tables = walk::run_missing(
                mem,
                mm.root.0 as int / 4096,
                walk::page_of(start),
                n as nat,
            );
            regions::fresh_refusal(mm, mem, start, n) == if free < n {
                Some(VmmError::PhysicalAllocationFailed)
            } else if !untranslated(mem, mm.root, start as int, n) || free < n + tables {
                Some(VmmError::PageTableMappingFailed)
            } else {
                None
            }
        }),
{
    let pool = mm.pmm@;
    if pool.free_count() >= n {
        let pages = regions::fresh_pages(pool, n);
        assert forall|i: int| 0 <= i < n implies (#[trigger] pages[i]).0 % 4096 == 0 by {
            pmm::lemma_nth_free(pool, i);
            assert(pages[i].0 == 4096 * pool.nth_free(i));
        }
        lemma_run_free(mem, mm.root, start, n, pages);
    }
}

/// When a region can be had with frames of its own, and why it cannot. At most 128
/// pages can be had at once. Up to that, a request for whole pages is served if the
/// addresses behind the last one are in the dynamic range, belong to no registered
/// region and are not mapped, the registry has room, and the free frames suffice for
/// the pages and for the tables that are missing.
pub proof fn lemma_allocated_when(mm: MemoryManager, mem: Seq<PageTable>, size_bytes: u64)
    requires
        mm.ready(mem),
    ensures
        ({
            let next = mm.vmm.next_dynamic_addr;
            let n = size_bytes as int / 4096;
            let free = mm.pmm@.free_count();
            let tables = walk::run_missing(
                mem,
                mm.root.0 as int / 4096,
                walk::page_of(next),
                n as nat,
            );
            regions::allocate_refusal(mm, mem, size_bytes) == if size_bytes == 0 || size_bytes
                % 4096 != 0 {
                Some(VmmError::ZeroSize)
            } else if next + size_bytes > 0x0000_7000_0000_0000 {
                Some(VmmError::AddressOverflow)
            } else if !boot_laws::clear_of(mm.vmm@, next as int, next + size_bytes) {
                Some(VmmError::RegionOverlaps)
            } else if mm.vmm@.len() >= 64 {
                Some(VmmError::RegionTableFull)
            } else if n > 128 || free < n {
                Some(VmmError::PhysicalAllocationFailed)
            } else if !untranslated(mem, mm.root, next as int, n) || free < n + tables {
                Some(VmmError::PageTableMappingFailed)
            } else {
                None
            }
        }),
{
    let next = mm.vmm.next_dynamic_addr;
    lemma_reserved_when(mm.vmm@, next, size_bytes);
    if vmm::reserve_refusal(mm.vmm@, next, size_bytes) is None {
        lemma_fresh_when(mm, mem, next, size_bytes as int / 4096);
    }
}

/// A request for 1 to 128 whole pages is served wherever six frames more than that
/// are free: no run of that length lacks more tables.
pub proof fn lemma_allocation_served(mm: MemoryManager, mem: Seq<PageTable>, n: int)
    requires
        mm.ready(mem),
        1 <= n <= 128,
        mm.vmm.next_dynamic_addr + 4096 * n <= 0x0000_7000_0000_0000,
        boot_laws::clear_of(
            mm.vmm@,
            mm.vmm.next_dynamic_addr as int,
            mm.vmm.next_dynamic_addr + 4096 * n,
        ),
        mm.vmm@.len() < 64,
        untranslated(mem, mm.root, mm.vmm.next_dynamic_addr as int, n),
        mm.pmm@.free_count() >= n + 6,
    ensures
        regions::allocate_refusal(mm, mem, (4096 * n) as u64) is None,
{
    lemma_allocated_when(mm, mem, (4096 * n) as u64);
    walk::lemma_run_missing_short(
        mem,
        mm.root.0 as int / 4096,
        walk::page_of(mm.vmm.next_dynamic_addr),
        n as nat,
    );
}

/// What a region that was registered and mapped to fresh frames has: each of its
/// addresses translates to a frame that was free and is in use, with the flags that
/// its permissions ask for. It is the last in the registry, and the next one will start
/// behind it. No other address translates otherwise than before.
pub proof fn lemma_region_mapped(
    mm0: MemoryManager,
    mem0: Seq<PageTable>,
    mm1: MemoryManager,
    mem1: Seq<PageTable>,
    region: VirtRegion,
    addr: u64,
)
    requires
        mm0.ready(mem0),
        regions::region_added(mm0, mem0, mm1, mem1, region),
        region.pages() <= mm0.pmm@.free_count(),
        region.start.0 + region.size_bytes <= 0x0000_7000_0000_0000,
    ensures
        region.start.0 <= addr < region.start.0 + region.size_bytes ==> {
            &&& paging::translation(mem1, mm1.root, VirtAddr(addr)) is Some
            &&& ({
                let (phys, flags) = paging::translation(mem1, mm1.root, VirtAddr(addr))->0;
                let f = phys.0 as int / 4096;
                &&& phys.0 % 4096 == addr % 4096
                &&& 0 < f < mm0.pmm@.total()
                &&& !mm0.pmm@.used[f]
                &&& mm1.pmm@.used[f]
                &&& flags.0 & 1 != 0
                &&& flags.0 & 2 != 0 <==> region.permissions.writable
                &&& flags.0 & 4 != 0 <==> region.permissions.user
                &&& flags.0 & 0x8000_0000_0000_0000 != 0 <==> !region.permissions.executable
                &&& flags.0 & 0x7FFF_FFFF_FFFF_FFF8 == 0
            })
        },
        !(region.start.0 <= addr < region.start.0 + region.size_bytes) ==> paging::translation(
            mem1,
            mm1.root,
            VirtAddr(addr),
        ) == paging::translation(mem0, mm0.root, VirtAddr(addr)),
        mm1.vmm@.len() == mm0.vmm@.len() + 1,
        mm1.vmm@.last() == region,
        mm1.vmm@.drop_last() == mm0.vmm@,
        mm1.vmm.next_dynamic_addr == region.start.0 + region.size_bytes,
{
    let flags = region.permissions.page_flags();
    let n = region.pages();
    let start = region.start.0;
    regions::lemma_flags_present(region.permissions);
    assert(mm0.vmm@.push(region).drop_last() =~= mm0.vmm@);
    if start <= addr < start + region.size_bytes {
        paging_laws::lemma_granted(region.permissions);
        paging_laws::lemma_fresh_translates(mm0, mem0, mm1, mem1, start, n, flags, addr);
        let f = mm0.pmm@.nth_free((addr - start) / 4096);
        let off = addr as int % 4096;
        assert((4096 * f + off) / 4096 == f && (4096 * f + off) % 4096 == off);
    } else {
        paging_laws::lemma_fresh_elsewhere(
            mm0,
            mem0,
            mm1,
            mem1,
            start,
            n,
            flags,
            mm0.root,
            addr,
        );
    }
}

/// No two pages of a region that was mapped to fresh frames have the same frame.
pub proof fn lemma_frames_apart(
    mm0: MemoryManager,
    mem0: Seq<PageTable>,
    mm1: MemoryManager,
    mem1: Seq<PageTable>,
    region: VirtRegion,
    a: u64,
    b: u64,
)
    requires
        mm0.ready(mem0),
        regions::region_added(mm0, mem0, mm1, mem1, region),
        region.pages() <= mm0.pmm@.free_count(),
        region.start.0 + region.size_bytes <= 0x0000_7000_0000_0000,
        region.start.0 <= a < region.start.0 + region.size_bytes,
        region.start.0 <= b < region.start.0 + region.size_bytes,
        a as int / 4096 != b as int / 4096,
    ensures
        ({
            let x = (paging::translation(mem1, mm1.root, VirtAddr(a))->0).0;
            let y = (paging::translation(mem1, mm1.root, VirtAddr(b))->0).0;
            x.0 as int / 4096 != y.0 as int / 4096
        }),
{
    let flags = region.permissions.page_flags();
    let n = region.pages();
    let start = region.start.0;
    regions::lemma_flags_present(region.permissions);
    paging_laws::lemma_fresh_translates(mm0, mem0, mm1, mem1, start, n, flags, a);
    paging_laws::lemma_fresh_translates(mm0, mem0, mm1, mem1, start, n, flags, b);
    let i = (a - start) / 4096;
    let j = (b - start) / 4096;
    let s = start as int / 4096;
    assert(start == 4096 * s);
    assert(a as int / 4096 == s + i);
    assert(b as int / 4096 == s + j);
    pmm::lemma_nth_free_distinct(mm0.pmm@, i, j);
    let f = mm0.pmm@.nth_free(i);
    let g = mm0.pmm@.nth_free(j);
    assert((4096 * f + a as int % 4096) / 4096 == f);
    assert((4096 * g + b as int % 4096) / 4096 == g);
}

/// A request that is refused leaves the registry, where the next region starts, and
/// what every address translates to under every root. No frame that was free is in
/// use, but for those of tables.
pub proof fn lemma_refused_leaves(
    mm0: MemoryManager,
    mem0: Seq<PageTable>,
    mm1: MemoryManager,
    mem1: Seq<PageTable>,
    size_bytes: u64,
    root: PhysPage,
    addr: u64,
    f: int,
)
    requires
        regions::region_refused(mm0, mem0, mm1, mem1, size_bytes),
        mm0.has_root(root),
        0 <= f < mm0.pmm@.used.len(),
    ensures
        mm1.vmm@ == mm0.vmm@,
        mm1.vmm.next_dynamic_addr == mm0.vmm.next_dynamic_addr,
        paging::translation(mem1, root, VirtAddr(addr)) == paging::translation(
            mem0,
            root,
            VirtAddr(addr),
        ),
        mm1.pmm@.used[f] == (mm0.pmm@.used[f] || (mm1.is_table(f) && !mm0.is_table(f))),
        mm0.pmm@.free_count() < size_bytes / 4096 || size_bytes / 4096 > 128 ==> mm1.pmm@.used[f]
            == mm0.pmm@.used[f],
{
    let r = root.0 as int / 4096;
    let p = walk::page_of(addr);
    assert(0 <= p < walk::page_limit());
    assert(walk::mapping(mem1, r, p) == walk::mapping(mem0, r, p));
}

/// Giving back a region that does not own its frames gives no frame back.
pub proof fn lemma_unowned_kept(
    mm0: MemoryManager,
    mem0: Seq<PageTable>,
    mm1: MemoryManager,
    mem1: Seq<PageTable>,
    region: VirtRegion,
    r: Result<(), VmmError>,
)
    requires
        regions::region_removed(mm0, mem0, mm1, mem1, region, r),
        !region.owns_physical_pages,
    ensures
        mm1.pmm@.used == mm0.pmm@.used,
        mm1.pmm@.stats == mm0.pmm@.stats,
{
}

/// As many pages can be unmapped in turn as come before the first that cannot.
proof fn lemma_unmappable_until(mem: Seq<PageTable>, root: PhysPage, start: u64, n: nat, k: nat)
    requires
        k <= n,
        forall|i: int|
            0 <= i < k ==> paging::unmap_refusal(
                mem,
                root,
                VirtAddr(#[trigger] regions::page_addr(start, i)),
            ) is None,
        k < n ==> paging::unmap_refusal(
            mem,
            root,
            VirtAddr(regions::page_addr(start, k as int)),
        ) is Some,
    ensures
        regions::unmappable(mem, root, start, n) == k,
    decreases n,
{
    if n > 0 {
        let m = (n - 1) as nat;
        if k == n {
            assert(paging::unmap_refusal(
                mem,
                root,
                VirtAddr(regions::page_addr(start, m as int)),
            ) is None);
            lemma_unmappable_until(mem, root, start, m, m);
        } else {
            lemma_unmappable_until(mem, root, start, m, k);
        }
    }
}

/// Giving back a region of which page `k` is the first that is not mapped fails there:
/// the pages before it translate to nothing, the others as before, and the region stays
/// registered.
pub proof fn lemma_return_stops(
    mm0: MemoryManager,
    mem0: Seq<PageTable>,
    mm1: MemoryManager,
    mem1: Seq<PageTable>,
    region: VirtRegion,
    r: Result<(), VmmError>,
    k: int,
    addr: u64,
)
    requires
        mm0.ready(mem0),
        regions::region_removed(mm0, mem0, mm1, mem1, region, r),
        region.start.0 % 4096 == 0,
        region.size_bytes % 4096 == 0,
        region.start.0 + region.size_bytes <= 0x0000_8000_0000_0000,
        0 <= k < region.size_bytes as int / 4096,
        forall|i: int|
            0 <= i < k ==> paging::translation(
                mem0,
                mm0.root,
                VirtAddr(#[trigger] regions::page_addr(region.start.0, i)),
            ) is Some,
        paging::translation(
            mem0,
            mm0.root,
            VirtAddr(regions::page_addr(region.start.0, k)),
        ) is None,
    ensures
        r == Err::<(), VmmError>(VmmError::PageTableMappingFailed),
        mm1.vmm@ == mm0.vmm@,
        region.start.0 <= addr < region.start.0 + 4096 * k ==> paging::translation(
            mem1,
            mm1.root,
            VirtAddr(addr),
        ) is None,
        !(region.start.0 <= addr < region.start.0 + 4096 * k) ==> paging::translation(
            mem1,
            mm1.root,
            VirtAddr(addr),
        ) == paging::translation(mem0, mm0.root, VirtAddr(addr)),
{
    let start = region.start.0;
    let n = region.pages() as nat;
    let root = mm0.root.0 as int / 4096;
    assert forall|i: int| 0 <= i < k implies paging::unmap_refusal(
        mem0,
        mm0.root,
        VirtAddr(#[trigger] regions::page_addr(start, i)),
    ) is None by {
        assert(regions::page_addr(start, i) == start + 4096 * i);
        assert(paging::translation(
            mem0,
            mm0.root,
            VirtAddr(regions::page_addr(start, i)),
        ) is Some);
    }
    assert(regions::page_addr(start, k) == start + 4096 * k);
    lemma_unmappable_until(mem0, mm0.root, start, n, k as nat);
    paging_laws::lemma_unmapped_run(mm0, mem0, mem1, start, k, addr);
}

/// When a region can be mapped to given pages, and why it cannot: there must be as many
/// as the region has, each at a multiple of the page size, none of the region's may be
/// mapped, and the free frames must suffice for the tables that are missing.
pub proof fn lemma_given_when(
    mm: MemoryManager,
    mem: Seq<PageTable>,
    region: VirtRegion,
    pages: Seq<PhysPage>,
)
    requires
        region.start.0 % 4096 == 0,
        region.start.0 + region.size_bytes <= 0x0000_8000_0000_0000,
        forall|i: int| 0 <= i < pages.len() ==> (#[trigger] pages[i]).0 % 4096 == 0,
    ensures
        ({
            let n = region.size_bytes as int / 4096;
            let tables = walk::run_missing(
                mem,
                mm.root.0 as int / 4096,
                walk::page_of(region.start.0),
                n as nat,
            );
            regions::map_region_refusal(mm, mem, region, pages) == if pages.len() < n {
                Some(VmmError::PhysicalAllocationFailed)
            } else if !untranslated(mem, mm.root, region.start.0 as int, n)
                || mm.pmm@.free_count() < tables {
                Some(VmmError::PageTableMappingFailed)
            } else {
                None
            }
        }),
{
    let n = region.size_bytes as int / 4096;
    if pages.len() >= n {
        lemma_run_free(mem, mm.root, region.start.0, n, pages);
    }
}

/// What a region that was mapped to given pages translates to: page after page to
/// those, with the flags that its permissions ask for.
pub proof fn lemma_given_translates(
    mm0: MemoryManager,
    mem0: Seq<PageTable>,
    mm1: MemoryManager,
    mem1: Seq<PageTable>,
    region: VirtRegion,
    pages: Seq<PhysPage>,
    addr: u64,
)
    requires
        mm0.ready(mem0),
        regions::run_mapped(
            mm0,
            mem0,
            mm1,
            mem1,
            mm0.root.0 as int / 4096,
            walk::page_of(region.start.0),
            region.pages(),
            regions::entries_for(pages, region.permissions.page_flags()),
        ),
        region.start.0 % 4096 == 0,
        region.size_bytes % 4096 == 0,
        region.start.0 + region.size_bytes <= 0x0000_8000_0000_0000,
        region.size_bytes <= 4096 * pages.len(),
        forall|i: int|
            0 <= i < pages.len() ==> (#[trigger] pages[i]).0 % 4096 == 0 && pages[i].0
                < 0x10_0000_0000_0000,
        region.start.0 <= addr < region.start.0 + region.size_bytes,
    ensures
        ({
            let i = (addr - region.start.0) / 4096;
            &&& paging::translation(mem1, mm0.root, VirtAddr(addr)) is Some
            &&& ({
                let (phys, flags) = paging::translation(mem1, mm0.root, VirtAddr(addr))->0;
                &&& phys.0 == pages[i].0 + addr % 4096
                &&& flags.0 & 1 != 0
                &&& flags.0 & 2 != 0 <==> region.permissions.writable
                &&& flags.0 & 4 != 0 <==> region.permissions.user
                &&& flags.0 & 0x8000_0000_0000_0000 != 0 <==> !region.permissions.executable
                &&& flags.0 & 0x7FFF_FFFF_FFFF_FFF8 == 0
            })
        }),
{
    let flags = region.permissions.page_flags();
    let start = region.start.0;
    let i = (addr - start) / 4096;
    let r = mm0.root.0 as int / 4096;
    regions::lemma_flags_present(region.permissions);
    paging_laws::lemma_granted(region.permissions);
    assert(0 <= i < region.pages());
    assert(walk::page_of(start) == start as int / 4096);
    assert(walk::page_of(addr) == start as int / 4096 + i);
    let entries = regions::entries_for(pages, flags);
    assert(walk::mapping(mem1, r, walk::page_of(addr)) == Some(entries[i]));
    assert(pages[i].0 % 4096 == 0 && pages[i].0 < 0x10_0000_0000_0000);
    vmm::lemma_entry_round_trip(pages[i].0, flags);
}

} // verus!
