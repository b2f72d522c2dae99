//! What holds of several operations on memory together.

use vstd::prelude::*;
use crate::paging;
use crate::paging::MemoryManager;
use crate::pmm;
use crate::pmm::{FramePool, PageFreeError, PhysPage};
use crate::regions;
use crate::vmm;
use crate::vmm::{
    MapError, PageTable, PageTableFlags, UnmapError, VirtAddr, VirtRegion, VmmError,
};
use crate::vmm_check;
use crate::walk;
use crate::window;

verus! {

/// Page 0 is never handed out.
pub proof fn lemma_page_zero_kept(pool: FramePool, i: int)
    requires
        pool.wf(),
        pool.is_first_free(i),
    ensures
        i > 0,
{
}

/// Two pages that are handed out one after the other differ: the second one is
/// behind the first.
pub proof fn lemma_pages_differ(pool: FramePool, i: int, j: int)
    requires
        pool.wf(),
        pool.is_first_free(i),
        pool.take(i).is_first_free(j),
    ensures
        i < j,
{
    assert(pool.take(i).used[j] == (j == i || pool.used[j]));
    assert(pool.is_free(j));
}

/// A page that was handed out can be given back, which brings back which pages
/// are free, and right totals too; it is then the next to be handed out again.
pub proof fn lemma_page_returned(pool: FramePool, i: int)
    requires
        pool.wf(),
        pool.is_first_free(i),
    ensures
        ({
            let page = PhysPage((4096 * i) as u64);
            let after = pool.take(i).after_free(page);
            &&& pool.take(i).refusal(page) is None
            &&& after.used == pool.used
            &&& pool.counted() ==> after == pool
            &&& after.is_first_free(i)
        }),
{
    let page = PhysPage((4096 * i) as u64);
    assert(page.0 == 4096 * i);
    assert(page.0 % 4096 == 0 && page.0 as int / 4096 == i);
    let after = pool.take(i).after_free(page);
    assert(pool.take(i).used[i]);
    assert(pool.take(i).refusal(page) is None);
    assert(after.used =~= pool.used);
    assert forall|j: int| 0 <= j < i implies !after.is_free(j) by {
        assert(!pool.is_free(j));
    }
    pmm::lemma_take(pool, i);
    if pool.counted() {
        assert(after.stats == pool.stats);
    }
}

/// A page that was given back is not taken back again.
pub proof fn lemma_second_free_refused(pool: FramePool, page: PhysPage)
    requires
        pool.wf(),
        pool.refusal(page) is None,
    ensures
        pool.after_free(page).refusal(page) == Some(PageFreeError::DoubleFree),
{
}

/// Free pages and pages in use are all the pages there are.
pub proof fn lemma_totals_add_up(pool: FramePool)
    requires
        pool.wf(),
        pool.counted(),
    ensures
        pool.stats.free_pages + pool.stats.used_pages == pool.stats.total_managed_pages,
{
}

/// The indices into the four tables and the offset make up the lower 48 bits of
/// an address.
pub proof fn lemma_indices_make_address(a: u64)
    ensures
        a % 0x1_0000_0000_0000 == (a / 0x80_0000_0000) % 512 * 0x80_0000_0000 + (a / 0x4000_0000)
            % 512 * 0x4000_0000 + (a / 0x20_0000) % 512 * 0x20_0000 + (a / 0x1000) % 512 * 0x1000
            + a % 4096,
{
    assert(a % 0x1_0000_0000_0000 == (a / 0x80_0000_0000) % 512 * 0x80_0000_0000 + (a
        / 0x4000_0000) % 512 * 0x4000_0000 + (a / 0x20_0000) % 512 * 0x20_0000 + (a / 0x1000) % 512
        * 0x1000 + a % 4096) by (bit_vector);
}

/// The lower 48 bits determine a canonical address.
pub proof fn lemma_canonical_by_low_bits(a: u64, b: u64)
    requires
        vmm::canonical(a),
        vmm::canonical(b),
        a % 0x1_0000_0000_0000 == b % 0x1_0000_0000_0000,
    ensures
        a == b,
{
    lemma_low_bits(a);
    lemma_low_bits(b);
}

proof fn lemma_low_bits(a: u64)
    requires
        vmm::canonical(a),
    ensures
        a < 0x0000_8000_0000_0000 ==> a % 0x1_0000_0000_0000 == a,
        a >= 0xFFFF_8000_0000_0000 ==> a % 0x1_0000_0000_0000 == a - 0xFFFF_0000_0000_0000,
{
}

/// A region that was registered is what a lookup of any of its addresses finds.
pub proof fn lemma_registered_found(s: Seq<VirtRegion>, region: VirtRegion, addr: int, i: int)
    requires
        vmm::regions_disjoint(s.push(region)),
        region.covers(addr),
        0 <= i <= s.len(),
        s.push(region)[i].covers(addr),
    ensures
        s.push(region)[i] == region,
{
    assert(s.push(region)[s.len() as int] == region);
    vmm::lemma_region_lookup_unique(s.push(region), i, s.len() as int, addr);
}

/// A page that was mapped translates to what it was mapped to, offset and flags
/// and all, and cannot be mapped again.
pub proof fn lemma_mapped_translates(
    mm0: MemoryManager,
    mem0: Seq<PageTable>,
    mm1: MemoryManager,
    mem1: Seq<PageTable>,
    root: PhysPage,
    virt: VirtAddr,
    phys: PhysPage,
    flags: PageTableFlags,
    addr: VirtAddr,
    other: PhysPage,
    free: nat,
)
    requires
        mm0.has_root(root),
        vmm::canonical(virt.0),
        virt.0 % 4096 == 0,
        phys.0 % 4096 == 0,
        phys.0 < 0x10_0000_0000_0000,
        flags.0 & 1 != 0,
        flags.0 & vmm::ENTRY_ADDRESS_MASK == 0,
        paging::page_mapped(
            mm0,
            mem0,
            mm1,
            mem1,
            root.0 as int / 4096,
            walk::page_of(virt.0),
            vmm::entry_for(phys.0, flags),
        ),
        virt.0 <= addr.0 < virt.0 + 4096,
        other.0 % 4096 == 0,
    ensures
        paging::translation(mem1, root, addr) == Some(
            (PhysPage((phys.0 + (addr.0 - virt.0)) as u64), flags),
        ),
        paging::map_refusal(mem1, free, root, virt, other) == Some(MapError::AlreadyMapped),
{
    vmm::lemma_entry_round_trip(phys.0, flags);
    lemma_same_page(virt.0, addr.0);
    let r = root.0 as int / 4096;
    let p = walk::page_of(virt.0);
    assert(walk::mapping(mem1, r, p) == Some(vmm::entry_for(phys.0, flags)));
}

/// An address within a page has the page's number, and is canonical if the
/// page's own is.
proof fn lemma_same_page(page: u64, addr: u64)
    requires
        page % 4096 == 0,
        page <= addr < page + 4096,
    ensures
        walk::page_of(addr) == walk::page_of(page),
        addr % 4096 == addr - page,
        vmm::canonical(page) ==> vmm::canonical(addr),
        0 <= walk::page_of(page) < walk::page_limit(),
{
    let q = page as int / 4096;
    assert(page == 4096 * q);
    assert(addr as int / 4096 == q);
    assert(page as int % 0x1_0000_0000_0000 == 4096 * (q % 0x10_0000_0000));
    assert(addr as int % 0x1_0000_0000_0000 == 4096 * (q % 0x10_0000_0000) + (addr - page));
}

/// A page that was unmapped translates to nothing, and cannot be unmapped again.
pub proof fn lemma_unmapped_gone(
    mm: MemoryManager,
    mem0: Seq<PageTable>,
    mem1: Seq<PageTable>,
    root: PhysPage,
    virt: VirtAddr,
    addr: VirtAddr,
)
    requires
        mm.has_root(root),
        paging::unmap_refusal(mem0, root, virt) is None,
        paging::pages_unmapped(
            mm,
            mem0,
            mem1,
            root.0 as int / 4096,
            walk::page_of(virt.0),
            walk::page_of(virt.0) + 1,
        ),
        virt.0 <= addr.0 < virt.0 + 4096,
    ensures
        paging::translation(mem1, root, addr) is None,
        paging::unmap_refusal(mem1, root, virt) == Some(UnmapError::NotMapped),
{
    lemma_same_page(virt.0, addr.0);
    let r = root.0 as int / 4096;
    let p = walk::page_of(virt.0);
    assert(walk::mapping(mem1, r, p) is None);
    assert(walk::table_at(mem1, r, p, 1) == walk::table_at(mem0, r, p, 1));
}

/// Unmapping a page that was just mapped brings back what every root maps.
pub proof fn lemma_unmap_undoes_map(
    mm0: MemoryManager,
    mem0: Seq<PageTable>,
    mm1: MemoryManager,
    mem1: Seq<PageTable>,
    mem2: Seq<PageTable>,
    root: int,
    page: int,
    entry: vmm::PageTableEntry,
)
    requires
        mm0.wf(mem0),
        walk::is_root(mm0.tables(), root),
        0 <= page < walk::page_limit(),
        paging::page_mapped(mm0, mem0, mm1, mem1, root, page, entry),
        paging::pages_unmapped(mm1, mem1, mem2, root, page, page + 1),
    ensures
        walk::same_mappings(mem0, mem2, mm0.tables()),
{
    assert forall|r: int, p: int|
        walk::is_root(mm0.tables(), r) && 0 <= p < walk::page_limit() implies #[trigger] walk::mapping(
        mem2,
        r,
        p,
    ) == walk::mapping(mem0, r, p) by {
        assert(mm0.is_table(r));
        assert(walk::is_root(mm1.tables(), r));
        assert(walk::mapping(mem1, r, p) == walk::mapping(mem1, r, p));
        if p == page && walk::table_at(mem1, r, page, 1) == walk::table_at(mem1, root, page, 1) {
            assert(walk::mapping(mem0, r, page) is None);
        }
    }
}

/// Frame `f` is behind one of the `n` pages from `start` on.
pub open spec fn in_run(
    mm: MemoryManager,
    mem: Seq<PageTable>,
    start: int,
    n: int,
    f: int,
) -> bool {
    exists|i: int| 0 <= i < n && #[trigger] window::frame_at(mm, mem, start, i) == f
}

/// Giving back the frames of a backed run in turn gives each of them back, and
/// nothing else.
pub proof fn lemma_run_released(mm: MemoryManager, mem: Seq<PageTable>, start: u64, n: nat)
    requires
        mm.ready(mem),
        window::backed(mm, mem, start as int, n as int),
        forall|i: int| 0 <= i < n ==> #[trigger] window::frame_at(mm, mem, start as int, i) > 0,
    ensures
        ({
            let after = regions::pool_after_unmap(
                mm.pmm@,
                mem,
                mm.root.0 as int / 4096,
                start,
                n,
            );
            &&& after.wf()
            &&& after.total() == mm.pmm@.total()
            &&& after.free_count() == mm.pmm@.free_count() + n
            &&& forall|f: int|
                0 <= f < mm.pmm@.used.len() ==> #[trigger] after.used[f] == (mm.pmm@.used[f]
                    && !in_run(mm, mem, start as int, n as int, f))
        }),
    decreases n,
{
    let root = mm.root.0 as int / 4096;
    let s = start as int;
    let pool = mm.pmm@;
    reveal(window::backed);
    if n > 0 {
        let k = (n - 1) as nat;
        let before = regions::pool_after_unmap(pool, mem, root, start, k);
        assert(window::backed(mm, mem, s, k as int));
        lemma_run_released(mm, mem, start, k);
        let addr = regions::page_addr(start, k as int);
        assert(addr == start + 4096 * k);
        assert(walk::page_of(addr) == s / 4096 + k);
        let f = window::frame_at(mm, mem, s, k as int);
        assert(window::holds(mm, mem, s, k as int));
        let page = PhysPage((walk::mapping(mem, root, s / 4096 + k)->0).target());
        vmm::lemma_entry_target(walk::mapping(mem, root, s / 4096 + k)->0);
        assert(page.0 as int / 4096 == f);
        assert(before.used[f]) by {
            assert forall|i: int| 0 <= i < k implies #[trigger] window::frame_at(mm, mem, s, i)
                != f by {}
        }
        assert(before.refusal(page) is None);
        pmm::lemma_give(before, page);
        let after = regions::pool_after_unmap(pool, mem, root, start, n);
        assert(after == before.after_free(page));
        assert forall|g: int| 0 <= g < pool.used.len() implies #[trigger] after.used[g] == (
        pool.used[g] && !in_run(mm, mem, start as int, n as int, g)) by {
            if g == f {
                assert(window::frame_at(mm, mem, s, k as int) == g);
            } else {
                assert(after.used[g] == before.used[g]);
                if in_run(mm, mem, s, n as int, g) {
                    let i = choose|i: int|
                        0 <= i < n && #[trigger] window::frame_at(mm, mem, s, i) == g;
                    assert(i < k);
                }
            }
        }
    }
}

/// Address `addr` lies in no region of `s`.
pub open spec fn none_covers(s: Seq<VirtRegion>, addr: int) -> bool {
    forall|i: int| 0 <= i < s.len() ==> !(#[trigger] s[i]).covers(addr)
}

/// Dropping a region from the registry leaves the others, and none that covers an
/// address of the one that was dropped. The last one takes its place.
pub proof fn lemma_region_dropped(s: Seq<VirtRegion>, k: int)
    requires
        vmm::regions_disjoint(s),
        forall|i: int| 0 <= i < s.len() ==> vmm::region_ok(#[trigger] s[i]),
        0 <= k < s.len(),
    ensures
        ({
            let after = vmm::without_region(s, s[k].start);
            &&& after.len() == s.len() - 1
            &&& forall|i: int|
                0 <= i < s.len() - 1 ==> #[trigger] after[i] == if i == k {
                    s[s.len() - 1]
                } else {
                    s[i]
                }
            &&& forall|other: VirtRegion| #[trigger]
                after.contains(other) <==> s.contains(other) && other != s[k]
            &&& forall|addr: int| s[k].covers(addr) ==> #[trigger] none_covers(after, addr)
        }),
{
    let start = s[k].start;
    let after = vmm::without_region(s, start);
    assert forall|j: int| 0 <= j < s.len() && j != k implies (#[trigger] s[j]).start != start
        && !s[j].meets(start.0 as int, s[k].limit()) by {
        assert(vmm::region_ok(s[j]) && vmm::region_ok(s[k]));
        if j < k {
            assert(!s[j].meets(s[k].start.0 as int, s[k].limit()));
        } else {
            assert(!s[k].meets(s[j].start.0 as int, s[j].limit()));
        }
    }
    let c = choose|c: int|
        0 <= c < s.len() && (#[trigger] s[c]).start == start && forall|i: int|
            0 <= i < c ==> (#[trigger] s[i]).start != start;
    assert(s[k].start == start);
    assert(c == k);
    assert(after == s.update(k, s.last()).drop_last());
    let last = s.len() - 1;
    assert forall|other: VirtRegion| s.contains(other) && other != s[k] implies #[trigger]
    after.contains(other) by {
        let j = choose|j: int| 0 <= j < s.len() && s[j] == other;
        let i = if j == last {
            k
        } else {
            j
        };
        assert(after[i] == other);
    }
    assert forall|i: int| 0 <= i < after.len() implies (exists|j: int|
        0 <= j < s.len() && j != k && s[j] == #[trigger] after[i]) by {
        let j = if i == k {
            last
        } else {
            i
        };
        assert(s[j] == after[i]);
    }
}

/// No address of a run of pages that were unmapped translates to anything.
proof fn lemma_run_gone(
    mm: MemoryManager,
    mem0: Seq<PageTable>,
    mem1: Seq<PageTable>,
    region: VirtRegion,
)
    requires
        mm.ready(mem0),
        region.start.0 % 4096 == 0,
        region.size_bytes % 4096 == 0,
        region.limit() <= window::LOWER_HALF_END,
        paging::pages_unmapped(
            mm,
            mem0,
            mem1,
            mm.root.0 as int / 4096,
            walk::page_of(region.start.0),
            walk::page_of(region.start.0) + region.pages(),
        ),
    ensures
        forall|addr: u64| #[trigger]
            region.covers(addr as int) ==> paging::translation(
                mem1,
                mm.root,
                VirtAddr(addr),
            ) is None,
{
    let r = mm.root.0 as int / 4096;
    assert(mm.is_table(r));
    assert forall|addr: u64| #[trigger] region.covers(addr as int) implies paging::translation(
        mem1,
        mm.root,
        VirtAddr(addr),
    ) is None by {
        let p = walk::page_of(addr);
        assert(p == addr as int / 4096);
        assert(walk::page_of(region.start.0) == region.start.0 as int / 4096);
        assert(walk::mapping(mem1, r, p) is None);
    }
}

/// A region whose pages are mapped to frames of its own is unmapped whole.
proof fn lemma_whole_region_removed(
    mm0: MemoryManager,
    mem0: Seq<PageTable>,
    mm1: MemoryManager,
    mem1: Seq<PageTable>,
    region: VirtRegion,
    r: Result<(), VmmError>,
)
    requires
        mm0.ready(mem0),
        region.owns_physical_pages,
        region.size_bytes % 4096 == 0,
        window::backed(mm0, mem0, region.start.0 as int, region.pages()),
        regions::region_removed(mm0, mem0, mm1, mem1, region, r),
    ensures
        regions::maps_no_table(mm0, mem0, region),
        r == Ok::<(), VmmError>(()),
        mm1.root == mm0.root,
        region.limit() <= window::LOWER_HALF_END,
        paging::pages_unmapped(
            mm0,
            mem0,
            mem1,
            mm0.root.0 as int / 4096,
            walk::page_of(region.start.0),
            walk::page_of(region.start.0) + region.pages(),
        ),
        mm1.pmm@ == regions::pool_after_unmap(
            mm0.pmm@,
            mem0,
            mm0.root.0 as int / 4096,
            region.start.0,
            region.pages() as nat,
        ),
        mm1.vmm@ == vmm::without_region(mm0.vmm@, region.start),
{
    let n = region.pages() as nat;
    assert(region.limit() <= window::LOWER_HALF_END) by {
        reveal(window::backed);
    }
    vmm_check::lemma_backed_no_table(mm0, mem0, region, n);
    vmm_check::lemma_backed_unmappable(mm0, mem0, region.start.0, n);
}

/// The frames of a backed run are free once they were given back.
proof fn lemma_frames_returned(
    mm: MemoryManager,
    mem: Seq<PageTable>,
    after: FramePool,
    start: u64,
    n: nat,
)
    requires
        mm.ready(mem),
        window::backed(mm, mem, start as int, n as int),
        forall|i: int| 0 <= i < n ==> #[trigger] window::frame_at(mm, mem, start as int, i) > 0,
        after == regions::pool_after_unmap(mm.pmm@, mem, mm.root.0 as int / 4096, start, n),
    ensures
        after.free_count() == mm.pmm@.free_count() + n,
        forall|i: int|
            0 <= i < n ==> after.is_free(#[trigger] window::frame_at(mm, mem, start as int, i)),
        forall|f: int|
            0 <= f < mm.pmm@.used.len() ==> #[trigger] after.used[f] == (mm.pmm@.used[f] && !in_run(
                mm,
                mem,
                start as int,
                n as int,
                f,
            )),
{
    let s = start as int;
    lemma_run_released(mm, mem, start, n);
    assert forall|i: int| 0 <= i < n implies after.is_free(
        #[trigger] window::frame_at(mm, mem, s, i),
    ) by {
        assert(window::holds(mm, mem, s, i)) by {
            reveal(window::backed);
        }
        assert(!after.used[window::frame_at(mm, mem, s, i)]);
    }
}

/// A registered region whose pages are mapped to frames of its own can be given
/// back. Then none of its addresses translates to anything or lies in a registered
/// region. Its frames are free, and no other frame changed hands. The registry holds
/// one region less, and the others as before.
pub proof fn lemma_region_returned(
    mm0: MemoryManager,
    mem0: Seq<PageTable>,
    mm1: MemoryManager,
    mem1: Seq<PageTable>,
    region: VirtRegion,
    k: int,
    r: Result<(), VmmError>,
)
    requires
        mm0.ready(mem0),
        0 <= k < mm0.vmm@.len(),
        mm0.vmm@[k].start == region.start,
        mm0.vmm@[k].size_bytes == region.size_bytes,
        region.owns_physical_pages,
        window::backed(mm0, mem0, region.start.0 as int, region.pages()),
        forall|i: int|
            0 <= i < region.pages() ==> #[trigger] window::frame_at(
                mm0,
                mem0,
                region.start.0 as int,
                i,
            ) > 0,
        regions::region_removed(mm0, mem0, mm1, mem1, region, r),
    ensures
        regions::maps_no_table(mm0, mem0, region),
        r == Ok::<(), VmmError>(()),
        mm1.pmm@ == regions::pool_after_unmap(
            mm0.pmm@,
            mem0,
            mm0.root.0 as int / 4096,
            region.start.0,
            region.pages() as nat,
        ),
        mm1.vmm@ == vmm::without_region(mm0.vmm@, region.start),
        forall|addr: u64| #[trigger]
            region.covers(addr as int) ==> paging::translation(
                mem1,
                mm1.root,
                VirtAddr(addr),
            ) is None,
        forall|i: int|
            0 <= i < region.pages() ==> mm1.pmm@.is_free(
                #[trigger] window::frame_at(mm0, mem0, region.start.0 as int, i),
            ),
        forall|f: int|
            0 <= f < mm0.pmm@.used.len() ==> #[trigger] mm1.pmm@.used[f] == (mm0.pmm@.used[f]
                && !in_run(mm0, mem0, region.start.0 as int, region.pages(), f)),
        mm1.pmm@.free_count() == mm0.pmm@.free_count() + region.pages(),
        mm1.vmm@.len() == mm0.vmm@.len() - 1,
        forall|other: VirtRegion| #[trigger]
            mm1.vmm@.contains(other) <==> mm0.vmm@.contains(other) && other != mm0.vmm@[k],
        forall|addr: int| #[trigger] region.covers(addr) ==> none_covers(mm1.vmm@, addr),
{
    assert(vmm::region_ok(mm0.vmm@[k]));
    lemma_whole_region_removed(mm0, mem0, mm1, mem1, region, r);
    lemma_frames_returned(mm0, mem0, mm1.pmm@, region.start.0, region.pages() as nat);
    lemma_region_dropped(mm0.vmm@, k);
    lemma_run_gone(mm0, mem0, mem1, region);
}

/// The pages of a region that was just registered and mapped to fresh frames are
/// mapped to frames of their own, none of them frame 0 or that of a table.
pub proof fn lemma_allocation_backed(
    mm0: MemoryManager,
    mem0: Seq<PageTable>,
    mm1: MemoryManager,
    mem1: Seq<PageTable>,
    region: VirtRegion,
)
    requires
        mm0.ready(mem0),
        mm1.ready(mem1),
        regions::allocate_refusal(mm0, mem0, region.size_bytes) is None,
        region.start.0 == mm0.vmm.next_dynamic_addr,
        regions::region_added(
            mm0,
            mem0,
            mm1,
            mem1,
            (VirtRegion { owns_physical_pages: false, ..region }),
        ),
    ensures
        window::backed(mm1, mem1, region.start.0 as int, region.pages()),
        forall|i: int|
            0 <= i < region.pages() ==> #[trigger] window::frame_at(
                mm1,
                mem1,
                region.start.0 as int,
                i,
            ) == mm0.pmm@.nth_free(i),
        forall|i: int|
            0 <= i < region.pages() ==> #[trigger] window::frame_at(
                mm1,
                mem1,
                region.start.0 as int,
                i,
            ) > 0,
        regions::maps_no_table(mm1, mem1, region),
{
    let n = region.pages();
    let start = region.start.0;
    let flags = region.permissions.page_flags();
    regions::lemma_flags_present(region.permissions);
    window::lemma_fresh_backed(mm0, mem0, mm1, mem1, start, n, flags);
    assert forall|i: int| 0 <= i < n implies #[trigger] window::frame_at(
        mm1,
        mem1,
        start as int,
        i,
    ) > 0 by {
        pmm::lemma_nth_free(mm0.pmm@, i);
    }
    vmm_check::lemma_backed_no_table(mm1, mem1, region, n as nat);
}

/// A region that was just registered and mapped to fresh frames can be given back:
/// the registry is then what it was, and so is which frames are in use, but for
/// those of the tables that were added, which stay. None of the region's addresses
/// translates to anything or lies in a registered region.
pub proof fn lemma_allocation_returned(
    mm0: MemoryManager,
    mem0: Seq<PageTable>,
    mm1: MemoryManager,
    mem1: Seq<PageTable>,
    mm2: MemoryManager,
    mem2: Seq<PageTable>,
    region: VirtRegion,
    r: Result<(), VmmError>,
)
    requires
        mm0.ready(mem0),
        mm1.ready(mem1),
        regions::allocate_refusal(mm0, mem0, region.size_bytes) is None,
        region.start.0 == mm0.vmm.next_dynamic_addr,
        region.owns_physical_pages,
        regions::region_added(
            mm0,
            mem0,
            mm1,
            mem1,
            (VirtRegion { owns_physical_pages: false, ..region }),
        ),
        regions::region_removed(mm1, mem1, mm2, mem2, region, r),
    ensures
        regions::maps_no_table(mm1, mem1, region),
        r == Ok::<(), VmmError>(()),
        mm2.vmm@ == mm0.vmm@,
        forall|addr: int| #[trigger] region.covers(addr) ==> none_covers(mm2.vmm@, addr),
        forall|addr: u64| #[trigger]
            region.covers(addr as int) ==> paging::translation(
                mem2,
                mm2.root,
                VirtAddr(addr),
            ) is None,
        forall|i: int|
            0 <= i < region.pages() ==> mm2.pmm@.is_free(
                #[trigger] window::frame_at(mm1, mem1, region.start.0 as int, i),
            ),
        forall|f: int|
            0 <= f < mm0.pmm@.used.len() ==> #[trigger] mm2.pmm@.used[f] == (mm0.pmm@.used[f] || (
            mm1.is_table(f) && !mm0.is_table(f))),
        mm2.pmm@.free_count() == mm0.pmm@.free_count() - walk::run_missing(
            mem0,
            mm0.root.0 as int / 4096,
            walk::page_of(region.start.0),
            region.pages() as nat,
        ),
{
    let listed = VirtRegion { owns_physical_pages: false, ..region };
    let last = mm0.vmm@.len() as int;
    let n = region.pages();
    let start = region.start.0;
    let pool = mm0.pmm@;
    lemma_allocation_backed(mm0, mem0, mm1, mem1, region);
    assert(mm1.vmm@[last] == listed);
    lemma_region_returned(mm1, mem1, mm2, mem2, region, last, r);
    vmm_check::lemma_last_region(mm0.vmm@, listed);
    assert forall|f: int| 0 <= f < pool.used.len() implies #[trigger] mm2.pmm@.used[f] == (
    pool.used[f] || (mm1.is_table(f) && !mm0.is_table(f))) by {
        lemma_fresh_frame(mm0, mem0, mm1, mem1, start, n, region.permissions.page_flags(), f);
    }
}

/// Whether frame `f` is behind a page of a run that was mapped to fresh frames.
proof fn lemma_fresh_frame(
    mm0: MemoryManager,
    mem0: Seq<PageTable>,
    mm1: MemoryManager,
    mem1: Seq<PageTable>,
    start: u64,
    n: int,
    flags: PageTableFlags,
    f: int,
)
    requires
        mm0.ready(mem0),
        regions::fresh_mapped(mm0, mem0, mm1, mem1, start, n, flags),
        0 <= n <= mm0.pmm@.free_count(),
        forall|i: int|
            0 <= i < n ==> #[trigger] window::frame_at(mm1, mem1, start as int, i)
                == mm0.pmm@.nth_free(i),
        0 <= f < mm0.pmm@.used.len(),
    ensures
        (mm1.pmm@.used[f] && !in_run(mm1, mem1, start as int, n, f)) == (
        mm0.pmm@.used[f] || (mm1.is_table(f) && !mm0.is_table(f))),
{
    let s = start as int;
    let pool = mm0.pmm@;
    let c = pmm::count_free(pool.used, f as nat) as int;
    if pool.is_free(f) && c < n {
        pmm::lemma_among_first(pool, n, f);
        assert(window::frame_at(mm1, mem1, s, c) == f);
    } else {
        assert forall|i: int| 0 <= i < n implies #[trigger] window::frame_at(mm1, mem1, s, i)
            != f by {
            pmm::lemma_nth_free(pool, i);
        }
    }
}

/// A page's number, where a machine word holds it, makes the page again, and a
/// number its page.
pub proof fn lemma_page_numbers(page: PhysPage, num: usize)
    requires
        page.0 % 4096 == 0,
        page.0 / 4096 <= usize::MAX,
        num * 4096 <= u64::MAX,
    ensures
        ((page.0 / 4096) as usize) * 4096 == page.0,
        (((num * 4096) as u64 / 4096) as usize) == num,
{
}

/// What handing out page `i`, the first free one, does: no lower page is free,
/// and only this page changes hands. Given back, it is the next one again.
pub proof fn lemma_first_page_taken(pool: FramePool, i: int)
    requires
        pool.wf(),
        pool.is_first_free(i),
    ensures
        i > 0,
        forall|j: int| 0 <= j < i ==> !pool.is_free(j),
        forall|j: int|
            0 <= j < pool.used.len() && j != i ==> #[trigger] pool.take(i).used[j] == pool.used[j],
        !pool.take(i).is_free(i),
        pool.take(i).give(i).is_first_free(i),
        pool.take(i).refusal(PhysPage((i * 4096) as u64)) is None,
{
    let page = PhysPage((i * 4096) as u64);
    assert(page.0 == i * 4096);
    assert(page.0 as int / 4096 == i);
    let back = pool.take(i).give(i);
    assert forall|j: int| 0 <= j < i implies !back.is_free(j) by {
        assert(!pool.is_free(j));
    }
}

/// The totals bound what they count: no fewer pages are said to be free than
/// are, and no more to be in use. They do so even where usable regions overlap
/// and pages were counted twice.
pub open spec fn bounded(pool: FramePool) -> bool {
    &&& pool.free_count() <= pool.stats.free_pages
    &&& pool.stats.free_pages <= pool.free_count() + crate::memory::MAX_REGIONS
        * pmm::MAX_MANAGED_PAGES
    &&& pool.stats.used_pages <= pool.total() - pool.free_count()
}

/// The totals that the allocator starts with bound what they count, whatever the
/// memory map.
pub proof fn lemma_initial_pool_bounded(s: Seq<crate::memory::MemoryRegion>)
    requires
        s.len() <= crate::memory::MAX_REGIONS,
    ensures
        bounded(pmm::initial_pool(s)),
{
    let pool = pmm::initial_pool(s);
    let total = pmm::managed_pages(s);
    pmm::lemma_count_usable_most(s, pool.used, total as nat);
    pmm::lemma_count_free(pool);
    assert(s.len() * total <= crate::memory::MAX_REGIONS * pmm::MAX_MANAGED_PAGES)
        by (nonlinear_arith)
        requires
            0 <= s.len() <= crate::memory::MAX_REGIONS,
            0 <= total <= pmm::MAX_MANAGED_PAGES,
    ;
}

/// Handing out a page takes 1 from the free pages and adds 1 to those in use.
/// Giving back one that may be given back adds 1 to the free pages, and takes 1
/// from those in use if any are counted. The totals bound what they count
/// throughout.
pub proof fn lemma_totals_follow(pool: FramePool, i: int, page: PhysPage)
    requires
        pool.wf(),
        bounded(pool),
        pool.is_first_free(i),
        pool.refusal(page) is None,
    ensures
        pool.take(i).stats.free_pages == pool.stats.free_pages - 1,
        pool.take(i).stats.used_pages == pool.stats.used_pages + 1,
        bounded(pool.take(i)),
        pool.after_free(page).stats.free_pages == pool.stats.free_pages + 1,
        pool.stats.used_pages > 0 ==> pool.after_free(page).stats.used_pages
            == pool.stats.used_pages - 1,
        bounded(pool.after_free(page)),
{
    pmm::lemma_take(pool, i);
    pmm::lemma_give(pool, page);
    pmm::lemma_count_free(pool);
    pmm::lemma_count_free(pool.take(i));
}

/// A total never goes below 0 or past the largest number: one that is there already
/// stays. How many pages are managed and how many are usable never changes.
pub proof fn lemma_totals_stop(pool: FramePool, i: int)
    ensures
        pool.take(i).stats.free_pages == if pool.stats.free_pages == 0 {
            0
        } else {
            pool.stats.free_pages - 1
        },
        pool.take(i).stats.used_pages == if pool.stats.used_pages == usize::MAX {
            usize::MAX as int
        } else {
            pool.stats.used_pages + 1
        },
        pool.give(i).stats.free_pages == if pool.stats.free_pages == usize::MAX {
            usize::MAX as int
        } else {
            pool.stats.free_pages + 1
        },
        pool.give(i).stats.used_pages == if pool.stats.used_pages == 0 {
            0
        } else {
            pool.stats.used_pages - 1
        },
        pool.take(i).stats.total_managed_pages == pool.stats.total_managed_pages,
        pool.take(i).stats.usable_pages == pool.stats.usable_pages,
        pool.give(i).stats.total_managed_pages == pool.stats.total_managed_pages,
        pool.give(i).stats.usable_pages == pool.stats.usable_pages,
{
}

/// Why a page cannot be given back, in the order in which it is asked: it is no
/// multiple of the page size, it is page 0, it is not managed, it is free. An
/// attempt that is refused changes nothing; else the page is free, and only it
/// changed hands.
pub proof fn lemma_free_outcomes(pool: FramePool, page: PhysPage)
    requires
        pool.wf(),
    ensures
        ({
            let i = page.0 as int / 4096;
            let aligned = page.0 % 4096 == 0;
            &&& pool.refusal(page) == Some(PageFreeError::UnalignedAddress) <==> !aligned
            &&& pool.refusal(page) == Some(PageFreeError::ReservedMemory) <==> aligned && i == 0
            &&& pool.refusal(page) == Some(PageFreeError::OutOfBounds) <==> aligned && i > 0 && i
                >= pool.total()
            &&& pool.refusal(page) == Some(PageFreeError::DoubleFree) <==> aligned && i > 0
                && pool.is_free(i)
            &&& pool.refusal(page) is Some ==> pool.after_free(page) == pool
            &&& pool.refusal(page) is None ==> {
                &&& pool.after_free(page).is_free(i)
                &&& forall|j: int|
                    0 <= j < pool.used.len() && j != i ==> #[trigger] pool.after_free(page).used[j]
                        == pool.used[j]
            }
        }),
{
}

} // verus!
