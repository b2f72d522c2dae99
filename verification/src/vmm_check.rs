//! The self-test of virtual memory.

use vstd::prelude::*;
use crate::kept;
use crate::kept::Since;
use crate::memory::PAGE_SIZE;
use crate::paging;
use crate::paging::{translate, MemoryManager};
use crate::pmm::PhysPage;
use crate::regions;
use crate::regions::{allocate_and_map_region, unmap_region};
use crate::vmm::{find_region_for_addr, is_canonical, reserve_virtual_region, PageTable, PageTableFlags, RegionPurpose, VirtAddr, VirtPermissions, VirtRegion, VmmError};
use crate::walk;
use crate::window;
use crate::window::{load, store};

verus! {

/// The permissions of the regions that the self-test makes.
pub open spec fn test_permissions() -> VirtPermissions {
    VirtPermissions { readable: true, writable: true, executable: false, user: false }
}

/// The region that the self-test reserves from `next` on.
pub open spec fn test_region(next: u64) -> VirtRegion {
    crate::vmm::next_region(next, 0x4000, test_permissions(), RegionPurpose::DynamicKernel)
}

/// Why the self-test cannot have its second region, behind the first; none if it
/// can.
pub open spec fn second_refusal(mm: MemoryManager, mem: Seq<PageTable>) -> Option<VmmError> {
    let next = mm.vmm.next_dynamic_addr;
    let behind = (next + 0x4000) as u64;
    match crate::vmm::reserve_refusal(mm.vmm@.push(test_region(next)), behind, 0x2000) {
        Some(e) => Some(e),
        None => regions::fresh_refusal(mm, mem, behind, 2),
    }
}

/// The region that was registered last is the one that starts where it does.
pub proof fn lemma_last_region(s: Seq<VirtRegion>, region: VirtRegion)
    requires
        crate::vmm::regions_disjoint(s.push(region)),
        region.size_bytes > 0,
        forall|i: int| 0 <= i < s.len() ==> crate::vmm::region_ok(#[trigger] s[i]),
    ensures
        crate::vmm::without_region(s.push(region), region.start) == s,
{
    let all = s.push(region);
    let last = s.len() as int;
    assert forall|i: int| 0 <= i < last implies (#[trigger] all[i]).start != region.start by {
        assert(crate::vmm::region_ok(s[i]));
        assert(!all[i].meets(all[last].start.0 as int, all[last].limit()));
    }
    assert(all[last].start == region.start);
    let i = choose|i: int|
        0 <= i < all.len() && (#[trigger] all[i]).start == region.start && forall|k: int|
            0 <= k < i ==> (#[trigger] all[k]).start != region.start;
    assert(i == last);
    assert(all.update(i, all.last()).drop_last() =~= s);
}

/// The pages of a backed run can be unmapped one after the other.
pub proof fn lemma_backed_unmappable(
    mm: MemoryManager,
    mem: Seq<PageTable>,
    start: u64,
    n: nat,
)
    requires
        mm.ready(mem),
        window::backed(mm, mem, start as int, n as int),
    ensures
        regions::unmappable(mem, mm.root, start, n) == n,
        forall|i: int|
            0 <= i < n ==> walk::page_of(#[trigger] regions::page_addr(start, i)) == start as int
                / 4096 + i,
    decreases n,
{
    reveal(window::backed);
    let r = mm.root.0 as int / 4096;
    if n > 0 {
        assert(window::backed(mm, mem, start as int, n - 1));
        lemma_backed_unmappable(mm, mem, start, (n - 1) as nat);
        let i = n - 1;
        assert(window::holds(mm, mem, start as int, i));
        let a = regions::page_addr(start, i);
        assert(a == start + 4096 * i);
        assert(a % 4096 == 0);
        assert(walk::page_of(a) == start as int / 4096 + i);
    }
}

/// The pages of a backed run lead to no table.
pub proof fn lemma_backed_no_table(mm: MemoryManager, mem: Seq<PageTable>, region: VirtRegion, n: nat)
    requires
        mm.ready(mem),
        window::backed(mm, mem, region.start.0 as int, n as int),
        region.pages() == n,
    ensures
        regions::maps_no_table(mm, mem, region),
{
    lemma_backed_unmappable(mm, mem, region.start.0, n);
    reveal(window::backed);
    let r = mm.root.0 as int / 4096;
    let s = region.start.0 as int;
    assert forall|i: int|
        0 <= i < region.pages() && walk::mapping(
            mem,
            r,
            walk::page_of(#[trigger] regions::page_addr(region.start.0, i)),
        ) is Some implies !mm.is_table(
        paging::frame_of(mem, r, walk::page_of(regions::page_addr(region.start.0, i))),
    ) by {
        assert(window::holds(mm, mem, s, i));
        assert(window::frame_at(mm, mem, s, i) == paging::frame_of(
            mem,
            r,
            walk::page_of(regions::page_addr(region.start.0, i)),
        ));
    }
}

/// Mapping fresh pages, writing to them and unmapping them leaves the mappings
/// as they were.
proof fn lemma_mappings_restored(
    mm0: MemoryManager,
    mem0: Seq<PageTable>,
    mm1: MemoryManager,
    mem1: Seq<PageTable>,
    mem2: Seq<PageTable>,
    mem3: Seq<PageTable>,
    start: u64,
    n: int,
    flags: PageTableFlags,
)
    requires
        mm0.ready(mem0),
        mm1.ready(mem1),
        0 <= n,
        start + 4096 * n <= window::LOWER_HALF_END,
        regions::fresh_mapped(mm0, mem0, mm1, mem1, start, n, flags),
        window::backed(mm1, mem1, start as int, n),
        window::only_within(mm1, mem1, mem2, start as int, n),
        paging::pages_unmapped(
            mm1,
            mem2,
            mem3,
            mm0.root.0 as int / 4096,
            walk::page_of(start),
            walk::page_of(start) + n,
        ),
    ensures
        walk::same_mappings(mem0, mem3, mm0.tables()),
{
    reveal(window::backed);
    reveal(window::only_within);
    let root = mm0.root.0 as int / 4096;
    let first = walk::page_of(start);
    assert(mm0.is_table(root));
    assert forall|f: int, i: int|
        mm1.tables().contains_key(f) && 0 <= i < 512 implies #[trigger] walk::word(mem2, f, i)
        == walk::word(mem1, f, i) by {
        assert(mm1.is_table(f));
        assert forall|k: int| 0 <= k < n implies f != #[trigger] window::frame_at(
            mm1,
            mem1,
            start as int,
            k,
        ) by {
            assert(window::holds(mm1, mem1, start as int, k));
        }
        assert(mem2[f] == mem1[f]);
    }
    walk::lemma_data_change(mem1, mem2, mm1.tables());
    assert forall|r: int, p: int|
        walk::is_root(mm0.tables(), r) && 0 <= p < walk::page_limit() implies #[trigger] walk::mapping(
        mem3,
        r,
        p,
    ) == walk::mapping(mem0, r, p) by {
        assert(mm0.is_table(r));
        assert(mm1.is_table(r));
        assert(mm1.is_table(root));
        assert(walk::mapping(mem2, r, p) == walk::mapping(mem1, r, p));
        assert(walk::table_at(mem2, r, p, 1) == walk::table_at(mem1, r, p, 1));
        assert(walk::table_at(mem2, root, p, 1) == walk::table_at(mem1, root, p, 1));
    }
}

/// Mapping fresh pages, writing to them, unmapping them and giving their frames
/// back leaves all else.
proof fn lemma_region_kept(
    mm0: MemoryManager,
    mem0: Seq<PageTable>,
    mm1: MemoryManager,
    mem1: Seq<PageTable>,
    mem2: Seq<PageTable>,
    mm3: MemoryManager,
    mem3: Seq<PageTable>,
    start: u64,
    n: nat,
    flags: PageTableFlags,
)
    requires
        mm0.ready(mem0),
        mm1.ready(mem1),
        mm1.ready(mem2),
        n <= mm0.pmm@.free_count(),
        start % 4096 == 0,
        start + 4096 * n <= window::LOWER_HALF_END,
        start < window::LOWER_HALF_END,
        flags.0 & 1 != 0,
        flags.0 & crate::vmm::ENTRY_ADDRESS_MASK == 0,
        regions::fresh_mapped(mm0, mem0, mm1, mem1, start, n as int, flags),
        window::backed(mm1, mem2, start as int, n as int),
        window::only_within(mm1, mem1, mem2, start as int, n as int),
        paging::pages_unmapped(
            mm1,
            mem2,
            mem3,
            mm0.root.0 as int / 4096,
            walk::page_of(start),
            walk::page_of(start) + n,
        ),
        mm3.root == mm1.root,
        mm3.tables() == mm1.tables(),
        mm3.pmm@ == regions::pool_after_unmap(
            mm1.pmm@,
            mem2,
            mm0.root.0 as int / 4096,
            start,
            n,
        ),
    ensures
        kept::unchanged(mm0, mem0, mm3, mem3),
{
    let p = walk::page_of(start);
    let s = start as int;
    let since = Since { mm: mm0, mem: mem0, lo: p, hi: p, ours: Set::empty() };
    kept::lemma_kept_first(since);
    kept::lemma_kept_fresh(since, mm0, mem0, mm1, mem1, start, n as int, flags);
    let more = since.plus(n as int);
    kept::lemma_kept_write(more, mm1, mem1, mem2, s, n as int);
    window::lemma_tables_kept(mm1, mem1, mem2, s, n as int);
    window::lemma_frames_kept(mm1, mem1, mem2, s, n as int);
    kept::lemma_owns_same(more, mm1, mem1, mm1, mem2, s, n as int);
    kept::lemma_kept_released(more, mm1, mem2, mm3, mem3, start, n);
    kept::lemma_kept_nowhere(more.minus(n as int), mm3, mem3, 0);
}

/// Makes a region with frames of its own, and writes, reads, looks up and unmaps
/// it.
fn exercise_region(frames: &mut [PageTable], mm: &mut MemoryManager) -> (r: Result<
    (),
    &'static str,
>)
    requires
        old(mm).ready(old(frames)@),
    ensures
        final(mm).ready(final(frames)@),
        final(mm).root == old(mm).root,
        final(mm).vmm@ == old(mm).vmm@,
        walk::same_mappings(old(frames)@, final(frames)@, old(mm).tables()),
        kept::unchanged(*old(mm), old(frames)@, *final(mm), final(frames)@),
        forall|f: int| #[trigger]
            old(mm).is_table(f) ==> final(mm).is_table(f) && final(mm).tables()[f]
                == old(mm).tables()[f],
        match regions::allocate_refusal(*old(mm), old(frames)@, 0x2000) {
            Some(_) => {
                &&& r == Err::<(), &'static str>("allocate_and_map_region failed!")
                &&& final(mm).vmm.next_dynamic_addr == old(mm).vmm.next_dynamic_addr
            },
            None => {
                &&& r == Ok::<(), &'static str>(())
                &&& final(mm).vmm.next_dynamic_addr == old(mm).vmm.next_dynamic_addr + 0x2000
            },
        },
{
    let ghost mm1 = *mm;
    let ghost mem1 = frames@;
    let ghost root = mm.root.0 as int / 4096;
    let permissions = VirtPermissions::kernel_data();
    let ghost flags = permissions.page_flags();
    proof {
        assert(mm1.is_table(root));
        crate::context::lemma_stack_flags();
    }
    let dyn_region = match allocate_and_map_region(
        frames,
        mm,
        PAGE_SIZE * 2,
        permissions,
        RegionPurpose::DynamicKernel,
    ) {
        Ok(region) => region,
        Err(_) => {
            proof {
                let since = Since { mm: mm1, mem: mem1, lo: 0, hi: 0, ours: Set::empty() };
                kept::lemma_kept_first(since);
                kept::lemma_kept_tables(since, mm1, mem1, *mm, frames@);
            }
            return Err("allocate_and_map_region failed!");
        },
    };
    let ghost mm2 = *mm;
    let ghost mem2 = frames@;
    let ghost plain = VirtRegion { owns_physical_pages: false, ..dyn_region };
    proof {
        window::lemma_fresh_backed(mm1, mem1, mm2, mem2, dyn_region.start.0, 2, flags);
    }
    let first: u64 = dyn_region.start.as_u64();
    if !touch(frames, mm, first) {
        return Err("Read/write verification failed in dynamic region!");
    }
    let found = find_region_for_addr(&mm.vmm, dyn_region.start);
    let ghost mem3 = frames@;
    proof {
        let last = mm2.vmm@.len() - 1;
        assert(mm2.vmm@[last] == plain);
        assert(mm2.vmm@[last].covers(dyn_region.start.0 as int));
        lemma_backed_unmappable(*mm, mem3, first, 2);
        lemma_backed_no_table(*mm, mem3, dyn_region, 2);
        lemma_last_region(mm1.vmm@, plain);
    }
    if found.is_none() {
        return Err("find_region_for_addr failed to find active region!");
    }
    if unmap_region(frames, mm, &dyn_region).is_err() {
        return Err("unmap_region returned error!");
    }
    let root_page = mm.root;
    proof {
        let p = walk::page_of(first);
        assert(0 <= p < walk::page_limit());
        assert(mm2.is_table(root));
        assert(walk::mapping(frames@, root, p) is None);
        lemma_mappings_restored(mm1, mem1, mm2, mem2, mem3, frames@, first, 2, flags);
        assert forall|f: int| #[trigger] mm1.is_table(f) implies mm.is_table(f)
            && mm.tables()[f] == mm1.tables()[f] by {
            assert(mm2.is_table(f));
        }
        lemma_region_kept(mm1, mem1, mm2, mem2, mem3, *mm, frames@, first, 2, flags);
    }
    if translate(frames, mm, root_page, dyn_region.start).is_some() {
        return Err("Address still mapped after unmap_region!");
    }
    Ok(())
}

/// Writes to and reads from the two backed pages from `first` on.
fn touch(frames: &mut [PageTable], mm: &MemoryManager, first: u64) -> (r: bool)
    requires
        mm.ready(old(frames)@),
        window::backed(*mm, old(frames)@, first as int, 2),
    ensures
        r,
        mm.ready(final(frames)@),
        window::backed(*mm, final(frames)@, first as int, 2),
        window::only_within(*mm, old(frames)@, final(frames)@, first as int, 2),
{
    let ghost mem0 = frames@;
    proof {
        assert(first % 4096 == 0 && first + 8192 <= window::LOWER_HALF_END) by {
            reveal(window::backed);
        }
    }
    let second: u64 = first + PAGE_SIZE;
    assert((second - first) / 8 == 512);
    store(frames, mm, first, Ghost(2), first, 0x1122_3344_5566_7788);
    let ghost mem1 = frames@;
    store(frames, mm, first, Ghost(2), second, 0x8877_6655_4433_2211);
    proof {
        window::lemma_only_within_transitive(*mm, mem0, mem1, frames@, first as int, 2);
    }
    let one: u64 = load(frames, mm, first, Ghost(2), first);
    let two: u64 = load(frames, mm, first, Ghost(2), second);
    one == 0x1122_3344_5566_7788 && two == 0x8877_6655_4433_2211
}

/// Runs virtual memory through its paces: canonical addresses, a reservation, a
/// region with frames of its own that is written, read, looked up and unmapped.
/// It passes wherever both regions can be had.
pub fn test_vmm(frames: &mut [PageTable], mm: &mut MemoryManager) -> (r: Result<(), &'static str>)
    requires
        old(mm).ready(old(frames)@),
    ensures
        final(mm).ready(final(frames)@),
        final(mm).root == old(mm).root,
        kept::returned(*old(mm), *final(mm)),
        ({
            let next = old(mm).vmm.next_dynamic_addr;
            if crate::vmm::reserve_refusal(old(mm).vmm@, next, 0x4000) is Some {
                &&& r == Err::<(), &'static str>("reserve_virtual_region failed!")
                &&& *final(mm) == *old(mm)
                &&& final(frames)@ == old(frames)@
            } else if second_refusal(*old(mm), old(frames)@) is Some {
                &&& r == Err::<(), &'static str>("allocate_and_map_region failed!")
                &&& final(mm).vmm@ == old(mm).vmm@.push(test_region(next))
                &&& final(mm).vmm.next_dynamic_addr == next + 0x4000
                &&& walk::same_mappings(old(frames)@, final(frames)@, old(mm).tables())
                &&& kept::unchanged(*old(mm), old(frames)@, *final(mm), final(frames)@)
            } else {
                &&& r == Ok::<(), &'static str>(())
                &&& final(mm).vmm.next_dynamic_addr == next + 0x6000
                &&& walk::mapping(
                    old(frames)@,
                    old(mm).root.0 as int / 4096,
                    walk::page_of(next),
                ) is None ==> {
                    &&& final(mm).vmm@ == old(mm).vmm@.push(test_region(next))
                    &&& walk::same_mappings(old(frames)@, final(frames)@, old(mm).tables())
                    &&& kept::unchanged(*old(mm), old(frames)@, *final(mm), final(frames)@)
                }
            }
        }),
{
    if is_canonical(0xDEAD_0000_0000_0000) {
        return Err("Non-canonical address returned true!");
    }
    if !is_canonical(0x0000_7FFF_FFFF_F000) {
        return Err("Canonical lower address returned false!");
    }
    let ghost mm0 = *mm;
    let ghost mem0 = frames@;
    let ghost next = mm.vmm.next_dynamic_addr;
    let ghost root = mm.root.0 as int / 4096;
    let region = match reserve_virtual_region(
        &mut mm.vmm,
        PAGE_SIZE * 4,
        VirtPermissions::kernel_data(),
        RegionPurpose::DynamicKernel,
    ) {
        Ok(region) => region,
        Err(_) => return Err("reserve_virtual_region failed!"),
    };
    let ghost mm1 = *mm;
    proof {
        assert(mm0.is_table(root));
        assert forall|f: int| #[trigger] mm1.is_table(f) implies f < mm1.pmm@.total()
            && mm1.pmm@.used[f] by {
            assert(mm0.is_table(f));
        }
        assert(regions::allocate_refusal(mm1, mem0, 0x2000) == second_refusal(mm0, mem0));
    }
    if !region.start.is_aligned() || region.size_bytes != PAGE_SIZE * 4 {
        return Err("Reserved region alignment or size mismatch!");
    }
    let exercised = exercise_region(frames, mm);
    let ghost mm2 = *mm;
    let ghost mem2 = frames@;
    let ghost since = Since { mm: mm0, mem: mem0, lo: 0, hi: 0, ours: Set::empty() };
    proof {
        kept::lemma_kept_registry(Since { mm: mm1, ..since }, mm0, mm2, mem2, mm2);
        assert(since == (Since { mm: mm0, ..(Since { mm: mm1, ..since }) }));
        kept::lemma_returned(mm0, mem0, mm2, mem2);
    }
    match exercised {
        Ok(()) => {},
        Err(message) => return Err(message),
    }
    proof {
        assert(0 <= walk::page_of(next) < walk::page_limit());
        if walk::mapping(mem0, root, walk::page_of(next)) is None {
            assert(regions::page_addr(next, 0) == next);
            assert(walk::mapping(mem2, root, walk::page_of(next)) is None);
            lemma_none_unmappable(mem2, mm.root, next, 4);
        }
    }
    let _ = unmap_region(frames, mm, &region);
    proof {
        assert forall|f: int| #[trigger] mm.is_table(f) == mm2.is_table(f) by {}
        if walk::mapping(mem0, root, walk::page_of(next)) is None {
            assert forall|r: int, p: int|
                walk::is_root(mm0.tables(), r) && 0 <= p
                    < walk::page_limit() implies #[trigger] walk::mapping(frames@, r, p)
                == walk::mapping(mem0, r, p) by {
                assert(mm1.is_table(r));
                assert(mm2.is_table(r));
                assert(walk::mapping(mem2, r, p) == walk::mapping(mem0, r, p));
            }
            kept::lemma_kept_nowhere(since, mm2, mem2, walk::page_of(next));
            kept::lemma_kept_unmap(
                Since { lo: walk::page_of(next), hi: walk::page_of(next), ..since },
                mm2,
                mem2,
                *mm,
                frames@,
                0,
            );
            kept::lemma_kept_nowhere(
                Since { lo: walk::page_of(next), hi: walk::page_of(next), ..since },
                *mm,
                frames@,
                0,
            );
        }
    }
    Ok(())
}

/// Where the first page is not mapped, nothing is unmapped.
proof fn lemma_none_unmappable(mem: Seq<PageTable>, root: PhysPage, start: u64, n: nat)
    requires
        paging::unmap_refusal(mem, root, VirtAddr(regions::page_addr(start, 0))) is Some,
    ensures
        regions::unmappable(mem, root, start, n) == 0,
    decreases n,
{
    if n > 0 {
        lemma_none_unmappable(mem, root, start, (n - 1) as nat);
    }
}

} // verus!
