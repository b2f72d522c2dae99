//! Mapping whole virtual regions, all or nothing.

use vstd::prelude::*;
use crate::memory::PAGE_SIZE;
use crate::paging::{map_page, unmap_page, MemoryManager};
use crate::paging;
use crate::pmm::{allocate_batch, free_batch, free_physical_page, PhysPage, MAX_BATCH};
use crate::vmm::{cancel_reservation, forget_region, reserve_virtual_region, PageTable, PageTableEntry, PageTableFlags, RegionPurpose, VirtAddr, VirtPermissions, VirtRegion, VmmError};
use crate::walk;

verus! {

/// The address `i` pages after `start`.
pub open spec fn page_addr(start: u64, i: int) -> u64 {
    (start + 4096 * i) as u64
}

/// A run of canonical addresses from `start` on has consecutive page numbers.
pub proof fn lemma_run_pages(start: u64, i: int)
    requires
        0 <= i,
        start + 4096 * i <= u64::MAX,
        forall|k: int| 0 <= k <= i ==> crate::vmm::canonical(#[trigger] page_addr(start, k)),
    ensures
        walk::page_of(page_addr(start, i)) == walk::page_of(start) + i,
        0 <= walk::page_of(start),
        walk::page_of(start) + i < walk::page_limit(),
{
    assert(page_addr(start, 0) == start);
    assert(crate::vmm::canonical(page_addr(start, 0)));
    assert(crate::vmm::canonical(page_addr(start, i)));
    if start < 0x0000_8000_0000_0000 && start + 4096 * i >= 0x0000_8000_0000_0000 {
        let j = (0x0000_8000_0000_0000 - start + 4095) / 4096;
        assert(crate::vmm::canonical(page_addr(start, j)));
    }
    let end = start + 4096 * i;
    let base: int = if start < 0x0000_8000_0000_0000 {
        0
    } else {
        0xFFFF_0000_0000_0000
    };
    assert(page_addr(start, i) == end);
    assert(start as int % 0x1_0000_0000_0000 == start - base);
    assert(end % 0x1_0000_0000_0000 == end - base);
    assert((start - base + 4096 * i) / 4096 == (start - base) / 4096 + i);
}

/// Page `i` of a run from `start` on can be mapped to `phys`, as far as it alone
/// decides.
pub open spec fn mappable(
    mem: Seq<PageTable>,
    root: int,
    start: u64,
    i: int,
    phys: PhysPage,
) -> bool {
    let addr = page_addr(start, i);
    &&& crate::vmm::canonical(addr)
    &&& addr % 4096 == 0
    &&& phys.0 % 4096 == 0
    &&& walk::mapping(mem, root, walk::page_of(addr)) is None
}

/// The `n` pages from `start` on can be mapped to `pages`: each of them can, and
/// the free frames suffice for the tables that are missing.
pub open spec fn run_ok(
    mem: Seq<PageTable>,
    free: nat,
    root: int,
    start: u64,
    n: int,
    pages: Seq<PhysPage>,
) -> bool {
    &&& forall|i: int| 0 <= i < n ==> #[trigger] mappable(mem, root, start, i, pages[i])
    &&& walk::run_missing(mem, root, walk::page_of(start), n as nat) <= free
}

/// From one state to another, the `n` pages from `first` on were mapped by
/// `entries` under `root`, and under the roots that share the tables they are
/// mapped in; the tables that were missing were added, and no other page was
/// mapped or unmapped.
pub open spec fn run_mapped(
    mm0: MemoryManager,
    mem0: Seq<PageTable>,
    mm1: MemoryManager,
    mem1: Seq<PageTable>,
    root: int,
    first: int,
    n: int,
    entries: Seq<PageTableEntry>,
) -> bool {
    &&& paging::grown(mm0, mem0, mm1, mem1)
    &&& mm1.pmm@.free_count() == mm0.pmm@.free_count() - walk::run_missing(
        mem0,
        root,
        first,
        n as nat,
    )
    &&& walk::run_walks(mem0, mem1, root, first, n)
    &&& run_entries(mm0, mem0, mem1, root, first, n, entries)
}

/// The mappings of `mem1` are those of `mem0` but for the `n` pages from `first`
/// on, which `entries` map under `root` and the roots that share its tables.
pub open spec fn run_entries(
    mm0: MemoryManager,
    mem0: Seq<PageTable>,
    mem1: Seq<PageTable>,
    root: int,
    first: int,
    n: int,
    entries: Seq<PageTableEntry>,
) -> bool {
    &&& forall|p: int|
        first <= p < first + n ==> #[trigger] walk::table_at(mem1, root, p, 1) is Some
    &&& forall|r: int, p: int|
        walk::is_root(mm0.tables(), r) && 0 <= p < walk::page_limit() ==> #[trigger] walk::mapping(
            mem1,
            r,
            p,
        ) == if first <= p < first + n && walk::table_at(mem1, r, p, 1) == walk::table_at(
            mem1,
            root,
            p,
            1,
        ) {
            Some(entries[p - first])
        } else {
            walk::mapping(mem0, r, p)
        }
    &&& forall|r: int, p: int|
        walk::is_root(mm0.tables(), r) && first <= p < first + n && #[trigger] walk::table_at(
            mem1,
            r,
            p,
            1,
        ) == walk::table_at(mem1, root, p, 1) ==> walk::mapping(mem0, r, p) is None
}

/// The entries that map `pages` with `flags`.
pub open spec fn entries_for(pages: Seq<PhysPage>, flags: PageTableFlags) -> Seq<PageTableEntry> {
    pages.map_values(|p: PhysPage| crate::vmm::entry_for(p.0, flags))
}

/// Mapping one more page extends a run.
proof fn lemma_run_mapped_step(
    mm0: MemoryManager,
    mem0: Seq<PageTable>,
    mm1: MemoryManager,
    mem1: Seq<PageTable>,
    mm2: MemoryManager,
    mem2: Seq<PageTable>,
    root: int,
    first: int,
    n: int,
    entries: Seq<PageTableEntry>,
)
    requires
        mm0.wf(mem0),
        mm1.wf(mem1),
        walk::is_root(mm0.tables(), root),
        run_mapped(mm0, mem0, mm1, mem1, root, first, n, entries),
        0 <= n < entries.len(),
        0 <= first,
        first + n < walk::page_limit(),
        entries[n].maps(),
        paging::page_mapped(mm1, mem1, mm2, mem2, root, first + n, entries[n]),
    ensures
        run_mapped(mm0, mem0, mm2, mem2, root, first, n + 1, entries),
{
    let page = first + n;
    assert(mm0.is_table(root));
    assert(mm1.is_table(root));
    paging::lemma_grown_transitive(mm0, mem0, mm1, mem1, mm2, mem2);
    walk::lemma_run_step(mem0, mem1, root, first, n);
    walk::lemma_run_extend(mem0, mem1, mem2, root, first, n);
    assert forall|r: int, p: int|
        walk::is_root(mm0.tables(), r) && first <= p < page implies (#[trigger] walk::table_at(
        mem2,
        r,
        p,
        1,
    ) == walk::table_at(mem2, root, p, 1) <==> walk::table_at(mem1, r, p, 1) == walk::table_at(
        mem1,
        root,
        p,
        1,
    )) by {
        assert(mm0.is_table(r));
        assert(walk::is_root(mm1.tables(), r));
        assert(walk::table_at(mem1, root, p, 1) is Some);
        assert(walk::table_at(mem2, root, p, 1) == walk::table_at(mem1, root, p, 1));
        walk::lemma_walk(mem1, mm1.tables(), root, p, 1);
    }
    assert forall|p: int| first <= p < page + 1 implies #[trigger] walk::table_at(
        mem2,
        root,
        p,
        1,
    ) is Some by {
        if p < page {
            assert(walk::table_at(mem1, root, p, 1) is Some);
        }
    }
    assert forall|r: int, p: int|
        walk::is_root(mm0.tables(), r) && 0 <= p < walk::page_limit() implies #[trigger] walk::mapping(
        mem2,
        r,
        p,
    ) == if first <= p < page + 1 && walk::table_at(mem2, r, p, 1) == walk::table_at(
        mem2,
        root,
        p,
        1,
    ) {
        Some(entries[p - first])
    } else {
        walk::mapping(mem0, r, p)
    } by {
        assert(mm0.is_table(r));
        assert(walk::is_root(mm1.tables(), r));
        assert(walk::mapping(mem1, r, p) == if first <= p < page && walk::table_at(mem1, r, p, 1)
            == walk::table_at(mem1, root, p, 1) {
            Some(entries[p - first])
        } else {
            walk::mapping(mem0, r, p)
        });
        if first <= p < page {
            assert(walk::table_at(mem2, r, p, 1) == walk::table_at(mem2, r, p, 1));
        }
    }
    assert forall|r: int, p: int|
        walk::is_root(mm0.tables(), r) && first <= p < page + 1 && #[trigger] walk::table_at(
            mem2,
            r,
            p,
            1,
        ) == walk::table_at(mem2, root, p, 1) implies walk::mapping(mem0, r, p) is None by {
        assert(mm0.is_table(r));
        assert(walk::is_root(mm1.tables(), r));
        if p < page {
            assert(walk::table_at(mem1, r, p, 1) == walk::table_at(mem1, root, p, 1));
        } else {
            assert(walk::mapping(mem1, r, p) is None);
            assert(walk::mapping(mem1, r, p) == walk::mapping(mem0, r, p));
        }
    }
}

/// Unmapping what a run mapped brings the mappings back; the tables that were
/// added stay.
proof fn lemma_run_undone(
    mm0: MemoryManager,
    mem0: Seq<PageTable>,
    mm1: MemoryManager,
    mem1: Seq<PageTable>,
    mm2: MemoryManager,
    mem2: Seq<PageTable>,
    mem3: Seq<PageTable>,
    root: int,
    first: int,
    n: int,
    entries: Seq<PageTableEntry>,
)
    requires
        mm0.wf(mem0),
        mm1.wf(mem1),
        mm2.wf(mem2),
        walk::is_root(mm0.tables(), root),
        0 <= first,
        0 <= n,
        first + n <= walk::page_limit(),
        run_mapped(mm0, mem0, mm1, mem1, root, first, n, entries),
        paging::grown(mm1, mem1, mm2, mem2),
        walk::same_mappings(mem1, mem2, mm1.tables()),
        paging::pages_unmapped(mm2, mem2, mem3, root, first, first + n),
    ensures
        paging::grown(mm0, mem0, mm2, mem3),
        walk::same_mappings(mem0, mem3, mm0.tables()),
{
    assert(mm0.is_table(root));
    assert(mm1.is_table(root));
    paging::lemma_grown_transitive(mm0, mem0, mm1, mem1, mm2, mem2);
    paging::lemma_same_tables_grown(mm2, mem2, mem3);
    paging::lemma_grown_transitive(mm0, mem0, mm2, mem2, mm2, mem3);
    assert forall|r: int, p: int|
        walk::is_root(mm0.tables(), r) && 0 <= p < walk::page_limit() implies #[trigger] walk::mapping(
        mem3,
        r,
        p,
    ) == walk::mapping(mem0, r, p) by {
        assert(mm0.is_table(r));
        assert(mm1.is_table(r));
        assert(mm2.is_table(r));
        assert(walk::mapping(mem2, r, p) == walk::mapping(mem1, r, p));
        if first <= p < first + n {
            assert(walk::table_at(mem1, root, p, 1) is Some);
            walk::lemma_walk(mem1, mm1.tables(), root, p, 1);
            assert(walk::table_at(mem2, root, p, 1) == walk::table_at(mem1, root, p, 1));
            assert(walk::table_at(mem2, r, p, 1) == walk::table_at(mem2, root, p, 1)
                <==> walk::table_at(mem1, r, p, 1) == walk::table_at(mem1, root, p, 1));
        }
    }
}

/// Unmaps `n` mapped pages from `start` on.
fn unmap_run(
    frames: &mut [PageTable],
    mm: &MemoryManager,
    root: PhysPage,
    start: VirtAddr,
    n: usize,
)
    requires
        mm.wf(old(frames)@),
        mm.has_root(root),
        start.0 + 4096 * n <= u64::MAX,
        forall|i: int|
            0 <= i < n ==> paging::unmap_refusal(
                old(frames)@,
                root,
                VirtAddr(#[trigger] page_addr(start.0, i)),
            ) is None,
    ensures
        mm.wf(final(frames)@),
        paging::pages_unmapped(
            *mm,
            old(frames)@,
            final(frames)@,
            root.0 as int / 4096,
            walk::page_of(start.0),
            walk::page_of(start.0) + n,
        ),
{
    let ghost mem0 = frames@;
    let ghost r = root.0 as int / 4096;
    let ghost first = walk::page_of(start.0);
    let mut j: usize = 0;
    proof {
        walk::lemma_links_same(mem0, mem0, mm.tables());
    }
    while j < n
        invariant
            mm.wf(frames@),
            mm.has_root(root),
            start.0 + 4096 * n <= u64::MAX,
            j <= n,
            r == root.0 as int / 4096,
            first == walk::page_of(start.0),
            forall|i: int|
                0 <= i < n ==> paging::unmap_refusal(
                    mem0,
                    root,
                    VirtAddr(#[trigger] page_addr(start.0, i)),
                ) is None,
            paging::pages_unmapped(*mm, mem0, frames@, r, first, first + j),
        decreases n - j,
    {
        let ghost mem1 = frames@;
        let virt = VirtAddr::new(start.as_u64() + (j as u64) * PAGE_SIZE);
        proof {
            assert(virt.0 == page_addr(start.0, j as int));
            assert forall|k: int| 0 <= k <= j implies crate::vmm::canonical(
                #[trigger] page_addr(start.0, k),
            ) by {
                assert(paging::unmap_refusal(mem0, root, VirtAddr(page_addr(start.0, k))) is None);
            }
            lemma_run_pages(start.0, j as int);
            assert(walk::table_at(mem1, r, first + j, 1) == walk::table_at(mem0, r, first + j, 1));
            assert(walk::mapping(mem1, r, first + j) == walk::mapping(mem0, r, first + j));
        }
        let _ = unmap_page(frames, mm, root, virt);
        proof {
            lemma_unmapped_step(*mm, mem0, mem1, frames@, r, first, first + j);
        }
        j = j + 1;
    }
}

proof fn lemma_unmapped_step(
    mm: MemoryManager,
    mem0: Seq<PageTable>,
    mem1: Seq<PageTable>,
    mem2: Seq<PageTable>,
    root: int,
    first: int,
    page: int,
)
    requires
        paging::pages_unmapped(mm, mem0, mem1, root, first, page),
        paging::pages_unmapped(mm, mem1, mem2, root, page, page + 1),
        walk::is_root(mm.tables(), root),
        first <= page,
    ensures
        paging::pages_unmapped(mm, mem0, mem2, root, first, page + 1),
{
    walk::lemma_links_transitive(mem0, mem1, mem2, mm.tables(), mm.tables(), mm.tables());
    assert forall|r: int, p: int, l: nat|
        walk::is_root(mm.tables(), r) && 0 <= p < walk::page_limit() && 1 <= l
            <= 4 implies #[trigger] walk::table_at(mem2, r, p, l) == walk::table_at(
        mem0,
        r,
        p,
        l,
    ) by {
        assert(walk::table_at(mem1, r, p, l) == walk::table_at(mem0, r, p, l));
    }
    assert forall|r: int, p: int|
        walk::is_root(mm.tables(), r) && 0 <= p < walk::page_limit() implies #[trigger] walk::mapping(
        mem2,
        r,
        p,
    ) == if first <= p < page + 1 && walk::table_at(mem0, r, p, 1) == walk::table_at(
        mem0,
        root,
        p,
        1,
    ) {
        None
    } else {
        walk::mapping(mem0, r, p)
    } by {
        assert(walk::table_at(mem1, r, p, 1) == walk::table_at(mem0, r, p, 1));
        assert(walk::table_at(mem1, root, p, 1) == walk::table_at(mem0, root, p, 1));
        assert(walk::mapping(mem1, r, p) == if first <= p < page && walk::table_at(mem0, r, p, 1)
            == walk::table_at(mem0, root, p, 1) {
            None
        } else {
            walk::mapping(mem0, r, p)
        });
    }
}

/// Maps the `n` pages from `start` on to `pages`, or none of them.
fn map_run(
    frames: &mut [PageTable],
    mm: &mut MemoryManager,
    root: PhysPage,
    start: VirtAddr,
    pages: &[PhysPage],
    n: usize,
    flags: PageTableFlags,
) -> (r: bool)
    requires
        old(mm).wf(old(frames)@),
        old(mm).has_root(root),
        start.0 + 4096 * n <= u64::MAX,
        n <= pages@.len(),
        flags.0 & 1 != 0,
    ensures
        final(mm).wf(final(frames)@),
        r == run_ok(
            old(frames)@,
            old(mm).pmm@.free_count(),
            root.0 as int / 4096,
            start.0,
            n as int,
            pages@,
        ),
        r ==> run_mapped(
            *old(mm),
            old(frames)@,
            *final(mm),
            final(frames)@,
            root.0 as int / 4096,
            walk::page_of(start.0),
            n as int,
            entries_for(pages@, flags),
        ),
        !r ==> {
            &&& paging::grown(*old(mm), old(frames)@, *final(mm), final(frames)@)
            &&& walk::same_mappings(old(frames)@, final(frames)@, old(mm).tables())
        },
{
    let ghost mm0 = *mm;
    let ghost mem0 = frames@;
    let ghost r = root.0 as int / 4096;
    let ghost first = walk::page_of(start.0);
    let ghost entries = entries_for(pages@, flags);
    proof {
        assert(mm0.is_table(r));
        assert forall|i: int| 0 <= i < pages@.len() implies (#[trigger] entries[i]).maps() by {
            crate::vmm::lemma_entry_maps(pages@[i].0, flags);
        }
        paging::lemma_grown_reflexive(mm0, mem0);
    }
    let mut i: usize = 0;
    while i < n
        invariant
            mm0 == *old(mm),
            mem0 == old(frames)@,
            mm0.wf(mem0),
            mm0.has_root(root),
            mm.wf(frames@),
            start.0 + 4096 * n <= u64::MAX,
            n <= pages@.len(),
            i <= n,
            r == root.0 as int / 4096,
            first == walk::page_of(start.0),
            entries == entries_for(pages@, flags),
            forall|k: int| 0 <= k < pages@.len() ==> (#[trigger] entries[k]).maps(),
            run_mapped(mm0, mem0, *mm, frames@, r, first, i as int, entries),
            forall|k: int| 0 <= k < i ==> #[trigger] mappable(mem0, r, start.0, k, pages@[k]),
        decreases n - i,
    {
        let ghost mm1 = *mm;
        let ghost mem1 = frames@;
        let virt = VirtAddr::new(start.as_u64() + (i as u64) * PAGE_SIZE);
        let phys = pages[i];
        let ghost fine = crate::vmm::canonical(virt.0);
        proof {
            assert(mm0.is_table(r));
            assert(mm1.is_table(r));
            assert(virt.0 == page_addr(start.0, i as int));
            assert forall|k: int| 0 <= k < i implies crate::vmm::canonical(
                #[trigger] page_addr(start.0, k),
            ) by {
                assert(mappable(mem0, r, start.0, k, pages@[k]));
            }
            if fine {
                lemma_run_pages(start.0, i as int);
                walk::lemma_run_step(mem0, mem1, r, first, i as int);
                assert(walk::mapping(mem1, r, first + i) == walk::mapping(mem0, r, first + i));
            }
            walk::lemma_run_missing_grows(mem0, r, first, (i + 1) as nat, n as nat);
        }
        if map_page(frames, mm, root, virt, phys, flags).is_err() {
            proof {
                assert(!run_ok(
                    mem0,
                    mm0.pmm@.free_count(),
                    r,
                    start.0,
                    n as int,
                    pages@,
                )) by {
                    if forall|k: int|
                        0 <= k < n ==> #[trigger] mappable(mem0, r, start.0, k, pages@[k]) {
                        assert(mappable(mem0, r, start.0, i as int, pages@[i as int]));
                    }
                }
                if *mm == mm1 && frames@ == mem1 {
                    paging::lemma_grown_reflexive(mm1, mem1);
                }
                assert(paging::grown(mm1, mem1, *mm, frames@));
                assert(walk::same_mappings(mem1, frames@, mm1.tables()));
                assert forall|k: int| 0 <= k < i implies paging::unmap_refusal(
                    frames@,
                    root,
                    VirtAddr(#[trigger] page_addr(start.0, k)),
                ) is None by {
                    assert(mappable(mem0, r, start.0, k, pages@[k]));
                    lemma_run_pages(start.0, k);
                    assert(walk::mapping(frames@, r, first + k) == walk::mapping(
                        mem1,
                        r,
                        first + k,
                    ));
                    assert(walk::table_at(mem1, r, first + k, 1) is Some);
                }
                assert(first + i <= walk::page_limit()) by {
                    if i > 0 {
                        lemma_run_pages(start.0, i - 1);
                    }
                }
            }
            let ghost mem2 = frames@;
            unmap_run(frames, mm, root, start, i);
            proof {
                lemma_run_undone(
                    mm0,
                    mem0,
                    mm1,
                    mem1,
                    *mm,
                    mem2,
                    frames@,
                    r,
                    first,
                    i as int,
                    entries,
                );
            }
            return false;
        }
        proof {
            assert(entries[i as int] == crate::vmm::entry_for(phys.0, flags));
            assert(mappable(mem0, r, start.0, i as int, pages@[i as int]));
            lemma_run_mapped_step(
                mm0,
                mem0,
                mm1,
                mem1,
                *mm,
                frames@,
                r,
                first,
                i as int,
                entries,
            );
        }
        i = i + 1;
    }
    true
}

/// Why `region` cannot be mapped to `pages`; none if it can.
pub open spec fn map_region_refusal(
    mm: MemoryManager,
    mem: Seq<PageTable>,
    region: VirtRegion,
    pages: Seq<PhysPage>,
) -> Option<VmmError> {
    if pages.len() < region.pages() {
        Some(VmmError::PhysicalAllocationFailed)
    } else if !run_ok(
        mem,
        mm.pmm@.free_count(),
        mm.root.0 as int / 4096,
        region.start.0,
        region.pages(),
        pages,
    ) {
        Some(VmmError::PageTableMappingFailed)
    } else {
        None
    }
}

/// Maps the pages of `region` to `physical_pages` under the kernel's root, or
/// none of them.
///
/// A failure takes back every mapping; the tables that were created on the way
/// stay, empty.
///
/// Success owes the processor a flush of what it has cached for each page of the
/// region, which is the caller's.
pub fn map_region(
    frames: &mut [PageTable],
    mm: &mut MemoryManager,
    region: &VirtRegion,
    physical_pages: &[PhysPage],
) -> (r: Result<(), VmmError>)
    requires
        old(mm).ready(old(frames)@),
        region.fits(),
    ensures
        final(mm).ready(final(frames)@),
        match map_region_refusal(*old(mm), old(frames)@, *region, physical_pages@) {
            Some(e) => {
                &&& r == Err::<(), VmmError>(e)
                &&& paging::grown(*old(mm), old(frames)@, *final(mm), final(frames)@)
                &&& walk::same_mappings(old(frames)@, final(frames)@, old(mm).tables())
                &&& e != VmmError::PageTableMappingFailed ==> *final(mm) == *old(mm)
                    && final(frames)@ == old(frames)@
            },
            None => {
                &&& r == Ok::<(), VmmError>(())
                &&& run_mapped(
                    *old(mm),
                    old(frames)@,
                    *final(mm),
                    final(frames)@,
                    old(mm).root.0 as int / 4096,
                    walk::page_of(region.start.0),
                    region.pages(),
                    entries_for(physical_pages@, region.permissions.page_flags()),
                )
            },
        },
{
    let ghost mm0 = *mm;
    proof {
        assert(mm0.is_table(mm0.root.0 as int / 4096));
        paging::lemma_grown_reflexive(mm0, frames@);
    }
    let expected_pages: u64 = region.size_bytes / PAGE_SIZE;
    if (physical_pages.len() as u64) < expected_pages {
        return Err(VmmError::PhysicalAllocationFailed);
    }
    let root = mm.root;
    let flags = region.permissions.to_page_flags();
    proof {
        lemma_flags_present(region.permissions);
    }
    if map_run(frames, mm, root, region.start, physical_pages, expected_pages as usize, flags) {
        Ok(())
    } else {
        Err(VmmError::PageTableMappingFailed)
    }
}

/// What grants permissions is present, and holds no address.
pub proof fn lemma_flags_present(p: VirtPermissions)
    ensures
        p.page_flags().0 & 1 != 0,
        p.page_flags().0 & crate::vmm::ENTRY_ADDRESS_MASK == 0,
{
    let f = p.page_flags().0;
    assert(f % 2 == 1);
    assert(f <= 7 || 0x8000_0000_0000_0000 <= f <= 0x8000_0000_0000_0007);
    assert(f & 1 != 0 && f & 0x000F_FFFF_FFFF_F000 == 0) by (bit_vector)
        requires
            f % 2 == 1,
            f <= 7 || 0x8000_0000_0000_0000 <= f <= 0x8000_0000_0000_0007,
    ;
}

/// The first `n` free pages of a pool.
pub open spec fn fresh_pages(pool: crate::pmm::FramePool, n: int) -> Seq<PhysPage> {
    Seq::new(n as nat, |i: int| PhysPage((4096 * pool.nth_free(i)) as u64))
}

/// Why the `n` pages from `start` on cannot be mapped to the first `n` free
/// frames; none if they can.
pub open spec fn fresh_refusal(
    mm: MemoryManager,
    mem: Seq<PageTable>,
    start: u64,
    n: int,
) -> Option<VmmError> {
    if mm.pmm@.free_count() < n {
        Some(VmmError::PhysicalAllocationFailed)
    } else if !run_ok(
        mem,
        (mm.pmm@.free_count() - n) as nat,
        mm.root.0 as int / 4096,
        start,
        n,
        fresh_pages(mm.pmm@, n),
    ) {
        Some(VmmError::PageTableMappingFailed)
    } else {
        None
    }
}

/// From one state to another, the `n` pages from `start` on were mapped with
/// `flags` to the first `n` free frames under the kernel's root, and under the
/// roots that share its tables; the tables that were missing were added in
/// other free frames. Nothing else was handed out, given back, mapped or
/// unmapped, and memory outside the tables is as it was.
pub open spec fn fresh_mapped(
    mm0: MemoryManager,
    mem0: Seq<PageTable>,
    mm1: MemoryManager,
    mem1: Seq<PageTable>,
    start: u64,
    n: int,
    flags: PageTableFlags,
) -> bool {
    let root = mm0.root.0 as int / 4096;
    let first = walk::page_of(start);
    &&& mm1.root == mm0.root
    &&& mem1.len() == mem0.len()
    &&& mm1.pmm@.total() == mm0.pmm@.total()
    &&& forall|f: int| #[trigger]
        mm0.is_table(f) ==> mm1.is_table(f) && mm1.tables()[f] == mm0.tables()[f]
    &&& forall|f: int| #[trigger]
        mm1.is_table(f) && !mm0.is_table(f) ==> mm0.pmm@.is_free(f) && mm1.tables()[f].level < 4
            && crate::pmm::count_free(mm0.pmm@.used, f as nat) >= n
    &&& forall|f: int|
        0 <= f < mm0.pmm@.used.len() ==> #[trigger] mm1.pmm@.used[f] == (mm0.pmm@.used[f] || (
        mm0.pmm@.is_free(f) && crate::pmm::count_free(mm0.pmm@.used, f as nat) < n) || (
        mm1.is_table(f) && !mm0.is_table(f)))
    &&& mm1.pmm@.free_count() == mm0.pmm@.free_count() - n - walk::run_missing(
        mem0,
        root,
        first,
        n as nat,
    )
    &&& mm1.pmm@.stats == mm0.pmm@.stats_after_takes(
        mm0.pmm@.free_count() - mm1.pmm@.free_count(),
    )
    &&& forall|f: int| 0 <= f < mem0.len() && !mm1.is_table(f) ==> #[trigger] mem1[f] == mem0[f]
    &&& walk::walks_grow(mem0, mem1, mm0.tables())
    &&& walk::run_walks(mem0, mem1, root, first, n)
    &&& run_entries(
        mm0,
        mem0,
        mem1,
        root,
        first,
        n,
        entries_for(fresh_pages(mm0.pmm@, n), flags),
    )
}

/// After a failure, all that is left of an attempt are empty tables.
pub open spec fn rolled_back(
    mm0: MemoryManager,
    mem0: Seq<PageTable>,
    mm1: MemoryManager,
    mem1: Seq<PageTable>,
) -> bool {
    &&& paging::tables_added(mm0, mem0, mm1, mem1)
    &&& walk::same_mappings(mem0, mem1, mm0.tables())
    &&& mm0.pmm@.counted() ==> mm1.pmm@.counted()
}

/// Memory, the tables, the registry and the pages in use are as they were, and
/// the allocator's totals are right if they were.
pub open spec fn as_before(
    mm0: MemoryManager,
    mem0: Seq<PageTable>,
    mm1: MemoryManager,
    mem1: Seq<PageTable>,
) -> bool {
    &&& mem1 == mem0
    &&& mm1.root == mm0.root
    &&& mm1.tables() == mm0.tables()
    &&& mm1.vmm@ == mm0.vmm@
    &&& mm1.vmm.next_dynamic_addr == mm0.vmm.next_dynamic_addr
    &&& mm0.pmm@.same_pages(mm1.pmm@)
}

/// What is left of an attempt to map `n` fresh pages that was refused: nothing
/// where the free frames do not suffice for the pages, and else, where a page
/// could not be mapped, the tables that were created on the way, empty.
pub open spec fn fresh_refused(
    mm0: MemoryManager,
    mem0: Seq<PageTable>,
    mm1: MemoryManager,
    mem1: Seq<PageTable>,
    n: int,
) -> bool {
    &&& rolled_back(mm0, mem0, mm1, mem1)
    &&& mm0.pmm@.free_count() < n ==> as_before(mm0, mem0, mm1, mem1)
}

/// What is left of an attempt to reserve and map a region that was refused:
/// nothing, unless the region could be reserved and the frames for it be had but
/// a page could not be mapped; then the tables that were created on the way
/// stay, empty.
pub open spec fn region_refused(
    mm0: MemoryManager,
    mem0: Seq<PageTable>,
    mm1: MemoryManager,
    mem1: Seq<PageTable>,
    size_bytes: u64,
) -> bool {
    &&& rolled_back(mm0, mem0, mm1, mem1)
    &&& crate::vmm::reserve_refusal(mm0.vmm@, mm0.vmm.next_dynamic_addr, size_bytes) is Some
        ==> mm1 == mm0 && mem1 == mem0
    &&& size_bytes / 4096 > MAX_BATCH ==> as_before(mm0, mem0, mm1, mem1) && mm1.pmm == mm0.pmm
    &&& mm0.pmm@.free_count() < size_bytes / 4096 ==> as_before(mm0, mem0, mm1, mem1)
}

/// Maps the `n` pages from `start` on to fresh frames under the kernel's root,
/// or none of them.
pub(crate) fn map_fresh_run(
    frames: &mut [PageTable],
    mm: &mut MemoryManager,
    start: VirtAddr,
    n: usize,
    flags: PageTableFlags,
) -> (r: Result<(), VmmError>)
    requires
        old(mm).ready(old(frames)@),
        n <= MAX_BATCH,
        start.0 + 4096 * n <= u64::MAX,
        flags.0 & 1 != 0,
    ensures
        final(mm).ready(final(frames)@),
        final(mm).vmm@ == old(mm).vmm@,
        final(mm).vmm.next_dynamic_addr == old(mm).vmm.next_dynamic_addr,
        match fresh_refusal(*old(mm), old(frames)@, start.0, n as int) {
            Some(e) => {
                &&& r == Err::<(), VmmError>(e)
                &&& fresh_refused(
                    *old(mm),
                    old(frames)@,
                    *final(mm),
                    final(frames)@,
                    n as int,
                )
            },
            None => {
                &&& r == Ok::<(), VmmError>(())
                &&& fresh_mapped(
                    *old(mm),
                    old(frames)@,
                    *final(mm),
                    final(frames)@,
                    start.0,
                    n as int,
                    flags,
                )
            },
        },
{
    let ghost mm0 = *mm;
    let ghost mem0 = frames@;
    let ghost pool = mm.pmm@;
    let root = mm.root;
    let null = PhysPage::null();
    let mut pages = [null; MAX_BATCH];
    proof {
        assert(mm0.is_table(root.0 as int / 4096));
    }
    if !allocate_batch(&mut mm.pmm, &mut pages, n) {
        proof {
            paging::lemma_grown_reflexive(mm0, mem0);
            assert forall|f: int| #[trigger] mm.is_table(f) implies f < mm.pmm@.total()
                && mm.pmm@.used[f] by {
                assert(mm0.is_table(f));
            }
        }
        return Err(VmmError::PhysicalAllocationFailed);
    }
    let ghost mm1 = *mm;
    proof {
        assert forall|f: int| #[trigger] mm1.is_table(f) implies f < mm1.pmm@.total()
            && mm1.pmm@.used[f] by {
            assert(mm0.is_table(f));
        }
        assert forall|i: int| 0 <= i < n implies #[trigger] pages@[i] == fresh_pages(
            pool,
            n as int,
        )[i] && pages@[i].0 == 4096 * pool.nth_free(i) && 0 < pool.nth_free(i) < pool.total() by {
            crate::pmm::lemma_nth_free(pool, i);
        }
        assert(fresh_pages(pool, n as int) =~= pages@.take(n as int));
        lemma_run_ok_prefix(
            mem0,
            mm1.pmm@.free_count(),
            root.0 as int / 4096,
            start.0,
            n as int,
            pages@,
        );
    }
    let ok = map_run(frames, mm, root, start, pages.as_slice(), n, flags);
    let ghost mm2 = *mm;
    let ghost mem2 = frames@;
    if !ok {
        proof {
            lemma_batch_in_use(mm0, mem0, mm1, mm2, mem2, n as int);
            assert forall|i: int| 0 <= i < n implies {
                let f = (#[trigger] pages@[i]).0 as int / 4096;
                &&& pages@[i].0 == 4096 * f
                &&& 0 < f < mm2.pmm@.total()
                &&& mm2.pmm@.used[f]
            } by {
                assert(mm2.pmm@.used[pool.nth_free(i)]);
            }
            assert forall|a: int, b: int| 0 <= a < b < n implies #[trigger] pages@[a]
                != #[trigger] pages@[b] by {
                crate::pmm::lemma_nth_free_distinct(pool, a, b);
            }
        }
        free_batch(&mut mm.pmm, &pages, n);
        proof {
            assert forall|f: int|
                0 <= f < pool.used.len() implies ((exists|i: int|
                0 <= i < n && (#[trigger] pages@[i]).0 == 4096 * f) <==> (pool.is_free(f)
                && #[trigger] crate::pmm::count_free(pool.used, f as nat) < n)) by {
                if pool.is_free(f) && crate::pmm::count_free(pool.used, f as nat) < n {
                    crate::pmm::lemma_among_first(pool, n as int, f);
                    assert(pages@[crate::pmm::count_free(pool.used, f as nat) as int].0 == 4096 * f);
                }
                if exists|i: int| 0 <= i < n && (#[trigger] pages@[i]).0 == 4096 * f {
                    let i = choose|i: int| 0 <= i < n && (#[trigger] pages@[i]).0 == 4096 * f;
                    crate::pmm::lemma_nth_free(pool, i);
                }
            }
            lemma_batch_returned(mm0, mem0, mm1, mm2, mem2, *mm, n as int);
            if pool.counted() {
                crate::pmm::lemma_stats_counted(pool, mm1.pmm@, n as int);
                crate::pmm::lemma_stats_counted(
                    mm1.pmm@,
                    mm2.pmm@,
                    mm1.pmm@.free_count() - mm2.pmm@.free_count(),
                );
            }
        }
        return Err(VmmError::PageTableMappingFailed);
    }
    proof {
        lemma_fresh_mapped(
            mm0,
            mem0,
            mm1,
            mm2,
            mem2,
            start.0,
            n as int,
            flags,
            pages@,
        );
    }
    Ok(())
}

/// Only the pages of the run count.
proof fn lemma_run_ok_prefix(
    mem: Seq<PageTable>,
    free: nat,
    root: int,
    start: u64,
    n: int,
    pages: Seq<PhysPage>,
)
    requires
        0 <= n <= pages.len(),
    ensures
        run_ok(mem, free, root, start, n, pages) == run_ok(
            mem,
            free,
            root,
            start,
            n,
            pages.take(n),
        ),
{
    let short = pages.take(n);
    if run_ok(mem, free, root, start, n, pages) {
        assert forall|i: int| 0 <= i < n implies #[trigger] mappable(
            mem,
            root,
            start,
            i,
            short[i],
        ) by {
            assert(mappable(mem, root, start, i, pages[i]));
        }
    }
    if run_ok(mem, free, root, start, n, short) {
        assert forall|i: int| 0 <= i < n implies #[trigger] mappable(
            mem,
            root,
            start,
            i,
            pages[i],
        ) by {
            assert(mappable(mem, root, start, i, short[i]));
        }
    }
}

/// Frames that were handed out before tables were added are in use and are no
/// tables.
proof fn lemma_batch_in_use(
    mm0: MemoryManager,
    mem0: Seq<PageTable>,
    mm1: MemoryManager,
    mm2: MemoryManager,
    mem2: Seq<PageTable>,
    n: int,
)
    requires
        mm0.wf(mem0),
        0 <= n <= mm0.pmm@.free_count(),
        mm1.tables() == mm0.tables(),
        mm0.pmm@.without_first(n, mm1.pmm@),
        paging::tables_added(mm1, mem0, mm2, mem2),
    ensures
        forall|i: int| 0 <= i < n ==> mm2.pmm@.used[#[trigger] mm0.pmm@.nth_free(i)],
        forall|i: int| 0 <= i < n ==> !mm2.is_table(#[trigger] mm0.pmm@.nth_free(i)),
{
    let pool = mm0.pmm@;
    assert forall|i: int| 0 <= i < n implies mm2.pmm@.used[#[trigger] pool.nth_free(i)]
        && !mm2.is_table(pool.nth_free(i)) by {
        crate::pmm::lemma_nth_free(pool, i);
        let f = pool.nth_free(i);
        assert(mm1.pmm@.used[f]);
        assert(!mm0.is_table(f));
        if mm2.is_table(f) {
            assert(mm1.pmm@.is_free(f));
        }
    }
}

/// Giving the frames of a failed attempt back leaves only the added tables.
proof fn lemma_batch_returned(
    mm0: MemoryManager,
    mem0: Seq<PageTable>,
    mm1: MemoryManager,
    mm2: MemoryManager,
    mem2: Seq<PageTable>,
    mm3: MemoryManager,
    n: int,
)
    requires
        mm0.wf(mem0),
        mm1.wf(mem0),
        mm2.wf(mem2),
        0 <= n <= mm0.pmm@.free_count(),
        mm1.root == mm0.root,
        mm1.vmm == mm0.vmm,
        mm1.tables() == mm0.tables(),
        mm0.pmm@.without_first(n, mm1.pmm@),
        paging::tables_added(mm1, mem0, mm2, mem2),
        mm3.root == mm2.root,
        mm3.vmm == mm2.vmm,
        mm3.tables() == mm2.tables(),
        mm3.pmm@.wf(),
        mm3.pmm@.total() == mm2.pmm@.total(),
        mm3.pmm@.stats.usable_pages == mm2.pmm@.stats.usable_pages,
        mm3.pmm@.free_count() == mm2.pmm@.free_count() + n,
        forall|f: int|
            0 <= f < mm0.pmm@.used.len() ==> #[trigger] mm3.pmm@.used[f] == (mm2.pmm@.used[f] && !(
            mm0.pmm@.is_free(f) && crate::pmm::count_free(mm0.pmm@.used, f as nat) < n)),
    ensures
        mm3.wf(mem2),
        paging::tables_added(mm0, mem0, mm3, mem2),
{
    let pool = mm0.pmm@;
    assert forall|f: int| #[trigger] mm2.is_table(f) && !mm0.is_table(f) implies pool.is_free(f)
        && crate::pmm::count_free(pool.used, f as nat) >= n && mm2.tables()[f].level < 4 by {
        assert(!mm1.is_table(f));
        assert(mm1.pmm@.is_free(f));
        assert(mm1.pmm@.used[f] == (pool.used[f] || (pool.is_free(f) && crate::pmm::count_free(
            pool.used,
            f as nat,
        ) < n)));
    }
    assert forall|f: int| 0 <= f < pool.used.len() implies #[trigger] mm3.pmm@.used[f] == (
    pool.used[f] || (mm3.is_table(f) && !mm0.is_table(f))) by {
        assert(mm1.pmm@.used[f] == (pool.used[f] || (pool.is_free(f) && crate::pmm::count_free(
            pool.used,
            f as nat,
        ) < n)));
        assert(mm2.pmm@.used[f] == (mm1.pmm@.used[f] || (mm2.is_table(f) && !mm1.is_table(f))));
        assert(mm3.is_table(f) == mm2.is_table(f));
        assert(mm1.is_table(f) == mm0.is_table(f));
    }
    assert forall|f: int| #[trigger] mm3.is_table(f) implies f < mm3.pmm@.total()
        && mm3.pmm@.used[f] by {
        assert(mm2.is_table(f));
        if mm0.is_table(f) {
            assert(pool.used[f]);
        }
    }
    assert forall|f: int| #[trigger] mm0.is_table(f) implies mm3.is_table(f) && mm3.tables()[f]
        == mm0.tables()[f] by {
        assert(mm1.is_table(f));
    }
    assert forall|f: int| #[trigger] mm3.is_table(f) && !mm0.is_table(f) implies pool.is_free(f)
        && mm3.tables()[f].level < 4 by {
        assert(mm2.is_table(f));
    }
}

/// Handing frames out and mapping them makes one step.
proof fn lemma_fresh_mapped(
    mm0: MemoryManager,
    mem0: Seq<PageTable>,
    mm1: MemoryManager,
    mm2: MemoryManager,
    mem2: Seq<PageTable>,
    start: u64,
    n: int,
    flags: PageTableFlags,
    pages: Seq<PhysPage>,
)
    requires
        mm0.wf(mem0),
        mm0.has_root(mm0.root),
        mm1.wf(mem0),
        0 <= n <= mm0.pmm@.free_count(),
        n <= pages.len(),
        fresh_pages(mm0.pmm@, n) == pages.take(n),
        mm1.root == mm0.root,
        mm1.vmm == mm0.vmm,
        mm1.tables() == mm0.tables(),
        mm0.pmm@.without_first(n, mm1.pmm@),
        run_mapped(
            mm1,
            mem0,
            mm2,
            mem2,
            mm0.root.0 as int / 4096,
            walk::page_of(start),
            n,
            entries_for(pages, flags),
        ),
    ensures
        fresh_mapped(mm0, mem0, mm2, mem2, start, n, flags),
{
    let pool = mm0.pmm@;
    let root = mm0.root.0 as int / 4096;
    let first = walk::page_of(start);
    assert forall|f: int| #[trigger] mm2.is_table(f) && !mm0.is_table(f) implies pool.is_free(f)
        && mm2.tables()[f].level < 4 && crate::pmm::count_free(pool.used, f as nat) >= n by {
        assert(!mm1.is_table(f));
        assert(mm1.pmm@.is_free(f));
        assert(mm1.pmm@.used[f] == (pool.used[f] || (pool.is_free(f) && crate::pmm::count_free(
            pool.used,
            f as nat,
        ) < n)));
    }
    assert forall|f: int| #[trigger] mm0.is_table(f) implies mm2.is_table(f) && mm2.tables()[f]
        == mm0.tables()[f] by {
        assert(mm1.is_table(f));
    }
    assert forall|f: int| 0 <= f < pool.used.len() implies #[trigger] mm2.pmm@.used[f] == (
    pool.used[f] || (pool.is_free(f) && crate::pmm::count_free(pool.used, f as nat) < n) || (
    mm2.is_table(f) && !mm0.is_table(f))) by {
        assert(mm1.pmm@.used[f] == (pool.used[f] || (pool.is_free(f) && crate::pmm::count_free(
            pool.used,
            f as nat,
        ) < n)));
        assert(mm1.is_table(f) == mm0.is_table(f));
    }
    let long = entries_for(pages, flags);
    let short = entries_for(fresh_pages(pool, n), flags);
    assert forall|i: int| 0 <= i < n implies long[i] == #[trigger] short[i] by {
        assert(pages.take(n)[i] == pages[i]);
    }
    assert forall|r: int, p: int|
        walk::is_root(mm0.tables(), r) && 0 <= p < walk::page_limit() implies #[trigger] walk::mapping(
        mem2,
        r,
        p,
    ) == if first <= p < first + n && walk::table_at(mem2, r, p, 1) == walk::table_at(
        mem2,
        root,
        p,
        1,
    ) {
        Some(short[p - first])
    } else {
        walk::mapping(mem0, r, p)
    } by {
        if first <= p < first + n {
            assert(long[p - first] == short[p - first]);
        }
    }
}

/// Why a region of `size_bytes` cannot be reserved and backed by fresh frames;
/// none if it can.
pub open spec fn allocate_refusal(
    mm: MemoryManager,
    mem: Seq<PageTable>,
    size_bytes: u64,
) -> Option<VmmError> {
    match crate::vmm::reserve_refusal(mm.vmm@, mm.vmm.next_dynamic_addr, size_bytes) {
        Some(e) => Some(e),
        None => if size_bytes / 4096 > MAX_BATCH {
            Some(VmmError::PhysicalAllocationFailed)
        } else {
            fresh_refusal(mm, mem, mm.vmm.next_dynamic_addr, size_bytes as int / 4096)
        },
    }
}

/// From one state to another, `region` was registered behind the others and mapped
/// to fresh frames.
pub open spec fn region_added(
    mm0: MemoryManager,
    mem0: Seq<PageTable>,
    mm1: MemoryManager,
    mem1: Seq<PageTable>,
    region: VirtRegion,
) -> bool {
    &&& crate::vmm::region_ok(region)
    &&& mm1.vmm@ == mm0.vmm@.push(region)
    &&& mm1.vmm.next_dynamic_addr == region.limit()
    &&& fresh_mapped(
        mm0,
        mem0,
        mm1,
        mem1,
        region.start.0,
        region.pages(),
        region.permissions.page_flags(),
    )
}

/// Reserves a region in the dynamic range and maps it to fresh frames, which it
/// owns.
///
/// At most `MAX_BATCH` pages can be had at once. A failure takes everything
/// back, the reservation too; where a page could not be mapped, the tables that
/// were created on the way stay, empty.
///
/// Success owes the processor a flush of what it has cached for each page of the
/// region, which is the caller's.
pub fn allocate_and_map_region(
    frames: &mut [PageTable],
    mm: &mut MemoryManager,
    size_bytes: u64,
    permissions: VirtPermissions,
    purpose: RegionPurpose,
) -> (r: Result<VirtRegion, VmmError>)
    requires
        old(mm).ready(old(frames)@),
    ensures
        final(mm).ready(final(frames)@),
        r matches Ok(region) ==> {
            &&& region.start == VirtAddr(old(mm).vmm.next_dynamic_addr)
            &&& region.size_bytes == size_bytes
            &&& region.permissions == permissions
            &&& region.purpose == purpose
            &&& region.owns_physical_pages
        },
        match allocate_refusal(*old(mm), old(frames)@, size_bytes) {
            Some(e) => {
                &&& r == Err::<VirtRegion, VmmError>(e)
                &&& region_refused(
                    *old(mm),
                    old(frames)@,
                    *final(mm),
                    final(frames)@,
                    size_bytes,
                )
            },
            None => {
                let region = crate::vmm::next_region(
                    old(mm).vmm.next_dynamic_addr,
                    size_bytes,
                    permissions,
                    purpose,
                );
                &&& r == Ok::<VirtRegion, VmmError>(
                    VirtRegion { owns_physical_pages: true, ..region },
                )
                &&& region_added(
                    *old(mm),
                    old(frames)@,
                    *final(mm),
                    final(frames)@,
                    region,
                )
            },
        },
{
    let ghost mm0 = *mm;
    let ghost mem0 = frames@;
    let next: u64 = mm.vmm.next_dynamic_addr;
    proof {
        assert(mm0.is_table(mm0.root.0 as int / 4096));
        paging::lemma_grown_reflexive(mm0, mem0);
    }
    let reserved = match reserve_virtual_region(&mut mm.vmm, size_bytes, permissions, purpose) {
        Ok(region) => region,
        Err(e) => return Err(e),
    };
    let ghost mm1 = *mm;
    proof {
        assert(mm1.vmm@.drop_last() =~= mm0.vmm@);
        assert forall|f: int| #[trigger] mm1.is_table(f) implies f < mm1.pmm@.total()
            && mm1.pmm@.used[f] by {
            assert(mm0.is_table(f));
        }
    }
    let page_count: u64 = size_bytes / PAGE_SIZE;
    if page_count > MAX_BATCH as u64 {
        cancel_reservation(&mut mm.vmm, next);
        proof {
            lemma_same_state(mm0, *mm, mem0);
        }
        return Err(VmmError::PhysicalAllocationFailed);
    }
    let flags = permissions.to_page_flags();
    proof {
        lemma_flags_present(permissions);
    }
    match map_fresh_run(frames, mm, reserved.start, page_count as usize, flags) {
        Ok(()) => {
            proof {
                lemma_backed_elsewhere(
                    mm0,
                    mem0,
                    mm1,
                    *mm,
                    frames@,
                    next,
                    page_count as int,
                    flags,
                );
            }
            let mut region = reserved;
            region.owns_physical_pages = true;
            Ok(region)
        },
        Err(e) => {
            let ghost mm2 = *mm;
            cancel_reservation(&mut mm.vmm, next);
            proof {
                lemma_cancelled(mm0, mem0, mm1, mm2, *mm, frames@);
            }
            Err(e)
        },
    }
}

/// Two managers that differ in the registry's spare entries are the same.
proof fn lemma_same_state(mm0: MemoryManager, mm1: MemoryManager, mem: Seq<PageTable>)
    requires
        mm0.wf(mem),
        mm1.pmm == mm0.pmm,
        mm1.root == mm0.root,
        mm1.tables == mm0.tables,
        mm1.vmm@ == mm0.vmm@,
        mm1.vmm.next_dynamic_addr == mm0.vmm.next_dynamic_addr,
        mm1.vmm.wf(),
    ensures
        mm1.wf(mem),
        rolled_back(mm0, mem, mm1, mem),
{
    paging::lemma_grown_reflexive(mm0, mem);
    assert forall|f: int| #[trigger] mm1.is_table(f) implies f < mm1.pmm@.total()
        && mm1.pmm@.used[f] by {
        assert(mm0.is_table(f));
    }
    assert forall|f: int| #[trigger]
        mm0.is_table(f) implies mm1.is_table(f) && mm1.tables()[f] == mm0.tables()[f] by {}
    assert forall|f: int| #[trigger] mm1.is_table(f) implies mm0.is_table(f) by {}
    assert forall|f: int| 0 <= f < mm0.pmm@.used.len() implies #[trigger] mm1.pmm@.used[f] == (
    mm0.pmm@.used[f] || (mm1.is_table(f) && !mm0.is_table(f))) by {}
}

/// Cancelling a reservation after a failed attempt leaves what the attempt left.
pub proof fn lemma_cancelled(
    mm0: MemoryManager,
    mem0: Seq<PageTable>,
    mm1: MemoryManager,
    mm2: MemoryManager,
    mm3: MemoryManager,
    mem2: Seq<PageTable>,
)
    requires
        mm0.wf(mem0),
        mm2.wf(mem2),
        mm1.pmm == mm0.pmm,
        mm1.root == mm0.root,
        mm1.tables == mm0.tables,
        rolled_back(mm1, mem0, mm2, mem2),
        mm3.pmm == mm2.pmm,
        mm3.root == mm2.root,
        mm3.tables == mm2.tables,
        mm3.vmm@ == mm0.vmm@,
        mm3.vmm.next_dynamic_addr == mm0.vmm.next_dynamic_addr,
        mm3.vmm.wf(),
    ensures
        mm3.wf(mem2),
        rolled_back(mm0, mem0, mm3, mem2),
{
    assert forall|f: int| #[trigger] mm3.is_table(f) implies f < mm3.pmm@.total()
        && mm3.pmm@.used[f] by {
        assert(mm2.is_table(f));
    }
    assert forall|f: int| #[trigger]
        mm0.is_table(f) implies mm3.is_table(f) && mm3.tables()[f] == mm0.tables()[f] by {
        assert(mm1.is_table(f));
    }
    assert forall|f: int| #[trigger]
        mm3.is_table(f) && !mm0.is_table(f) implies mm0.pmm@.is_free(f) && mm3.tables()[f].level
        < 4 by {
        assert(mm2.is_table(f) && !mm1.is_table(f));
    }
    assert forall|f: int| 0 <= f < mm0.pmm@.used.len() implies #[trigger] mm3.pmm@.used[f] == (
    mm0.pmm@.used[f] || (mm3.is_table(f) && !mm0.is_table(f))) by {
        assert(mm3.is_table(f) == mm2.is_table(f));
        assert(mm1.is_table(f) == mm0.is_table(f));
    }
    assert forall|f: int| 0 <= f < mem0.len() && !mm3.is_table(f) implies #[trigger] mem2[f]
        == mem0[f] by {
        assert(!mm2.is_table(f));
    }
}

/// What a manager maps does not depend on its registry.
pub proof fn lemma_backed_elsewhere(
    mm0: MemoryManager,
    mem0: Seq<PageTable>,
    mm1: MemoryManager,
    mm2: MemoryManager,
    mem2: Seq<PageTable>,
    start: u64,
    n: int,
    flags: PageTableFlags,
)
    requires
        mm1.pmm == mm0.pmm,
        mm1.root == mm0.root,
        mm1.tables == mm0.tables,
        fresh_mapped(mm1, mem0, mm2, mem2, start, n, flags),
    ensures
        fresh_mapped(mm0, mem0, mm2, mem2, start, n, flags),
{
    assert forall|f: int| #[trigger]
        mm0.is_table(f) implies mm2.is_table(f) && mm2.tables()[f] == mm0.tables()[f] by {
        assert(mm1.is_table(f));
    }
    assert forall|f: int| #[trigger]
        mm2.is_table(f) && !mm0.is_table(f) implies mm0.pmm@.is_free(f) && mm2.tables()[f].level
        < 4 && crate::pmm::count_free(mm0.pmm@.used, f as nat) >= n by {
        assert(!mm1.is_table(f));
    }
    assert forall|f: int| 0 <= f < mm0.pmm@.used.len() implies #[trigger] mm2.pmm@.used[f] == (
    mm0.pmm@.used[f] || (mm0.pmm@.is_free(f) && crate::pmm::count_free(mm0.pmm@.used, f as nat) < n)
        || (mm2.is_table(f) && !mm0.is_table(f))) by {
        assert(mm1.is_table(f) == mm0.is_table(f));
    }
}

/// How many pages from `start` on, up to `n`, can be unmapped one after the
/// other.
pub open spec fn unmappable(mem: Seq<PageTable>, root: PhysPage, start: u64, n: nat) -> nat
    decreases n,
{
    if n == 0 {
        0
    } else {
        let below = unmappable(mem, root, start, (n - 1) as nat);
        if below == n - 1 && paging::unmap_refusal(
            mem,
            root,
            VirtAddr(page_addr(start, n - 1)),
        ) is None {
            n
        } else {
            below
        }
    }
}

/// The pool after the frames of the `n` pages from `start` on were given back in
/// turn.
pub open spec fn pool_after_unmap(
    pool: crate::pmm::FramePool,
    mem: Seq<PageTable>,
    root: int,
    start: u64,
    n: nat,
) -> crate::pmm::FramePool
    decreases n,
{
    if n == 0 {
        pool
    } else {
        pool_after_unmap(pool, mem, root, start, (n - 1) as nat).after_free(
            PhysPage((walk::mapping(mem, root, walk::page_of(page_addr(start, n - 1)))->0).target()),
        )
    }
}

/// None of the pages of `region` is mapped to a table.
pub open spec fn maps_no_table(mm: MemoryManager, mem: Seq<PageTable>, region: VirtRegion) -> bool {
    forall|i: int|
        0 <= i < region.pages() && walk::mapping(
            mem,
            mm.root.0 as int / 4096,
            walk::page_of(#[trigger] page_addr(region.start.0, i)),
        ) is Some ==> !mm.is_table(
            paging::frame_of(
                mem,
                mm.root.0 as int / 4096,
                walk::page_of(page_addr(region.start.0, i)),
            ),
        )
}

/// Where `k` pages can be unmapped one after the other, each of them can.
proof fn lemma_unmappable(mem: Seq<PageTable>, root: PhysPage, start: u64, n: nat, i: int)
    requires
        0 <= i < unmappable(mem, root, start, n),
    ensures
        unmappable(mem, root, start, n) <= n,
        paging::unmap_refusal(mem, root, VirtAddr(page_addr(start, i))) is None,
    decreases n,
{
    if n > 0 {
        let below = unmappable(mem, root, start, (n - 1) as nat);
        if below > i {
            lemma_unmappable(mem, root, start, (n - 1) as nat, i);
        }
        lemma_unmappable_bound(mem, root, start, n);
    }
}

pub proof fn lemma_unmappable_bound(mem: Seq<PageTable>, root: PhysPage, start: u64, n: nat)
    ensures
        unmappable(mem, root, start, n) <= n,
    decreases n,
{
    if n > 0 {
        lemma_unmappable_bound(mem, root, start, (n - 1) as nat);
    }
}

/// A page that cannot be unmapped ends the count.
proof fn lemma_unmappable_stops(mem: Seq<PageTable>, root: PhysPage, start: u64, k: nat, n: nat)
    requires
        k < n,
        unmappable(mem, root, start, k) == k,
        paging::unmap_refusal(mem, root, VirtAddr(page_addr(start, k as int))) is Some,
    ensures
        unmappable(mem, root, start, n) == k,
    decreases n,
{
    if n > k + 1 {
        lemma_unmappable_stops(mem, root, start, k, (n - 1) as nat);
    }
}

/// From one state to another, the pages of `region` were unmapped one after the
/// other, up to the first that could not be, and their frames given back if the
/// region owns them; if all could be, the region was dropped from the registry. `r`
/// says whether they could.
pub open spec fn region_removed(
    mm0: MemoryManager,
    mem0: Seq<PageTable>,
    mm1: MemoryManager,
    mem1: Seq<PageTable>,
    region: VirtRegion,
    r: Result<(), VmmError>,
) -> bool {
    let root = mm0.root.0 as int / 4096;
    let start = region.start.0;
    let n = region.pages() as nat;
    let k = unmappable(mem0, mm0.root, start, n);
    &&& mm1.root == mm0.root
    &&& mm1.tables() == mm0.tables()
    &&& paging::pages_unmapped(
        mm0,
        mem0,
        mem1,
        root,
        walk::page_of(start),
        walk::page_of(start) + k,
    )
    &&& mm1.pmm@ == if region.owns_physical_pages {
        pool_after_unmap(mm0.pmm@, mem0, root, start, k)
    } else {
        mm0.pmm@
    }
    &&& mm1.vmm.next_dynamic_addr == mm0.vmm.next_dynamic_addr
    &&& if k == n {
        &&& r == Ok::<(), VmmError>(())
        &&& mm1.vmm@ == crate::vmm::without_region(mm0.vmm@, region.start)
    } else {
        &&& r == Err::<(), VmmError>(VmmError::PageTableMappingFailed)
        &&& mm1.vmm@ == mm0.vmm@
    }
}

/// Unmaps the pages of `region`, gives their frames back where the region owns
/// them, and drops the region from the registry.
///
/// The first page that cannot be unmapped ends the work: the pages before it
/// are unmapped, and the region stays registered.
///
/// The processor is owed a flush of what it has cached for each page that was
/// unmapped: on success all pages of the region, else those before the first
/// that could not be. The flush is the caller's, before the frames are used for
/// anything else.
pub fn unmap_region(
    frames: &mut [PageTable],
    mm: &mut MemoryManager,
    region: &VirtRegion,
) -> (r: Result<(), VmmError>)
    requires
        old(mm).ready(old(frames)@),
        region.fits(),
        region.owns_physical_pages ==> maps_no_table(*old(mm), old(frames)@, *region),
    ensures
        final(mm).ready(final(frames)@),
        region_removed(*old(mm), old(frames)@, *final(mm), final(frames)@, *region, r),
{
    let ghost mm0 = *mm;
    let ghost mem0 = frames@;
    let ghost r = mm.root.0 as int / 4096;
    let ghost start = region.start.0;
    let ghost first = walk::page_of(start);
    let page_count: u64 = region.size_bytes / PAGE_SIZE;
    let root = mm.root;
    let mut i: u64 = 0;
    proof {
        walk::lemma_links_same(mem0, mem0, mm0.tables());
    }
    while i < page_count
        invariant
            mm0 == *old(mm),
            mem0 == old(frames)@,
            mm0.ready(mem0),
            root == mm0.root,
            r == root.0 as int / 4096,
            start == region.start.0,
            first == walk::page_of(start),
            region.fits(),
            page_count == region.pages(),
            i <= page_count,
            region.owns_physical_pages ==> maps_no_table(mm0, mem0, *region),
            mm.wf(frames@),
            mm.root == mm0.root,
            mm.vmm == mm0.vmm,
            mm.tables == mm0.tables,
            unmappable(mem0, root, start, i as nat) == i,
            paging::pages_unmapped(mm0, mem0, frames@, r, first, first + i),
            mm.pmm@ == if region.owns_physical_pages {
                pool_after_unmap(mm0.pmm@, mem0, r, start, i as nat)
            } else {
                mm0.pmm@
            },
        decreases page_count - i,
    {
        let ghost mem1 = frames@;
        let virt = VirtAddr::new(region.start.as_u64() + i * PAGE_SIZE);
        proof {
            assert(virt.0 == page_addr(start, i as int));
            assert forall|k: int| 0 <= k < i implies crate::vmm::canonical(
                #[trigger] page_addr(start, k),
            ) by {
                lemma_unmappable(mem0, root, start, i as nat, k);
            }
            if crate::vmm::canonical(virt.0) {
                lemma_run_pages(start, i as int);
                assert(walk::table_at(mem1, r, first + i, 1) == walk::table_at(
                    mem0,
                    r,
                    first + i,
                    1,
                ));
                assert(walk::mapping(mem1, r, first + i) == walk::mapping(mem0, r, first + i));
            }
            assert(paging::unmap_refusal(mem1, root, virt) == paging::unmap_refusal(
                mem0,
                root,
                virt,
            ));
        }
        match unmap_page(frames, mm, root, virt) {
            Ok(unmapped_phys) => {
                proof {
                    lemma_unmapped_step(mm0, mem0, mem1, frames@, r, first, first + i);
                    assert(walk::mapping(mem0, r, first + i) is Some);
                }
                let ghost mm1 = *mm;
                if region.owns_physical_pages {
                    let _ = free_physical_page(&mut mm.pmm, unmapped_phys);
                    proof {
                        let f = paging::frame_of(mem0, r, first + i);
                        assert(!mm0.is_table(f));
                        assert forall|t: int| #[trigger] mm.is_table(t) implies t < mm.pmm@.total()
                            && mm.pmm@.used[t] by {
                            assert(mm1.is_table(t));
                            assert(mm0.is_table(t));
                        }
                    }
                }
            },
            Err(_) => {
                proof {
                    lemma_unmappable_stops(mem0, root, start, i as nat, page_count as nat);
                }
                return Err(VmmError::PageTableMappingFailed);
            },
        }
        i = i + 1;
    }
    let ghost mm1 = *mm;
    forget_region(&mut mm.vmm, region.start);
    proof {
        assert forall|t: int| #[trigger] mm.is_table(t) implies t < mm.pmm@.total()
            && mm.pmm@.used[t] by {
            assert(mm1.is_table(t));
        }
    }
    Ok(())
}

} // verus!
