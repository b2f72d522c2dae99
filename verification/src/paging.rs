//! Mapping, unmapping and translating pages, in tables that live in the frames
//! of physical memory.

use vstd::prelude::*;
use crate::memory::PAGE_SIZE;
use crate::pmm::{allocate_physical_page, PageAllocator, PhysPage};
use crate::vmm::{is_canonical, MapError, PageTable, PageTableEntry, PageTableFlags, UnmapError, VirtAddr, VirtRegion, VirtualMemoryManager};
use crate::walk;
use crate::walk::TableRole;

verus! {

/// The page allocator, the region registry, the kernel's root table, and which
/// frames are tables.
pub struct MemoryManager {
    pub pmm: PageAllocator,
    pub vmm: VirtualMemoryManager,
    pub root: PhysPage,
    pub tables: Ghost<Map<int, TableRole>>,
}

impl MemoryManager {
    /// The frames that are used as tables, with their roles.
    pub open spec fn tables(self) -> Map<int, TableRole> {
        self.tables@
    }

    /// Frame `f` is used as a table.
    pub open spec fn is_table(self, f: int) -> bool {
        self.tables().contains_key(f)
    }

    /// `page` is the root of a hierarchy.
    pub open spec fn has_root(self, page: PhysPage) -> bool {
        page.0 % 4096 == 0 && walk::is_root(self.tables(), page.0 as int / 4096)
    }

    /// Every managed frame is in memory, and the tables keep to their roles in
    /// frames that are in use.
    pub open spec fn wf(self, mem: Seq<PageTable>) -> bool {
        &&& self.pmm@.wf()
        &&& self.pmm@.total() <= mem.len()
        &&& self.vmm.wf()
        &&& walk::tables_wf(mem, self.tables())
        &&& forall|f: int| #[trigger]
            self.is_table(f) ==> f < self.pmm@.total() && self.pmm@.used[f]
    }

    /// The kernel's root table is in place.
    pub open spec fn ready(self, mem: Seq<PageTable>) -> bool {
        self.wf(mem) && self.has_root(self.root)
    }

    /// A manager without tables, over a page allocator.
    pub fn new(pmm: PageAllocator) -> (r: Self)
        ensures
            r.pmm == pmm,
            r.vmm.wf(),
            r.vmm@ == Seq::<VirtRegion>::empty(),
            r.vmm.next_dynamic_addr == crate::vmm::DYNAMIC_VIRT_START,
            r.root == PhysPage(0),
            r.tables() == Map::<int, TableRole>::empty(),
            forall|mem: Seq<PageTable>|
                pmm@.wf() && pmm@.total() <= mem.len() ==> #[trigger] r.wf(mem),
    {
        Self {
            pmm,
            vmm: VirtualMemoryManager::new(),
            root: PhysPage::null(),
            tables: Ghost(Map::empty()),
        }
    }
}

/// From one state to another, tables were added in frames that were free and
/// nothing else was handed out or given back; memory outside the tables is as
/// it was.
pub open spec fn tables_added(
    mm0: MemoryManager,
    mem0: Seq<PageTable>,
    mm1: MemoryManager,
    mem1: Seq<PageTable>,
) -> bool {
    &&& mm1.root == mm0.root
    &&& mm1.vmm@ == mm0.vmm@
    &&& mm1.vmm.next_dynamic_addr == mm0.vmm.next_dynamic_addr
    &&& mem1.len() == mem0.len()
    &&& mm1.pmm@.total() == mm0.pmm@.total()
    &&& mm1.pmm@.stats.usable_pages == mm0.pmm@.stats.usable_pages
    &&& forall|f: int| #[trigger]
        mm0.is_table(f) ==> mm1.is_table(f) && mm1.tables()[f] == mm0.tables()[f]
    &&& forall|f: int| #[trigger]
        mm1.is_table(f) && !mm0.is_table(f) ==> mm0.pmm@.is_free(f) && mm1.tables()[f].level < 4
    &&& forall|f: int|
        0 <= f < mm0.pmm@.used.len() ==> #[trigger] mm1.pmm@.used[f] == (mm0.pmm@.used[f] || (
        mm1.is_table(f) && !mm0.is_table(f)))
    &&& mm1.pmm@.free_count() <= mm0.pmm@.free_count()
    &&& forall|f: int| 0 <= f < mem0.len() && !mm1.is_table(f) ==> #[trigger] mem1[f] == mem0[f]
    &&& walk::walks_grow(mem0, mem1, mm0.tables())
    &&& walk::links_made(mem0, mem1, mm0.tables(), mm1.tables())
}

/// Tables were added, and the allocator's totals say so.
pub open spec fn grown(
    mm0: MemoryManager,
    mem0: Seq<PageTable>,
    mm1: MemoryManager,
    mem1: Seq<PageTable>,
) -> bool {
    &&& tables_added(mm0, mem0, mm1, mem1)
    &&& mm1.pmm@.stats == mm0.pmm@.stats_after_takes(
        mm0.pmm@.free_count() - mm1.pmm@.free_count(),
    )
}

pub proof fn lemma_grown_reflexive(mm: MemoryManager, mem: Seq<PageTable>)
    ensures
        grown(mm, mem, mm, mem),
{
    walk::lemma_links_same(mem, mem, mm.tables());
}

proof fn lemma_links_added(
    mm0: MemoryManager,
    mem0: Seq<PageTable>,
    mm1: MemoryManager,
    mem1: Seq<PageTable>,
    mm2: MemoryManager,
    mem2: Seq<PageTable>,
)
    requires
        tables_added(mm0, mem0, mm1, mem1),
        tables_added(mm1, mem1, mm2, mem2),
    ensures
        walk::links_made(mem0, mem2, mm0.tables(), mm2.tables()),
{
    assert forall|f: int| #[trigger] mm0.tables().contains_key(f) implies mm1.tables().contains_key(
        f,
    ) && mm1.tables()[f] == mm0.tables()[f] by {
        assert(mm0.is_table(f));
    }
    assert forall|f: int| #[trigger] mm1.tables().contains_key(f) implies mm2.tables().contains_key(
        f,
    ) && mm2.tables()[f] == mm1.tables()[f] by {
        assert(mm1.is_table(f));
    }
    walk::lemma_links_transitive(
        mem0,
        mem1,
        mem2,
        mm0.tables(),
        mm1.tables(),
        mm2.tables(),
    );
}

pub proof fn lemma_grown_transitive(
    mm0: MemoryManager,
    mem0: Seq<PageTable>,
    mm1: MemoryManager,
    mem1: Seq<PageTable>,
    mm2: MemoryManager,
    mem2: Seq<PageTable>,
)
    requires
        grown(mm0, mem0, mm1, mem1),
        grown(mm1, mem1, mm2, mem2),
        mm0.pmm@.wf(),
        mm1.pmm@.wf(),
    ensures
        grown(mm0, mem0, mm2, mem2),
{
    lemma_links_added(mm0, mem0, mm1, mem1, mm2, mem2);
    assert forall|f: int| #[trigger]
        mm2.is_table(f) && !mm0.is_table(f) implies mm0.pmm@.is_free(f) && mm2.tables()[f].level
        < 4 by {
        if mm1.is_table(f) {
        } else {
            assert(mm1.pmm@.is_free(f));
        }
    }
    assert forall|r: int, p: int, l: nat|
        walk::is_root(mm0.tables(), r) && 0 <= p < walk::page_limit() && 1 <= l <= 4
            && walk::table_at(mem0, r, p, l) is Some implies #[trigger] walk::table_at(
        mem2,
        r,
        p,
        l,
    ) == walk::table_at(mem0, r, p, l) by {
        assert(mm0.is_table(r));
        assert(walk::table_at(mem1, r, p, l) == walk::table_at(mem0, r, p, l));
    }
    assert forall|r: int, p: int, l: nat|
        walk::is_root(mm0.tables(), r) && 0 <= p < walk::page_limit() && 1 <= l <= 4
            && walk::table_at(mem0, r, p, l) is None && #[trigger] walk::table_at(
            mem2,
            r,
            p,
            l,
        ) is Some implies !mm0.tables().contains_key(walk::table_at(mem2, r, p, l)->0) by {
        assert(mm0.is_table(r));
        let c = walk::table_at(mem2, r, p, l)->0;
        if mm0.is_table(c) {
            assert(mm1.is_table(c));
            assert(walk::table_at(mem1, r, p, l) is None);
        }
    }
    assert forall|a: int, b: int, p: int|
        walk::is_root(mm0.tables(), a) && walk::is_root(mm0.tables(), b) && a != b && 0 <= p
            < walk::page_limit() && #[trigger] walk::shares(mem2, a, b, p) implies walk::shares(
        mem0,
        a,
        b,
        p,
    ) by {
        assert(mm0.is_table(a));
        assert(mm0.is_table(b));
        assert(walk::shares(mem1, a, b, p));
    }
}

/// Hanging a table in on the way from `root` to `page` concerns the roots that
/// share that way alone.
proof fn lemma_install_apart(
    mem0: Seq<PageTable>,
    mem1: Seq<PageTable>,
    tables: Map<int, TableRole>,
    root: int,
    page: int,
    level: nat,
    table: int,
    c: int,
)
    requires
        walk::tables_wf(mem0, tables),
        walk::is_root(tables, root),
        0 <= page < walk::page_limit(),
        2 <= level <= 4,
        walk::table_at(mem0, root, page, level) == Some(table),
        forall|r: int, p: int, l: nat|
            walk::is_root(tables, r) && 0 <= p < walk::page_limit() && 1 <= l <= 4
                ==> #[trigger] walk::table_at(mem1, r, p, l) == if l == level - 1 && walk::through(
                mem0,
                tables,
                r,
                p,
                table,
                walk::slot(page, level),
            ) {
                Some(c)
            } else {
                walk::table_at(mem0, r, p, l)
            },
    ensures
        apart_kept(mem0, mem1, tables, root, page),
{
    reveal(apart_kept);
    walk::lemma_walk(mem0, tables, root, page, level);
    assert forall|r: int, p: int, l: nat|
        walk::is_root(tables, r) && r != root && !walk::shares(mem0, root, r, page) && 0 <= p
            < walk::page_limit() && 1 <= l <= 4 implies #[trigger] walk::table_at(mem1, r, p, l)
        == walk::table_at(mem0, r, p, l) by {
        if walk::table_at(mem0, r, p, level) == Some(table) {
            walk::lemma_walk(mem0, tables, r, p, level);
            walk::lemma_same_prefix(mem0, r, p, page, level);
            if level < 4 {
                assert(walk::table_at(mem0, root, page, level) == walk::table_at(
                    mem0,
                    r,
                    page,
                    level,
                ));
                assert(walk::shares(mem0, root, r, page));
            }
        }
    }
}

/// The next table down from `table` through its entry `index`, which is created
/// in a free frame where the entry is empty. `table` is the table of level
/// `level` on the way from `root` to `page`.
fn get_or_create_table(
    frames: &mut [PageTable],
    mm: &mut MemoryManager,
    table: usize,
    index: usize,
    Ghost(root): Ghost<int>,
    Ghost(page): Ghost<int>,
    Ghost(level): Ghost<nat>,
) -> (r: Option<usize>)
    requires
        old(mm).wf(old(frames)@),
        walk::is_root(old(mm).tables(), root),
        0 <= page < walk::page_limit(),
        2 <= level <= 4,
        walk::table_at(old(frames)@, root, page, level) == Some(table as int),
        index == walk::slot(page, level),
    ensures
        final(mm).wf(final(frames)@),
        grown(*old(mm), old(frames)@, *final(mm), final(frames)@),
        walk::same_mappings(old(frames)@, final(frames)@, old(mm).tables()),
        apart_kept(old(frames)@, final(frames)@, old(mm).tables(), root, page),
        match r {
            Some(c) => {
                let below = (level - 1) as nat;
                let had = walk::table_at(old(frames)@, root, page, below) is Some;
                &&& walk::table_at(final(frames)@, root, page, below) == Some(c as int)
                &&& had ==> *final(mm) == *old(mm) && final(frames)@ == old(frames)@
                &&& final(mm).pmm@.free_count() == old(mm).pmm@.free_count() - if had {
                    0int
                } else {
                    1
                }
                &&& forall|q: int, l: nat|
                    0 <= q < walk::page_limit() && 1 <= l <= 4 ==> (#[trigger] walk::table_at(
                        final(frames)@,
                        root,
                        q,
                        l,
                    ) is Some <==> (walk::table_at(old(frames)@, root, q, l) is Some || (l == below
                        && walk::prefix(q, l) == walk::prefix(page, l))))
            },
            None => {
                &&& walk::table_at(old(frames)@, root, page, (level - 1) as nat) is None
                &&& old(mm).pmm@.free_count() == 0
                &&& *final(mm) == *old(mm)
                &&& final(frames)@ == old(frames)@
            },
        },
{
    let ghost mem0 = frames@;
    let ghost mm0 = *mm;
    let ghost below = (level - 1) as nat;
    proof {
        walk::lemma_walk(mem0, mm0.tables(), root, page, level);
        walk::lemma_walk(mem0, mm0.tables(), root, page, below);
        walk::lemma_slot(page, level);
        assert(mm0.is_table(table as int));
        assert forall|q: int|
            0 <= q < walk::page_limit() && walk::prefix(q, below) == walk::prefix(
                page,
                below,
            ) implies #[trigger] walk::table_at(mem0, root, q, below) == walk::table_at(
            mem0,
            root,
            page,
            below,
        ) by {
            walk::lemma_same_prefix(mem0, root, q, page, below);
        }
    }
    let entry = frames[table].entries[index];
    assert(entry == walk::word(mem0, table as int, index as int));
    assert(apart_kept(mem0, mem0, mm0.tables(), root, page)) by {
        reveal(apart_kept);
    }
    if entry.is_present() {
        let next: u64 = entry.phys_addr() / PAGE_SIZE;
        proof {
            lemma_grown_reflexive(mm0, mem0);
            assert(mm0.is_table(next as int));
        }
        return Some(next as usize);
    }
    let frame = match allocate_physical_page(&mut mm.pmm) {
        Some(f) => f,
        None => {
            proof {
                lemma_grown_reflexive(mm0, mem0);
            }
            return None;
        },
    };
    let c: usize = (frame.addr() / PAGE_SIZE) as usize;
    frames[c].zero();
    let ghost mem1 = frames@;
    let flags = PageTableFlags::present() | PageTableFlags::writable()
        | PageTableFlags::user_accessible();
    frames[table].entries[index].set(frame.addr(), flags);
    let ghost mem2 = frames@;
    proof {
        let role = TableRole {
            level: below,
            prefix: mm0.tables()[table as int].prefix * 512 + index,
        };
        assert(!mm0.is_table(c as int));
        assert(1u64 | 2 == 3 && 3u64 | 4 == 7 && 7u64 & 0x000F_FFFF_FFFF_F000 == 0 && 7u64 & 1 == 1)
            by (bit_vector);
        crate::vmm::lemma_entry_round_trip(frame.0, flags);
        assert(0u64 & 1 == 0) by (bit_vector);
        assert forall|i: int| 0 <= i < 512 implies !(#[trigger] walk::word(
            mem2,
            c as int,
            i,
        )).maps() by {
            assert(mem2[c as int] == mem1[c as int]);
            assert(mem1[c as int].entries@[i] == PageTableEntry(0));
        }
        assert forall|f: int, i: int|
            mm0.tables().contains_key(f) && 0 <= i < 512 && !(f == table && i
                == index) implies #[trigger] walk::word(mem2, f, i) == walk::word(mem0, f, i) by {
            assert(mm0.is_table(f));
        }
        walk::lemma_install(mem0, mem2, mm0.tables(), table as int, index as int, c as int);
        walk::lemma_install_grows(mem0, mem2, mm0.tables(), table as int, index as int, c as int);
        lemma_install_apart(mem0, mem2, mm0.tables(), root, page, level, table as int, c as int);
        mm.tables = Ghost(mm0.tables().insert(c as int, role));
        assert forall|f: int| #[trigger] mm.is_table(f) implies f < mm.pmm@.total()
            && mm.pmm@.used[f] by {
            if f != c {
                assert(mm0.is_table(f));
            }
        }
        assert forall|q: int, l: nat|
            0 <= q < walk::page_limit() && 1 <= l <= 4 implies (#[trigger] walk::table_at(
            mem2,
            root,
            q,
            l,
        ) is Some <==> (walk::table_at(mem0, root, q, l) is Some || (l == below && walk::prefix(
            q,
            l,
        ) == walk::prefix(page, l)))) by {
            walk::lemma_walk(mem0, mm0.tables(), root, q, level);
            walk::lemma_slot(q, level);
            if l == below && walk::prefix(q, l) == walk::prefix(page, l) {
                walk::lemma_same_prefix(mem0, root, q, page, level);
            }
        }
    }
    Some(c)
}

/// The indices of an address are the slots of its page.
pub proof fn lemma_indices(addr: u64)
    ensures
        0 <= walk::page_of(addr) < walk::page_limit(),
        (addr as int / 0x80_0000_0000) % 512 == walk::slot(walk::page_of(addr), 4),
        (addr as int / 0x4000_0000) % 512 == walk::slot(walk::page_of(addr), 3),
        (addr as int / 0x20_0000) % 512 == walk::slot(walk::page_of(addr), 2),
        (addr as int / 0x1000) % 512 == walk::slot(walk::page_of(addr), 1),
{
    let p: u64 = (addr % 0x1_0000_0000_0000) / 4096;
    assert(p == (addr % 0x1_0000_0000_0000) / 4096 ==> (addr / 0x80_0000_0000) % 512 == (p
        / 0x800_0000) % 512 && (addr / 0x4000_0000) % 512 == (p / 0x4_0000) % 512 && (addr
        / 0x20_0000) % 512 == (p / 512) % 512 && (addr / 0x1000) % 512 == p % 512) by (bit_vector);
}

/// What `entry` maps.
pub open spec fn if_maps(entry: PageTableEntry) -> Option<PageTableEntry> {
    if entry.maps() {
        Some(entry)
    } else {
        None
    }
}

/// Why a page cannot be mapped; none if it can.
pub open spec fn map_refusal(
    mem: Seq<PageTable>,
    free: nat,
    root: PhysPage,
    virt_addr: VirtAddr,
    phys_addr: PhysPage,
) -> Option<MapError> {
    let r = root.0 as int / 4096;
    let page = walk::page_of(virt_addr.0);
    if !crate::vmm::canonical(virt_addr.0) {
        Some(MapError::NonCanonicalAddress)
    } else if virt_addr.0 % 4096 != 0 {
        Some(MapError::UnalignedVirtualAddress)
    } else if phys_addr.0 % 4096 != 0 {
        Some(MapError::UnalignedPhysicalAddress)
    } else if walk::mapping(mem, r, page) is Some {
        Some(MapError::AlreadyMapped)
    } else if free < walk::missing(mem, r, page) {
        Some(MapError::FrameAllocationFailed)
    } else {
        None
    }
}

/// The roots that share no table with `root` on the way to `page` have the same
/// tables in both memories.
#[verifier::opaque]
pub open spec fn apart_kept(
    mem0: Seq<PageTable>,
    mem1: Seq<PageTable>,
    tables: Map<int, TableRole>,
    root: int,
    page: int,
) -> bool {
    forall|r: int, p: int, l: nat|
        walk::is_root(tables, r) && r != root && !walk::shares(mem0, root, r, page) && 0 <= p
            < walk::page_limit() && 1 <= l <= 4 ==> #[trigger] walk::table_at(mem1, r, p, l)
            == walk::table_at(mem0, r, p, l)
}

/// Tables that are kept twice are kept.
proof fn lemma_apart_kept_transitive(
    mm0: MemoryManager,
    mem0: Seq<PageTable>,
    mm1: MemoryManager,
    mem1: Seq<PageTable>,
    mem2: Seq<PageTable>,
    root: int,
    page: int,
)
    requires
        walk::is_root(mm0.tables(), root),
        0 <= page < walk::page_limit(),
        tables_added(mm0, mem0, mm1, mem1),
        apart_kept(mem0, mem1, mm0.tables(), root, page),
        apart_kept(mem1, mem2, mm1.tables(), root, page),
    ensures
        apart_kept(mem0, mem2, mm0.tables(), root, page),
{
    reveal(apart_kept);
    assert forall|r: int, p: int, l: nat|
        walk::is_root(mm0.tables(), r) && r != root && !walk::shares(mem0, root, r, page) && 0 <= p
            < walk::page_limit() && 1 <= l <= 4 implies #[trigger] walk::table_at(mem2, r, p, l)
        == walk::table_at(mem0, r, p, l) by {
        assert(mm0.is_table(r));
        assert(!walk::shares(mem1, root, r, page));
        assert(walk::table_at(mem1, r, p, l) == walk::table_at(mem0, r, p, l));
    }
}

/// From one state to another, `page` was mapped by `entry` under `root`, and
/// under the roots that share the table it is mapped in; the tables that were
/// missing were added, and no other page was mapped or unmapped. Roots that
/// share no table on the way keep the tables that they had.
pub open spec fn page_mapped(
    mm0: MemoryManager,
    mem0: Seq<PageTable>,
    mm1: MemoryManager,
    mem1: Seq<PageTable>,
    root: int,
    page: int,
    entry: PageTableEntry,
) -> bool {
    &&& grown(mm0, mem0, mm1, mem1)
    &&& apart_kept(mem0, mem1, mm0.tables(), root, page)
    &&& mm1.pmm@.free_count() == mm0.pmm@.free_count() - walk::missing(mem0, root, page)
    &&& walk::table_at(mem1, root, page, 1) is Some
    &&& forall|r: int, p: int|
        walk::is_root(mm0.tables(), r) && 0 <= p < walk::page_limit() ==> #[trigger] walk::mapping(
            mem1,
            r,
            p,
        ) == if p == page && walk::table_at(mem1, r, page, 1) == walk::table_at(
            mem1,
            root,
            page,
            1,
        ) {
            if_maps(entry)
        } else {
            walk::mapping(mem0, r, p)
        }
    &&& forall|r: int|
        walk::is_root(mm0.tables(), r) && #[trigger] walk::table_at(mem1, r, page, 1)
            == walk::table_at(mem1, root, page, 1) ==> walk::mapping(mem0, r, page) is None
    &&& forall|q: int, l: nat|
        0 <= q < walk::page_limit() && 1 <= l <= 4 ==> (#[trigger] walk::table_at(
            mem1,
            root,
            q,
            l,
        ) is Some <==> (walk::table_at(mem0, root, q, l) is Some || walk::prefix(q, l)
            == walk::prefix(page, l)))
}

/// From one state to another, tables were added until no frame was free, but none
/// of the lowest level under `root`; no page was mapped or unmapped.
pub open spec fn tables_ran_out(
    mm0: MemoryManager,
    mem0: Seq<PageTable>,
    mm1: MemoryManager,
    mem1: Seq<PageTable>,
    root: int,
) -> bool {
    &&& grown(mm0, mem0, mm1, mem1)
    &&& walk::same_mappings(mem0, mem1, mm0.tables())
    &&& mm1.pmm@.free_count() == 0
    &&& forall|q: int|
        0 <= q < walk::page_limit() ==> (#[trigger] walk::table_at(mem1, root, q, 1) is Some
            <==> walk::table_at(mem0, root, q, 1) is Some)
}

/// Maps the page at `virt_addr` to `phys_addr`, creating the tables that are
/// missing.
///
/// Where the free frames do not suffice for the tables, those that could be
/// created stay, empty.
///
/// Success owes the processor a flush of what it has cached for one page, that
/// of `virt_addr`, where the tables under this root are in use; a refusal owes
/// none. The flush is the caller's.
pub fn map_page(
    frames: &mut [PageTable],
    mm: &mut MemoryManager,
    root_pml4_phys: PhysPage,
    virt_addr: VirtAddr,
    phys_addr: PhysPage,
    flags: PageTableFlags,
) -> (r: Result<(), MapError>)
    requires
        old(mm).wf(old(frames)@),
        old(mm).has_root(root_pml4_phys),
    ensures
        final(mm).wf(final(frames)@),
        match map_refusal(
            old(frames)@,
            old(mm).pmm@.free_count(),
            root_pml4_phys,
            virt_addr,
            phys_addr,
        ) {
            None => {
                &&& r == Ok::<(), MapError>(())
                &&& page_mapped(
                    *old(mm),
                    old(frames)@,
                    *final(mm),
                    final(frames)@,
                    root_pml4_phys.0 as int / 4096,
                    walk::page_of(virt_addr.0),
                    crate::vmm::entry_for(phys_addr.0, flags),
                )
            },
            Some(MapError::FrameAllocationFailed) => {
                &&& r == Err::<(), MapError>(MapError::FrameAllocationFailed)
                &&& tables_ran_out(
                    *old(mm),
                    old(frames)@,
                    *final(mm),
                    final(frames)@,
                    root_pml4_phys.0 as int / 4096,
                )
            },
            Some(e) => {
                &&& r == Err::<(), MapError>(e)
                &&& *final(mm) == *old(mm)
                &&& final(frames)@ == old(frames)@
            },
        },
{
    if !is_canonical(virt_addr.as_u64()) {
        return Err(MapError::NonCanonicalAddress);
    }
    if !virt_addr.is_aligned() {
        return Err(MapError::UnalignedVirtualAddress);
    }
    if phys_addr.addr() % PAGE_SIZE != 0 {
        return Err(MapError::UnalignedPhysicalAddress);
    }
    let ghost mm0 = *mm;
    let ghost mem0 = frames@;
    let ghost root = root_pml4_phys.0 as int / 4096;
    let ghost page = walk::page_of(virt_addr.0);
    proof {
        lemma_indices(virt_addr.0);
        assert(mm0.is_table(root));
        walk::lemma_walk(mem0, mm0.tables(), root, page, 1);
    }
    let pml4: usize = (root_pml4_phys.addr() / PAGE_SIZE) as usize;

    let pdpt: usize = match get_or_create_table(
        frames,
        mm,
        pml4,
        virt_addr.pml4_index(),
        Ghost(root),
        Ghost(page),
        Ghost(4),
    ) {
        Some(t) => t,
        None => {
            proof {
                walk::lemma_missing_below(mem0, root, page, 3, 1);
            }
            return Err(MapError::FrameAllocationFailed);
        },
    };
    let ghost mm1 = *mm;
    let ghost mem1 = frames@;
    proof {
        assert(mm0.is_table(root));
    }

    let pd: usize = match get_or_create_table(
        frames,
        mm,
        pdpt,
        virt_addr.pdpt_index(),
        Ghost(root),
        Ghost(page),
        Ghost(3),
    ) {
        Some(t) => t,
        None => {
            proof {
                walk::lemma_missing_below(mem0, root, page, 2, 1);
            }
            return Err(MapError::FrameAllocationFailed);
        },
    };
    let ghost mm2 = *mm;
    let ghost mem2 = frames@;
    proof {
        assert(mm1.is_table(root));
        lemma_grown_transitive(mm0, mem0, mm1, mem1, mm2, mem2);
        lemma_apart_kept_transitive(mm0, mem0, mm1, mem1, mem2, root, page);
    }

    let pt: usize = match get_or_create_table(
        frames,
        mm,
        pd,
        virt_addr.pd_index(),
        Ghost(root),
        Ghost(page),
        Ghost(2),
    ) {
        Some(t) => t,
        None => {
            proof {
                assert forall|r: int, p: int|
                    walk::is_root(mm0.tables(), r) && 0 <= p
                        < walk::page_limit() implies #[trigger] walk::mapping(mem2, r, p)
                    == walk::mapping(mem0, r, p) by {
                    assert(mm0.is_table(r));
                    assert(walk::mapping(mem1, r, p) == walk::mapping(mem0, r, p));
                }
                assert forall|q: int| 0 <= q < walk::page_limit() implies (
                #[trigger] walk::table_at(mem2, root, q, 1) is Some <==> walk::table_at(
                    mem0,
                    root,
                    q,
                    1,
                ) is Some) by {
                    assert(walk::table_at(mem1, root, q, 1) is Some <==> walk::table_at(
                        mem0,
                        root,
                        q,
                        1,
                    ) is Some);
                }
            }
            return Err(MapError::FrameAllocationFailed);
        },
    };
    let ghost mm3 = *mm;
    let ghost mem3 = frames@;
    proof {
        assert(mm2.is_table(root));
        lemma_grown_transitive(mm0, mem0, mm2, mem2, mm3, mem3);
        lemma_apart_kept_transitive(mm0, mem0, mm2, mem2, mem3, root, page);
        walk::lemma_walk(mem3, mm3.tables(), root, page, 1);
        walk::lemma_slot(page, 1);
        assert(mm3.is_table(pt as int));
        assert forall|r: int, p: int|
            walk::is_root(mm0.tables(), r) && 0 <= p < walk::page_limit() implies #[trigger] walk::mapping(
            mem3,
            r,
            p,
        ) == walk::mapping(mem0, r, p) by {
            assert(mm0.is_table(r));
            assert(mm1.is_table(r));
            assert(mm2.is_table(r));
            assert(walk::mapping(mem1, r, p) == walk::mapping(mem0, r, p));
            assert(walk::mapping(mem2, r, p) == walk::mapping(mem1, r, p));
        }
        if walk::mapping(mem0, root, page) is Some {
            walk::lemma_all_present(mem0, root, page);
        }
    }

    let index: usize = virt_addr.pt_index();
    let leaf = frames[pt].entries[index];
    assert(leaf == walk::word(mem3, pt as int, index as int));
    assert(walk::mapping(mem3, root, page) == walk::mapping(mem0, root, page));
    if leaf.is_present() {
        return Err(MapError::AlreadyMapped);
    }
    frames[pt].entries[index].set(phys_addr.addr(), flags);
    proof {
        let mem4 = frames@;
        let entry = crate::vmm::entry_for(phys_addr.0, flags);
        walk::lemma_leaf_change(mem3, mem4, mm3.tables(), pt as int, index as int);
        lemma_same_tables_grown(mm3, mem3, mem4);
        lemma_grown_transitive(mm0, mem0, mm3, mem3, *mm, mem4);
        assert(apart_kept(mem3, mem4, mm3.tables(), root, page)) by {
            reveal(apart_kept);
        }
        lemma_apart_kept_transitive(mm0, mem0, mm3, mem3, mem4, root, page);
        assert forall|r: int, p: int|
            walk::is_root(mm0.tables(), r) && 0 <= p < walk::page_limit() implies #[trigger] walk::mapping(
            mem4,
            r,
            p,
        ) == if p == page && walk::table_at(mem4, r, page, 1) == walk::table_at(
            mem4,
            root,
            page,
            1,
        ) {
            if_maps(entry)
        } else {
            walk::mapping(mem0, r, p)
        } by {
            assert(mm0.is_table(r));
            assert(mm3.is_table(r));
            assert(walk::mapping(mem3, r, p) == walk::mapping(mem0, r, p));
            assert(walk::table_at(mem4, r, page, 1) == walk::table_at(mem3, r, page, 1));
            assert(walk::table_at(mem4, root, page, 1) == Some(pt as int));
        }
        assert forall|r: int|
            walk::is_root(mm0.tables(), r) && #[trigger] walk::table_at(mem4, r, page, 1)
                == walk::table_at(mem4, root, page, 1) implies walk::mapping(
            mem0,
            r,
            page,
        ) is None by {
            assert(mm0.is_table(r));
            assert(mm3.is_table(r));
            assert(walk::table_at(mem4, r, page, 1) == walk::table_at(mem3, r, page, 1));
            assert(walk::mapping(mem3, r, page) == walk::mapping(mem0, r, page));
        }
        assert forall|q: int, l: nat| 0 <= q < walk::page_limit() && 1 <= l <= 4 implies (
        #[trigger] walk::table_at(mem4, root, q, l) is Some <==> (walk::table_at(
            mem0,
            root,
            q,
            l,
        ) is Some || walk::prefix(q, l) == walk::prefix(page, l))) by {
            assert(walk::table_at(mem4, root, q, l) == walk::table_at(mem3, root, q, l));
            assert(walk::table_at(mem2, root, q, l) is Some || walk::table_at(mem2, root, q, l)
                is None);
            assert(walk::table_at(mem1, root, q, l) is Some || walk::table_at(mem1, root, q, l)
                is None);
        }
    }
    Ok(())
}

/// The ways to all pages are the same in two memories, and so is all that is
/// not a table.
pub open spec fn same_tables(
    mm: MemoryManager,
    mem0: Seq<PageTable>,
    mem1: Seq<PageTable>,
) -> bool {
    &&& mem1.len() == mem0.len()
    &&& forall|r: int, p: int, l: nat|
        walk::is_root(mm.tables(), r) && 0 <= p < walk::page_limit() && 1 <= l
            <= 4 ==> #[trigger] walk::table_at(mem1, r, p, l) == walk::table_at(mem0, r, p, l)
    &&& forall|f: int| 0 <= f < mem0.len() && !mm.is_table(f) ==> #[trigger] mem1[f] == mem0[f]
    &&& walk::links_made(mem0, mem1, mm.tables(), mm.tables())
}

/// Where the ways are the same, no table was added.
pub proof fn lemma_same_tables_grown(
    mm: MemoryManager,
    mem: Seq<PageTable>,
    mem2: Seq<PageTable>,
)
    requires
        same_tables(mm, mem, mem2),
    ensures
        grown(mm, mem, mm, mem2),
{
    assert forall|a: int, b: int, p: int|
        walk::is_root(mm.tables(), a) && walk::is_root(mm.tables(), b) && a != b && 0 <= p
            < walk::page_limit() && #[trigger] walk::shares(mem2, a, b, p) implies walk::shares(
        mem,
        a,
        b,
        p,
    ) by {
        let l = choose|l: nat|
            1 <= l <= 3 && #[trigger] walk::table_at(mem2, a, p, l) is Some && walk::table_at(
                mem2,
                a,
                p,
                l,
            ) == walk::table_at(mem2, b, p, l);
        assert(walk::table_at(mem, a, p, l) == walk::table_at(mem2, a, p, l));
        assert(walk::table_at(mem, b, p, l) == walk::table_at(mem2, b, p, l));
    }
}

/// Why a page cannot be unmapped; none if it can.
pub open spec fn unmap_refusal(
    mem: Seq<PageTable>,
    root: PhysPage,
    virt_addr: VirtAddr,
) -> Option<UnmapError> {
    let r = root.0 as int / 4096;
    let page = walk::page_of(virt_addr.0);
    if !crate::vmm::canonical(virt_addr.0) {
        Some(UnmapError::NonCanonicalAddress)
    } else if virt_addr.0 % 4096 != 0 {
        Some(UnmapError::UnalignedVirtualAddress)
    } else if walk::table_at(mem, r, page, 1) is None {
        Some(UnmapError::ParentTableMissing)
    } else if walk::mapping(mem, r, page) is None {
        Some(UnmapError::NotMapped)
    } else {
        None
    }
}

/// From one memory to another, the pages from `first` to below `end` were
/// unmapped under `root` and under the roots that share the tables they were
/// mapped in; nothing else changed.
pub open spec fn pages_unmapped(
    mm: MemoryManager,
    mem0: Seq<PageTable>,
    mem1: Seq<PageTable>,
    root: int,
    first: int,
    end: int,
) -> bool {
    &&& same_tables(mm, mem0, mem1)
    &&& forall|r: int, p: int|
        walk::is_root(mm.tables(), r) && 0 <= p < walk::page_limit() ==> #[trigger] walk::mapping(
            mem1,
            r,
            p,
        ) == if first <= p < end && walk::table_at(mem0, r, p, 1) == walk::table_at(
            mem0,
            root,
            p,
            1,
        ) {
            None
        } else {
            walk::mapping(mem0, r, p)
        }
}

/// The table of level 1 on the way from `root_pml4_phys` to `virt_addr`.
fn leaf_table(
    frames: &[PageTable],
    mm: &MemoryManager,
    root_pml4_phys: PhysPage,
    virt_addr: VirtAddr,
) -> (r: Option<usize>)
    requires
        mm.wf(frames@),
        mm.has_root(root_pml4_phys),
    ensures
        match r {
            Some(t) => {
                &&& walk::table_at(
                    frames@,
                    root_pml4_phys.0 as int / 4096,
                    walk::page_of(virt_addr.0),
                    1,
                ) == Some(t as int)
                &&& mm.is_table(t as int)
                &&& mm.tables()[t as int].level == 1
                &&& mm.tables()[t as int].prefix == walk::prefix(walk::page_of(virt_addr.0), 1)
                &&& t < frames@.len()
            },
            None => walk::table_at(
                frames@,
                root_pml4_phys.0 as int / 4096,
                walk::page_of(virt_addr.0),
                1,
            ) is None,
        },
{
    let ghost root = root_pml4_phys.0 as int / 4096;
    let ghost page = walk::page_of(virt_addr.0);
    proof {
        lemma_indices(virt_addr.0);
        assert(mm.is_table(root));
        walk::lemma_walk(frames@, mm.tables(), root, page, 3);
        walk::lemma_walk(frames@, mm.tables(), root, page, 2);
        walk::lemma_walk(frames@, mm.tables(), root, page, 1);
        walk::lemma_slot(page, 4);
        walk::lemma_slot(page, 3);
        walk::lemma_slot(page, 2);
        reveal_with_fuel(walk::table_at, 2);
    }
    let pml4: usize = (root_pml4_phys.addr() / PAGE_SIZE) as usize;
    let pml4_entry = frames[pml4].entries[virt_addr.pml4_index()];
    assert(pml4_entry == walk::word(frames@, pml4 as int, walk::slot(page, 4)));
    if !pml4_entry.is_present() {
        proof {
            walk::lemma_missing_below(frames@, root, page, 3, 1);
        }
        return None;
    }
    assert(mm.is_table(pml4_entry.target() as int / 4096));
    let pdpt: usize = (pml4_entry.phys_addr() / PAGE_SIZE) as usize;
    let pdpt_entry = frames[pdpt].entries[virt_addr.pdpt_index()];
    assert(pdpt_entry == walk::word(frames@, pdpt as int, walk::slot(page, 3)));
    if !pdpt_entry.is_present() {
        proof {
            walk::lemma_missing_below(frames@, root, page, 2, 1);
        }
        return None;
    }
    assert(mm.is_table(pdpt_entry.target() as int / 4096));
    let pd: usize = (pdpt_entry.phys_addr() / PAGE_SIZE) as usize;
    let pd_entry = frames[pd].entries[virt_addr.pd_index()];
    assert(pd_entry == walk::word(frames@, pd as int, walk::slot(page, 2)));
    if !pd_entry.is_present() {
        return None;
    }
    assert(mm.is_table(pd_entry.target() as int / 4096));
    Some((pd_entry.phys_addr() / PAGE_SIZE) as usize)
}

/// Unmaps the page at `virt_addr` and says what it was mapped to.
///
/// Success owes the processor a flush of what it has cached for one page, that
/// of `virt_addr`, where the tables under this root are in use: until then it
/// may still go to the frame. A refusal owes none. The flush is the caller's.
pub fn unmap_page(
    frames: &mut [PageTable],
    mm: &MemoryManager,
    root_pml4_phys: PhysPage,
    virt_addr: VirtAddr,
) -> (r: Result<PhysPage, UnmapError>)
    requires
        mm.wf(old(frames)@),
        mm.has_root(root_pml4_phys),
    ensures
        mm.wf(final(frames)@),
        match unmap_refusal(old(frames)@, root_pml4_phys, virt_addr) {
            Some(e) => r == Err::<PhysPage, UnmapError>(e) && final(frames)@ == old(frames)@,
            None => {
                let root = root_pml4_phys.0 as int / 4096;
                let page = walk::page_of(virt_addr.0);
                &&& r == Ok::<PhysPage, UnmapError>(
                    PhysPage((walk::mapping(old(frames)@, root, page)->0).target()),
                )
                &&& pages_unmapped(*mm, old(frames)@, final(frames)@, root, page, page + 1)
            },
        },
{
    if !is_canonical(virt_addr.as_u64()) {
        return Err(UnmapError::NonCanonicalAddress);
    }
    if !virt_addr.is_aligned() {
        return Err(UnmapError::UnalignedVirtualAddress);
    }
    let ghost mem0 = frames@;
    let ghost page = walk::page_of(virt_addr.0);
    let pt: usize = match leaf_table(frames, mm, root_pml4_phys, virt_addr) {
        Some(t) => t,
        None => return Err(UnmapError::ParentTableMissing),
    };
    proof {
        lemma_indices(virt_addr.0);
        walk::lemma_slot(page, 1);
    }
    let index: usize = virt_addr.pt_index();
    let entry = frames[pt].entries[index];
    assert(entry == walk::word(mem0, pt as int, index as int));
    if !entry.is_present() {
        return Err(UnmapError::NotMapped);
    }
    let unmapped_phys = PhysPage(entry.phys_addr());
    frames[pt].entries[index].clear();
    proof {
        walk::lemma_leaf_change(mem0, frames@, mm.tables(), pt as int, index as int);
    }
    Ok(unmapped_phys)
}

/// What `virt_addr` translates to under `root`.
pub open spec fn translation(mem: Seq<PageTable>, root: PhysPage, virt_addr: VirtAddr) -> Option<
    (PhysPage, PageTableFlags),
> {
    if !crate::vmm::canonical(virt_addr.0) {
        None
    } else {
        match walk::mapping(mem, root.0 as int / 4096, walk::page_of(virt_addr.0)) {
            Some(e) => Some((PhysPage((e.target() + virt_addr.0 % 4096) as u64), e.mode())),
            None => None,
        }
    }
}

/// The physical address and the flags that `virt_addr` translates to.
pub fn translate(
    frames: &[PageTable],
    mm: &MemoryManager,
    root_pml4_phys: PhysPage,
    virt_addr: VirtAddr,
) -> (r: Option<(PhysPage, PageTableFlags)>)
    requires
        mm.wf(frames@),
        mm.has_root(root_pml4_phys),
    ensures
        r == translation(frames@, root_pml4_phys, virt_addr),
{
    if !is_canonical(virt_addr.as_u64()) {
        return None;
    }
    let pt: usize = match leaf_table(frames, mm, root_pml4_phys, virt_addr) {
        Some(t) => t,
        None => return None,
    };
    proof {
        lemma_indices(virt_addr.0);
    }
    let entry = frames[pt].entries[virt_addr.pt_index()];
    assert(entry == walk::word(frames@, pt as int, walk::slot(walk::page_of(virt_addr.0), 1)));
    if !entry.is_present() {
        return None;
    }
    Some((PhysPage(entry.phys_addr() + virt_addr.page_offset()), entry.flags()))
}

/// The kernel's root table.
pub fn root_pml4_page(mm: &MemoryManager) -> (r: PhysPage)
    ensures
        r == mm.root,
{
    mm.root
}

/// The frame that `page` is mapped to under `root`.
pub open spec fn frame_of(mem: Seq<PageTable>, root: int, page: int) -> int {
    (walk::mapping(mem, root, page)->0).target() as int / 4096
}

/// `page` is mapped to a frame of memory that is not a table.
pub open spec fn is_data(mm: MemoryManager, mem: Seq<PageTable>, root: int, page: int) -> bool {
    &&& walk::mapping(mem, root, page) is Some
    &&& frame_of(mem, root, page) < mem.len()
    &&& !mm.is_table(frame_of(mem, root, page))
}

/// The word at virtual address `addr`, where its page is mapped to memory.
pub open spec fn word_at(mem: Seq<PageTable>, root: int, addr: int) -> u64 {
    walk::word(
        mem,
        frame_of(mem, root, walk::page_of(addr as u64)),
        (addr % 4096) / 8,
    ).0
}

/// Reads the word at an address that is mapped to memory.
pub fn read_word(
    frames: &[PageTable],
    mm: &MemoryManager,
    root_pml4_phys: PhysPage,
    virt_addr: VirtAddr,
) -> (r: u64)
    requires
        mm.wf(frames@),
        mm.has_root(root_pml4_phys),
        crate::vmm::canonical(virt_addr.0),
        virt_addr.0 % 8 == 0,
        is_data(
            *mm,
            frames@,
            root_pml4_phys.0 as int / 4096,
            walk::page_of(virt_addr.0),
        ),
    ensures
        r == word_at(frames@, root_pml4_phys.0 as int / 4096, virt_addr.0 as int),
{
    let ghost e = walk::mapping(
        frames@,
        root_pml4_phys.0 as int / 4096,
        walk::page_of(virt_addr.0),
    )->0;
    proof {
        crate::vmm::lemma_entry_target(e);
    }
    match translate(frames, mm, root_pml4_phys, virt_addr) {
        Some((phys, _)) => {
            let addr: u64 = phys.addr();
            frames[(addr / PAGE_SIZE) as usize].entries[((addr % PAGE_SIZE) / 8) as usize].0
        },
        None => 0,
    }
}

/// Writes the word at an address that is mapped to memory.
pub fn write_word(
    frames: &mut [PageTable],
    mm: &MemoryManager,
    root_pml4_phys: PhysPage,
    virt_addr: VirtAddr,
    value: u64,
)
    requires
        mm.wf(old(frames)@),
        mm.has_root(root_pml4_phys),
        crate::vmm::canonical(virt_addr.0),
        virt_addr.0 % 8 == 0,
        is_data(
            *mm,
            old(frames)@,
            root_pml4_phys.0 as int / 4096,
            walk::page_of(virt_addr.0),
        ),
    ensures
        mm.wf(final(frames)@),
        final(frames)@.len() == old(frames)@.len(),
        walk::same_mappings(old(frames)@, final(frames)@, mm.tables()),
        word_at(
            final(frames)@,
            root_pml4_phys.0 as int / 4096,
            virt_addr.0 as int,
        ) == value,
        forall|f: int| mm.is_table(f) ==> #[trigger] final(frames)@[f] == old(frames)@[f],
        forall|f: int, i: int|
            0 <= f < old(frames)@.len() && 0 <= i < 512 ==> #[trigger] walk::word(
                final(frames)@,
                f,
                i,
            ) == if f == frame_of(
                old(frames)@,
                root_pml4_phys.0 as int / 4096,
                walk::page_of(virt_addr.0),
            ) && i == (virt_addr.0 as int % 4096) / 8 {
                PageTableEntry(value)
            } else {
                walk::word(old(frames)@, f, i)
            },
{
    let ghost mem0 = frames@;
    let ghost e = walk::mapping(
        frames@,
        root_pml4_phys.0 as int / 4096,
        walk::page_of(virt_addr.0),
    )->0;
    proof {
        crate::vmm::lemma_entry_target(e);
    }
    match translate(frames, mm, root_pml4_phys, virt_addr) {
        Some((phys, _)) => {
            let addr: u64 = phys.addr();
            frames[(addr / PAGE_SIZE) as usize].entries[((addr % PAGE_SIZE) / 8) as usize] =
                PageTableEntry(value);
        },
        None => {},
    }
    proof {
        assert forall|f: int, i: int|
            mm.tables().contains_key(f) && 0 <= i < 512 implies #[trigger] walk::word(frames@, f, i)
            == walk::word(mem0, f, i) by {
            assert(mm.is_table(f));
        }
        walk::lemma_data_change(mem0, frames@, mm.tables());
    }
}

} // verus!
