//! The kernel's own address space: memory and devices mapped at their physical
//! addresses.

use vstd::prelude::*;
use crate::memory::{MemoryRegion, MemoryType, PhysicalMemoryMap, PAGE_SIZE};
use crate::paging;
use crate::paging::{map_page, MemoryManager};
use crate::pmm::{allocate_physical_page, PhysPage};
use crate::vmm::{register_region, MapError, PageTable, PageTableEntry, PageTableFlags, RegionPurpose, VirtAddr, VirtPermissions, VirtRegion};
use crate::walk;
use crate::walk::TableRole;

verus! {

/// Pages are mapped under `root` as `want` says of their addresses, as far as
/// there are tables for them; tables are missing only where the frames ran out.
pub open spec fn mapped_as(
    mm: MemoryManager,
    mem: Seq<PageTable>,
    root: int,
    want: spec_fn(u64) -> Option<PageTableEntry>,
) -> bool {
    &&& forall|a: u64|
        a % 4096 == 0 && crate::vmm::canonical(a) ==> walk::mapping(
            mem,
            root,
            #[trigger] walk::page_of(a),
        ) == if walk::table_at(mem, root, walk::page_of(a), 1) is Some {
            want(a)
        } else {
            None
        }
    &&& forall|a: u64|
        a % 4096 == 0 && crate::vmm::canonical(a) && want(a) is Some && walk::table_at(
            mem,
            root,
            #[trigger] walk::page_of(a),
            1,
        ) is None ==> mm.pmm@.free_count() == 0
}

/// `want`, and where it wants nothing, the addresses from `lo` to below `hi`
/// mapped to themselves with `flags`.
pub open spec fn with_range(
    want: spec_fn(u64) -> Option<PageTableEntry>,
    lo: int,
    hi: int,
    flags: PageTableFlags,
) -> spec_fn(u64) -> Option<PageTableEntry> {
    |a: u64|
        if want(a) is Some {
            want(a)
        } else if lo % 4096 == 0 && lo <= a < hi {
            Some(crate::vmm::entry_for(a, flags))
        } else {
            None
        }
}

/// No other root reaches a table that `root` reaches.
pub open spec fn alone(mm: MemoryManager, mem: Seq<PageTable>, root: int) -> bool {
    forall|b: int, p: int|
        walk::is_root(mm.tables(), b) && b != root && 0 <= p < walk::page_limit()
            ==> !#[trigger] walk::shares(mem, root, b, p)
}

/// The mappings under every root but `root` are the same in two memories.
pub open spec fn others_same(
    mm: MemoryManager,
    mem0: Seq<PageTable>,
    mem1: Seq<PageTable>,
    root: int,
) -> bool {
    forall|b: int, p: int|
        walk::is_root(mm.tables(), b) && b != root && 0 <= p < walk::page_limit()
            ==> #[trigger] walk::mapping(mem1, b, p) == walk::mapping(mem0, b, p)
}

/// Canonical addresses of pages have page numbers of their own.
proof fn lemma_page_of_injective(a: u64, b: u64)
    requires
        a % 4096 == 0,
        b % 4096 == 0,
        crate::vmm::canonical(a),
        crate::vmm::canonical(b),
        walk::page_of(a) == walk::page_of(b),
    ensures
        a == b,
{
    let pa: u64 = (a % 0x1_0000_0000_0000) / 4096;
    let pb: u64 = (b % 0x1_0000_0000_0000) / 4096;
    assert(pa == pb);
    assert(a == b) by (bit_vector)
        requires
            a % 4096 == 0,
            b % 4096 == 0,
            a < 0x0000_8000_0000_0000 || a >= 0xFFFF_8000_0000_0000,
            b < 0x0000_8000_0000_0000 || b >= 0xFFFF_8000_0000_0000,
            (a % 0x1_0000_0000_0000) / 4096 == (b % 0x1_0000_0000_0000) / 4096,
    ;
}

/// A page with a table has one before its neighbour gets one only by a free
/// frame.
proof fn lemma_wanted_beside(
    mm0: MemoryManager,
    mem0: Seq<PageTable>,
    mem1: Seq<PageTable>,
    r: int,
    addr: u64,
    a: u64,
    want: spec_fn(u64) -> Option<PageTableEntry>,
)
    requires
        mapped_as(mm0, mem0, r, want),
        mm0.pmm@.free_count() >= walk::missing(mem0, r, walk::page_of(addr)),
        a % 4096 == 0,
        crate::vmm::canonical(a),
        walk::table_at(mem1, r, walk::page_of(a), 1) is Some <==> (walk::table_at(
            mem0,
            r,
            walk::page_of(a),
            1,
        ) is Some || walk::prefix(walk::page_of(a), 1) == walk::prefix(walk::page_of(addr), 1)),
        walk::mapping(mem1, r, walk::page_of(a)) == walk::mapping(mem0, r, walk::page_of(a)),
    ensures
        walk::mapping(mem1, r, walk::page_of(a)) == if walk::table_at(
            mem1,
            r,
            walk::page_of(a),
            1,
        ) is Some {
            want(a)
        } else {
            None
        },
{
    let p = walk::page_of(a);
    let page = walk::page_of(addr);
    if walk::table_at(mem0, r, p, 1) is None && want(a) is Some {
        assert(mm0.pmm@.free_count() == 0);
        assert(walk::table_at(mem0, r, page, 1) is Some);
        if walk::prefix(p, 1) == walk::prefix(page, 1) {
            assert(0 <= p < walk::page_limit());
            assert(0 <= page < walk::page_limit());
            walk::lemma_same_prefix(mem0, r, p, page, 1);
        }
    }
}

/// Maps the page at `addr` to itself; a failure is passed over.
fn identity_map_page(
    frames: &mut [PageTable],
    mm: &mut MemoryManager,
    root: PhysPage,
    addr: u64,
    flags: PageTableFlags,
    Ghost(want): Ghost<spec_fn(u64) -> Option<PageTableEntry>>,
)
    requires
        old(mm).wf(old(frames)@),
        old(mm).has_root(root),
        flags.0 & 1 != 0,
        mapped_as(*old(mm), old(frames)@, root.0 as int / 4096, want),
        alone(*old(mm), old(frames)@, root.0 as int / 4096),
    ensures
        final(mm).wf(final(frames)@),
        paging::grown(*old(mm), old(frames)@, *final(mm), final(frames)@),
        mapped_as(
            *final(mm),
            final(frames)@,
            root.0 as int / 4096,
            with_range(want, addr as int, addr + 4096, flags),
        ),
        alone(*final(mm), final(frames)@, root.0 as int / 4096),
        others_same(*old(mm), old(frames)@, final(frames)@, root.0 as int / 4096),
{
    let ghost mm0 = *mm;
    let ghost mem0 = frames@;
    let ghost r = root.0 as int / 4096;
    let _ = map_page(frames, mm, root, VirtAddr::new(addr), PhysPage(addr), flags);
    proof {
        assert(mm0.is_table(r));
        if *mm == mm0 && frames@ == mem0 {
            paging::lemma_grown_reflexive(mm0, mem0);
        }
        crate::vmm::lemma_entry_maps(addr, flags);
        let refusal = paging::map_refusal(
            mem0,
            mm0.pmm@.free_count(),
            root,
            VirtAddr(addr),
            PhysPage(addr),
        );
        if refusal is None {
            lemma_wanted_mapped(mm0, mem0, *mm, frames@, r, addr, flags, want);
        } else {
            lemma_wanted_refused(mm0, mem0, *mm, frames@, root, addr, flags, want);
        }
        lemma_stays_alone(mm0, mem0, *mm, frames@, r);
        assert forall|b: int, p: int|
            walk::is_root(mm0.tables(), b) && b != r && 0 <= p
                < walk::page_limit() implies #[trigger] walk::mapping(frames@, b, p)
            == walk::mapping(mem0, b, p) by {
            assert(mm0.is_table(b));
            assert(mm.is_table(b));
            assert(!walk::shares(frames@, r, b, p));
            if refusal is None && p == walk::page_of(addr) {
                assert(walk::table_at(frames@, r, p, 1) is Some);
                assert(walk::table_at(frames@, r, p, 1) != walk::table_at(frames@, b, p, 1));
            }
        }
    }
}

/// A page is a range of its own.
proof fn lemma_one_page(
    want: spec_fn(u64) -> Option<PageTableEntry>,
    addr: u64,
    a: u64,
    flags: PageTableFlags,
)
    requires
        a % 4096 == 0,
    ensures
        with_range(want, addr as int, addr + 4096, flags)(a) == if want(a) is Some {
            want(a)
        } else if a == addr {
            Some(crate::vmm::entry_for(a, flags))
        } else {
            None
        },
{
}

/// A page that can be mapped was not wanted before.
proof fn lemma_not_wanted(
    mm0: MemoryManager,
    mem0: Seq<PageTable>,
    r: int,
    addr: u64,
    want: spec_fn(u64) -> Option<PageTableEntry>,
)
    requires
        addr % 4096 == 0,
        crate::vmm::canonical(addr),
        walk::mapping(mem0, r, walk::page_of(addr)) is None,
        mm0.pmm@.free_count() >= walk::missing(mem0, r, walk::page_of(addr)),
        mapped_as(mm0, mem0, r, want),
    ensures
        want(addr) is None,
{
    if walk::table_at(mem0, r, walk::page_of(addr), 1) is None && want(addr) is Some {
        assert(mm0.pmm@.free_count() == 0);
    }
}

/// A mapped page is mapped as wanted.
proof fn lemma_wanted_mapped(
    mm0: MemoryManager,
    mem0: Seq<PageTable>,
    mm1: MemoryManager,
    mem1: Seq<PageTable>,
    r: int,
    addr: u64,
    flags: PageTableFlags,
    want: spec_fn(u64) -> Option<PageTableEntry>,
)
    requires
        walk::is_root(mm0.tables(), r),
        addr % 4096 == 0,
        crate::vmm::canonical(addr),
        walk::mapping(mem0, r, walk::page_of(addr)) is None,
        mm0.pmm@.free_count() >= walk::missing(mem0, r, walk::page_of(addr)),
        paging::page_mapped(
            mm0,
            mem0,
            mm1,
            mem1,
            r,
            walk::page_of(addr),
            crate::vmm::entry_for(addr, flags),
        ),
        crate::vmm::entry_for(addr, flags).maps(),
        mapped_as(mm0, mem0, r, want),
    ensures
        mapped_as(mm1, mem1, r, with_range(want, addr as int, addr + 4096, flags)),
{
    let page = walk::page_of(addr);
    let want1 = with_range(want, addr as int, addr + 4096, flags);
    assert(0 <= page < walk::page_limit());
    lemma_not_wanted(mm0, mem0, r, addr, want);
    assert forall|a: u64| a % 4096 == 0 && crate::vmm::canonical(a) implies walk::mapping(
        mem1,
        r,
        #[trigger] walk::page_of(a),
    ) == if walk::table_at(mem1, r, walk::page_of(a), 1) is Some {
        want1(a)
    } else {
        None
    } by {
        let p = walk::page_of(a);
        assert(0 <= p < walk::page_limit());
        lemma_one_page(want, addr, a, flags);
        if p == page {
            lemma_page_of_injective(a, addr);
        } else {
            assert(walk::mapping(mem1, r, p) == walk::mapping(mem0, r, p));
            lemma_wanted_beside(mm0, mem0, mem1, r, addr, a, want);
        }
    }
    assert forall|a: u64|
        a % 4096 == 0 && crate::vmm::canonical(a) && want1(a) is Some && walk::table_at(
            mem1,
            r,
            #[trigger] walk::page_of(a),
            1,
        ) is None implies mm1.pmm@.free_count() == 0 by {
        let p = walk::page_of(a);
        assert(0 <= p < walk::page_limit());
        assert(walk::table_at(mem0, r, p, 1) is None);
        lemma_one_page(want, addr, a, flags);
    }
}

/// A page that was refused had been wanted, or lacks its table and the frames
/// for it.
proof fn lemma_refused_here(
    mm0: MemoryManager,
    mem0: Seq<PageTable>,
    root: PhysPage,
    addr: u64,
    want: spec_fn(u64) -> Option<PageTableEntry>,
)
    requires
        addr % 4096 == 0,
        crate::vmm::canonical(addr),
        paging::map_refusal(
            mem0,
            mm0.pmm@.free_count(),
            root,
            VirtAddr(addr),
            PhysPage(addr),
        ) is Some,
        mapped_as(mm0, mem0, root.0 as int / 4096, want),
    ensures
        walk::table_at(mem0, root.0 as int / 4096, walk::page_of(addr), 1) is Some ==> want(
            addr,
        ) is Some,
        walk::table_at(mem0, root.0 as int / 4096, walk::page_of(addr), 1) is None
            ==> paging::map_refusal(
            mem0,
            mm0.pmm@.free_count(),
            root,
            VirtAddr(addr),
            PhysPage(addr),
        ) == Some(MapError::FrameAllocationFailed),
{
    let r = root.0 as int / 4096;
    if walk::table_at(mem0, r, walk::page_of(addr), 1) is Some {
        walk::lemma_all_present(mem0, r, walk::page_of(addr));
    }
}

/// A page that was refused is mapped already, cannot be mapped at all, or lacks
/// frames for its tables.
proof fn lemma_wanted_refused(
    mm0: MemoryManager,
    mem0: Seq<PageTable>,
    mm1: MemoryManager,
    mem1: Seq<PageTable>,
    root: PhysPage,
    addr: u64,
    flags: PageTableFlags,
    want: spec_fn(u64) -> Option<PageTableEntry>,
)
    requires
        walk::is_root(mm0.tables(), root.0 as int / 4096),
        ({
            let refusal = paging::map_refusal(
                mem0,
                mm0.pmm@.free_count(),
                root,
                VirtAddr(addr),
                PhysPage(addr),
            );
            &&& refusal is Some
            &&& refusal == Some(MapError::FrameAllocationFailed) || mm1.pmm@.free_count()
                == mm0.pmm@.free_count()
            &&& refusal == Some(MapError::FrameAllocationFailed) ==> mm1.pmm@.free_count() == 0
        }),
        forall|p: int|
            0 <= p < walk::page_limit() ==> #[trigger] walk::mapping(
                mem1,
                root.0 as int / 4096,
                p,
            ) == walk::mapping(mem0, root.0 as int / 4096, p),
        forall|p: int|
            0 <= p < walk::page_limit() ==> (#[trigger] walk::table_at(
                mem1,
                root.0 as int / 4096,
                p,
                1,
            ) is Some <==> walk::table_at(mem0, root.0 as int / 4096, p, 1) is Some),
        mapped_as(mm0, mem0, root.0 as int / 4096, want),
    ensures
        mapped_as(
            mm1,
            mem1,
            root.0 as int / 4096,
            with_range(want, addr as int, addr + 4096, flags),
        ),
{
    let r = root.0 as int / 4096;
    let want1 = with_range(want, addr as int, addr + 4096, flags);
    assert forall|a: u64| a % 4096 == 0 && crate::vmm::canonical(a) implies walk::mapping(
        mem1,
        r,
        #[trigger] walk::page_of(a),
    ) == if walk::table_at(mem1, r, walk::page_of(a), 1) is Some {
        want1(a)
    } else {
        None
    } by {
        let p = walk::page_of(a);
        assert(0 <= p < walk::page_limit());
        assert(walk::mapping(mem1, r, p) == walk::mapping(mem0, r, p));
        lemma_one_page(want, addr, a, flags);
        if a == addr {
            lemma_refused_here(mm0, mem0, root, addr, want);
        }
    }
    assert forall|a: u64|
        a % 4096 == 0 && crate::vmm::canonical(a) && want1(a) is Some && walk::table_at(
            mem1,
            r,
            #[trigger] walk::page_of(a),
            1,
        ) is None implies mm1.pmm@.free_count() == 0 by {
        let p = walk::page_of(a);
        assert(0 <= p < walk::page_limit());
        assert(walk::table_at(mem0, r, p, 1) is None);
        lemma_one_page(want, addr, a, flags);
        if a == addr {
            lemma_refused_here(mm0, mem0, root, addr, want);
        }
    }
}

/// A root that shared no table shares none after growing.
proof fn lemma_stays_alone(
    mm0: MemoryManager,
    mem0: Seq<PageTable>,
    mm1: MemoryManager,
    mem1: Seq<PageTable>,
    r: int,
)
    requires
        walk::is_root(mm0.tables(), r),
        paging::grown(mm0, mem0, mm1, mem1),
        alone(mm0, mem0, r),
    ensures
        alone(mm1, mem1, r),
{
    assert forall|b: int, p: int|
        walk::is_root(mm1.tables(), b) && b != r && 0 <= p
            < walk::page_limit() implies !#[trigger] walk::shares(mem1, r, b, p) by {
        assert(mm1.is_table(b));
        assert(mm0.is_table(b));
        assert(!walk::shares(mem0, r, b, p));
    }
}

/// What is wanted counts at the addresses of pages only.
proof fn lemma_wanted_alike(
    mm: MemoryManager,
    mem: Seq<PageTable>,
    root: int,
    want: spec_fn(u64) -> Option<PageTableEntry>,
    want2: spec_fn(u64) -> Option<PageTableEntry>,
)
    requires
        mapped_as(mm, mem, root, want),
        forall|a: u64|
            a % 4096 == 0 && crate::vmm::canonical(a) ==> #[trigger] want2(a) == want(a),
    ensures
        mapped_as(mm, mem, root, want2),
{
    assert forall|a: u64| a % 4096 == 0 && crate::vmm::canonical(a) implies walk::mapping(
        mem,
        root,
        #[trigger] walk::page_of(a),
    ) == if walk::table_at(mem, root, walk::page_of(a), 1) is Some {
        want2(a)
    } else {
        None
    } by {
        assert(want2(a) == want(a));
    }
    assert forall|a: u64|
        a % 4096 == 0 && crate::vmm::canonical(a) && want2(a) is Some && walk::table_at(
            mem,
            root,
            #[trigger] walk::page_of(a),
            1,
        ) is None implies mm.pmm@.free_count() == 0 by {
        assert(want2(a) == want(a));
    }
}

/// Maps the pages from `start` to below `end` to themselves; failures are passed
/// over.
fn identity_map_range(
    frames: &mut [PageTable],
    mm: &mut MemoryManager,
    root: PhysPage,
    start: u64,
    end: u64,
    flags: PageTableFlags,
    Ghost(want): Ghost<spec_fn(u64) -> Option<PageTableEntry>>,
)
    requires
        old(mm).wf(old(frames)@),
        old(mm).has_root(root),
        start <= end,
        (end - start) % 4096 == 0,
        flags.0 & 1 != 0,
        mapped_as(*old(mm), old(frames)@, root.0 as int / 4096, want),
        alone(*old(mm), old(frames)@, root.0 as int / 4096),
    ensures
        final(mm).wf(final(frames)@),
        paging::grown(*old(mm), old(frames)@, *final(mm), final(frames)@),
        mapped_as(
            *final(mm),
            final(frames)@,
            root.0 as int / 4096,
            with_range(want, start as int, end as int, flags),
        ),
        alone(*final(mm), final(frames)@, root.0 as int / 4096),
        others_same(*old(mm), old(frames)@, final(frames)@, root.0 as int / 4096),
{
    let ghost mm0 = *mm;
    let ghost mem0 = frames@;
    let ghost r = root.0 as int / 4096;
    let mut curr: u64 = start;
    proof {
        paging::lemma_grown_reflexive(mm0, mem0);
        lemma_wanted_alike(
            mm0,
            mem0,
            r,
            want,
            with_range(want, start as int, curr as int, flags),
        );
    }
    while curr < end
        invariant
            mm0 == *old(mm),
            mem0 == old(frames)@,
            mm0.wf(mem0),
            mm0.has_root(root),
            r == root.0 as int / 4096,
            start <= curr <= end,
            (end - curr) % 4096 == 0,
            (curr - start) % 4096 == 0,
            flags.0 & 1 != 0,
            mm.wf(frames@),
            paging::grown(mm0, mem0, *mm, frames@),
            mapped_as(
                *mm,
                frames@,
                r,
                with_range(want, start as int, curr as int, flags),
            ),
            alone(*mm, frames@, r),
            others_same(mm0, mem0, frames@, r),
        decreases end - curr,
    {
        let ghost mm1 = *mm;
        let ghost mem1 = frames@;
        let ghost want1 = with_range(want, start as int, curr as int, flags);
        proof {
            assert(mm0.is_table(r));
        }
        identity_map_page(frames, mm, root, curr, flags, Ghost(want1));
        proof {
            let want2 = with_range(want, start as int, curr + 4096, flags);
            paging::lemma_grown_transitive(mm0, mem0, mm1, mem1, *mm, frames@);
            lemma_wanted_alike(
                *mm,
                frames@,
                r,
                with_range(want1, curr as int, curr + 4096, flags),
                want2,
            );
            assert forall|b: int, p: int|
                walk::is_root(mm0.tables(), b) && b != r && 0 <= p
                    < walk::page_limit() implies #[trigger] walk::mapping(frames@, b, p)
                == walk::mapping(mem0, b, p) by {
                assert(mm0.is_table(b));
                assert(mm1.is_table(b));
                assert(walk::mapping(mem1, b, p) == walk::mapping(mem0, b, p));
            }
        }
        curr = curr + PAGE_SIZE;
    }
}

/// The permissions of memory of type `t`.
pub open spec fn ram_permissions(t: MemoryType) -> VirtPermissions {
    VirtPermissions {
        readable: true,
        writable: t != MemoryType::LoaderCode,
        executable: t == MemoryType::LoaderCode,
        user: false,
    }
}

/// The entry that the regions of `s` want for the page at `addr`: the first
/// region that holds it decides.
pub open spec fn ram_entry(s: Seq<MemoryRegion>, addr: u64) -> Option<PageTableEntry>
    decreases s.len(),
{
    if s.len() == 0 {
        None
    } else {
        with_range(
            |a: u64| ram_entry(s.drop_last(), a),
            s.last().physical_start as int,
            s.last().physical_end as int,
            ram_permissions(s.last().region_type).page_flags(),
        )(addr)
    }
}

/// `addr` is a page of the interrupt controllers or of the screen.
pub open spec fn device_page(addr: u64) -> bool {
    addr == LAPIC_PAGE || addr == IOAPIC_PAGE || VGA_START <= addr < VGA_END
}

/// The entry that the kernel wants for the page at `addr`: memory comes first,
/// devices second, each at its own address.
pub open spec fn boot_entry(s: Seq<MemoryRegion>, addr: u64) -> Option<PageTableEntry> {
    if ram_entry(s, addr) is Some {
        ram_entry(s, addr)
    } else if device_page(addr) {
        Some(crate::vmm::entry_for(addr, PageTableFlags(0x8000_0000_0000_001B)))
    } else {
        None
    }
}

/// Pages are mapped under `root` as the kernel wants them on a machine with memory
/// map `s`.
pub open spec fn boot_mapped(
    mm: MemoryManager,
    mem: Seq<PageTable>,
    root: PhysPage,
    s: Seq<MemoryRegion>,
) -> bool {
    mapped_as(mm, mem, root.0 as int / 4096, |a: u64| boot_entry(s, a))
}

/// Where the registers of the local interrupt controller are.
pub const LAPIC_PAGE: u64 = 0xFEE0_0000;

/// Where the registers of the I/O interrupt controller are.
pub const IOAPIC_PAGE: u64 = 0xFEC0_0000;

/// Where the memory of the screen starts.
pub const VGA_START: u64 = 0x000A_0000;

/// Where the memory of the screen and its firmware ends.
pub const VGA_END: u64 = 0x0010_0000;

/// The virtual region for a region of memory.
pub open spec fn ram_region(r: MemoryRegion) -> VirtRegion {
    VirtRegion {
        start: VirtAddr(r.physical_start),
        size_bytes: (r.physical_end - r.physical_start) as u64,
        permissions: ram_permissions(r.region_type),
        purpose: if r.region_type == MemoryType::LoaderCode {
            RegionPurpose::KernelBinary
        } else {
            RegionPurpose::DirectMappedRam
        },
        owns_physical_pages: false,
    }
}

/// A virtual region for device registers.
pub open spec fn device_region(start: u64, size_bytes: u64) -> VirtRegion {
    VirtRegion {
        start: VirtAddr(start),
        size_bytes,
        permissions: VirtPermissions {
            readable: true,
            writable: true,
            executable: false,
            user: false,
        },
        purpose: RegionPurpose::Mmio,
        owns_physical_pages: false,
    }
}

/// The registry `s` after an attempt to register `region`.
pub open spec fn registered(s: Seq<VirtRegion>, region: VirtRegion) -> Seq<VirtRegion> {
    if crate::vmm::register_refusal(s, region) is None {
        s.push(region)
    } else {
        s
    }
}

/// The registry `s` after an attempt to register the regions of memory in turn.
pub open spec fn ram_registered(s: Seq<VirtRegion>, regions: Seq<MemoryRegion>) -> Seq<VirtRegion>
    decreases regions.len(),
{
    if regions.len() == 0 {
        s
    } else {
        registered(ram_registered(s, regions.drop_last()), ram_region(regions.last()))
    }
}

/// The registry `s` after an attempt to register memory and devices in turn.
pub open spec fn boot_registered(
    s: Seq<VirtRegion>,
    regions: Seq<MemoryRegion>,
) -> Seq<VirtRegion> {
    let ram = ram_registered(s, regions);
    let lapic = registered(ram, device_region(LAPIC_PAGE, 4096));
    let ioapic = registered(lapic, device_region(IOAPIC_PAGE, 4096));
    registered(ioapic, device_region(VGA_START, (VGA_END - VGA_START) as u64))
}

/// From one state to another, tables were added in free frames, the root `root`
/// among them; nothing else was handed out, and memory outside the tables and
/// what the other roots map is as it was.
pub open spec fn root_added(
    mm0: MemoryManager,
    mem0: Seq<PageTable>,
    mm1: MemoryManager,
    mem1: Seq<PageTable>,
    root: int,
) -> bool {
    &&& mem1.len() == mem0.len()
    &&& mm0.pmm@.is_first_free(root)
    &&& !mm0.is_table(root)
    &&& walk::is_root(mm1.tables(), root)
    &&& mm1.pmm@.total() == mm0.pmm@.total()
    &&& forall|f: int| #[trigger]
        mm0.is_table(f) ==> mm1.is_table(f) && mm1.tables()[f] == mm0.tables()[f]
    &&& forall|f: int| #[trigger]
        mm1.is_table(f) && !mm0.is_table(f) ==> mm0.pmm@.is_free(f) && (f == root
            || mm1.tables()[f].level < 4)
    &&& forall|f: int|
        0 <= f < mm0.pmm@.used.len() ==> #[trigger] mm1.pmm@.used[f] == (mm0.pmm@.used[f] || (
        mm1.is_table(f) && !mm0.is_table(f)))
    &&& mm1.pmm@.free_count() < mm0.pmm@.free_count()
    &&& mm1.pmm@.stats == mm0.pmm@.stats_after_takes(
        mm0.pmm@.free_count() - mm1.pmm@.free_count(),
    )
    &&& forall|f: int| 0 <= f < mem0.len() && !mm1.is_table(f) ==> #[trigger] mem1[f] == mem0[f]
    &&& walk::same_mappings(mem0, mem1, mm0.tables())
    &&& walk::links_made(mem0, mem1, mm0.tables(), mm1.tables())
    &&& alone(mm1, mem1, root)
}

/// Growing further keeps what was said of the root's making.
proof fn lemma_root_grown(
    mm0: MemoryManager,
    mem0: Seq<PageTable>,
    mm1: MemoryManager,
    mem1: Seq<PageTable>,
    mm2: MemoryManager,
    mem2: Seq<PageTable>,
    root: int,
)
    requires
        mm0.wf(mem0),
        mm1.wf(mem1),
        root_added(mm0, mem0, mm1, mem1, root),
        paging::grown(mm1, mem1, mm2, mem2),
        others_same(mm1, mem1, mem2, root),
        alone(mm2, mem2, root),
    ensures
        root_added(mm0, mem0, mm2, mem2, root),
{
    assert(mm1.is_table(root));
    assert forall|f: int| #[trigger] mm0.tables().contains_key(f) implies mm1.tables().contains_key(
        f,
    ) && mm1.tables()[f] == mm0.tables()[f] by {
        assert(mm0.is_table(f));
    }
    assert forall|f: int| #[trigger] mm1.tables().contains_key(f) implies mm2.tables().contains_key(
        f,
    ) && mm2.tables()[f] == mm1.tables()[f] by {
        assert(mm1.is_table(f));
    }
    walk::lemma_links_transitive(
        mem0,
        mem1,
        mem2,
        mm0.tables(),
        mm1.tables(),
        mm2.tables(),
    );
    assert forall|f: int| #[trigger]
        mm0.is_table(f) implies mm2.is_table(f) && mm2.tables()[f] == mm0.tables()[f] by {
        assert(mm1.is_table(f));
    }
    assert forall|f: int| #[trigger]
        mm2.is_table(f) && !mm0.is_table(f) implies mm0.pmm@.is_free(f) && (f == root
        || mm2.tables()[f].level < 4) by {
        if mm1.is_table(f) {
        } else {
            assert(mm1.pmm@.is_free(f));
            assert(mm1.pmm@.used[f] == (mm0.pmm@.used[f] || (mm1.is_table(f) && !mm0.is_table(
                f,
            ))));
        }
    }
    assert forall|f: int| 0 <= f < mm0.pmm@.used.len() implies #[trigger] mm2.pmm@.used[f] == (
    mm0.pmm@.used[f] || (mm2.is_table(f) && !mm0.is_table(f))) by {
        assert(mm1.pmm@.used[f] == (mm0.pmm@.used[f] || (mm1.is_table(f) && !mm0.is_table(f))));
        if mm1.is_table(f) {
            assert(mm2.is_table(f));
        }
    }
    assert forall|f: int| 0 <= f < mem0.len() && !mm2.is_table(f) implies #[trigger] mem2[f]
        == mem0[f] by {
        if mm1.is_table(f) {
            assert(mm2.is_table(f));
        }
        assert(mem2[f] == mem1[f]);
    }
    assert forall|r: int, p: int|
        walk::is_root(mm0.tables(), r) && 0 <= p < walk::page_limit() implies #[trigger] walk::mapping(
        mem2,
        r,
        p,
    ) == walk::mapping(mem0, r, p) by {
        assert(mm0.is_table(r));
        assert(mm1.is_table(r));
        assert(walk::mapping(mem1, r, p) == walk::mapping(mem0, r, p));
    }
}

/// The root is in place and maps what is wanted.
spec fn taking_shape(
    mm0: MemoryManager,
    mem0: Seq<PageTable>,
    mm1: MemoryManager,
    mem1: Seq<PageTable>,
    root: PhysPage,
    want: spec_fn(u64) -> Option<PageTableEntry>,
) -> bool {
    &&& mm1.wf(mem1)
    &&& mm1.root == root
    &&& mm1.has_root(root)
    &&& root_added(mm0, mem0, mm1, mem1, root.0 as int / 4096)
    &&& mapped_as(mm1, mem1, root.0 as int / 4096, want)
    &&& mm1.vmm.next_dynamic_addr == mm0.vmm.next_dynamic_addr
}

/// Registering regions leaves the tables alone.
proof fn lemma_registry_apart(
    mm0: MemoryManager,
    mem0: Seq<PageTable>,
    mm1: MemoryManager,
    mm2: MemoryManager,
    mem1: Seq<PageTable>,
    root: PhysPage,
    want: spec_fn(u64) -> Option<PageTableEntry>,
)
    requires
        taking_shape(mm0, mem0, mm1, mem1, root, want),
        mm2.pmm == mm1.pmm,
        mm2.root == mm1.root,
        mm2.tables == mm1.tables,
        mm2.vmm.wf(),
        mm2.vmm.next_dynamic_addr == mm1.vmm.next_dynamic_addr,
    ensures
        taking_shape(mm0, mem0, mm2, mem1, root, want),
{
    assert forall|f: int| #[trigger] mm2.is_table(f) implies f < mm2.pmm@.total()
        && mm2.pmm@.used[f] by {
        assert(mm1.is_table(f));
    }
    assert forall|f: int| #[trigger]
        mm0.is_table(f) implies mm2.is_table(f) && mm2.tables()[f] == mm0.tables()[f] by {
        assert(mm1.is_table(f));
    }
    assert forall|f: int| #[trigger]
        mm2.is_table(f) && !mm0.is_table(f) implies mm0.pmm@.is_free(f) && (f == root.0 as int
        / 4096 || mm2.tables()[f].level < 4) by {
        assert(mm1.is_table(f));
    }
    assert forall|f: int| 0 <= f < mm0.pmm@.used.len() implies #[trigger] mm2.pmm@.used[f] == (
    mm0.pmm@.used[f] || (mm2.is_table(f) && !mm0.is_table(f))) by {
        assert(mm2.is_table(f) == mm1.is_table(f));
    }
    assert forall|f: int| 0 <= f < mem0.len() && !mm2.is_table(f) implies #[trigger] mem1[f]
        == mem0[f] by {
        assert(!mm1.is_table(f));
    }
}

/// Makes the root table in the first free frame.
fn make_root(frames: &mut [PageTable], mm: &mut MemoryManager) -> (r: Option<PhysPage>)
    requires
        old(mm).wf(old(frames)@),
    ensures
        match r {
            Some(root) => {
                &&& taking_shape(
                    *old(mm),
                    old(frames)@,
                    *final(mm),
                    final(frames)@,
                    root,
                    |a: u64| None::<PageTableEntry>,
                )
                &&& final(mm).vmm == old(mm).vmm
            },
            None => {
                &&& old(mm).pmm@.free_count() == 0
                &&& *final(mm) == *old(mm)
                &&& final(frames)@ == old(frames)@
            },
        },
{
    let ghost mm0 = *mm;
    let ghost mem0 = frames@;
    let root_page = match allocate_physical_page(&mut mm.pmm) {
        Some(p) => p,
        None => return None,
    };
    let c: usize = (root_page.addr() / PAGE_SIZE) as usize;
    frames[c].zero();
    mm.root = root_page;
    proof {
        let mem1 = frames@;
        let r = c as int;
        assert(!mm0.is_table(r));
        assert(0u64 & 1 == 0) by (bit_vector);
        assert forall|i: int| 0 <= i < 512 implies #[trigger] walk::link(mem1, r, i) is None by {
            assert(mem1[r].entries@[i] == PageTableEntry(0));
        }
        assert forall|f: int, i: int|
            mm0.tables().contains_key(f) && 0 <= i < 512 implies #[trigger] walk::word(mem1, f, i)
            == walk::word(mem0, f, i) by {
            assert(mm0.is_table(f));
        }
        walk::lemma_new_root(mem0, mem1, mm0.tables(), r);
        mm.tables = Ghost(mm0.tables().insert(r, TableRole { level: 4, prefix: 0 }));
        assert(walk::links_made(mem0, mem1, mm0.tables(), mm.tables())) by {
            reveal(walk::links_made);
            assert forall|f: int, i: int|
                mm.tables().contains_key(f) && mm.tables()[f].level > 1 && 0 <= i
                    < 512 implies #[trigger] walk::link_made(
                mem0,
                mem1,
                mm0.tables(),
                f,
                i,
            ) by {
                if f == r {
                    assert(walk::link(mem1, r, i) is None);
                } else {
                    assert(walk::word(mem1, f, i) == walk::word(mem0, f, i));
                }
            }
        }
        assert forall|f: int| #[trigger] mm.is_table(f) implies f < mm.pmm@.total()
            && mm.pmm@.used[f] by {
            if f != r {
                assert(mm0.is_table(f));
            }
        }
        assert forall|p: int, l: nat|
            0 <= p < walk::page_limit() && 1 <= l <= 3 implies #[trigger] walk::table_at(
            mem1,
            r,
            p,
            l,
        ) is None by {
            walk::lemma_slot(p, 4);
            assert(walk::link(mem1, r, walk::slot(p, 4)) is None);
            assert(walk::table_at(mem1, r, p, 4) == Some(r));
            walk::lemma_missing_below(mem1, r, p, 3, l);
        }
        assert forall|a: u64| a % 4096 == 0 && crate::vmm::canonical(a) implies walk::mapping(
            mem1,
            r,
            #[trigger] walk::page_of(a),
        ) is None by {
            assert(walk::table_at(mem1, r, walk::page_of(a), 1) is None);
        }
        assert forall|b: int, p: int|
            walk::is_root(mm.tables(), b) && b != r && 0 <= p
                < walk::page_limit() implies !#[trigger] walk::shares(mem1, r, b, p) by {}
        assert forall|f: int| 0 <= f < mm0.pmm@.used.len() implies #[trigger] mm.pmm@.used[f] == (
        mm0.pmm@.used[f] || (mm.is_table(f) && !mm0.is_table(f))) by {
            if f != r && mm.is_table(f) {
                assert(mm0.is_table(f));
            }
        }
    }
    Some(root_page)
}

/// Registers `region`; a refusal is passed over.
fn try_register(mm: &mut MemoryManager, region: VirtRegion)
    requires
        old(mm).vmm.wf(),
        region.fits(),
    ensures
        final(mm).pmm == old(mm).pmm,
        final(mm).root == old(mm).root,
        final(mm).tables == old(mm).tables,
        final(mm).vmm.wf(),
        final(mm).vmm.next_dynamic_addr == old(mm).vmm.next_dynamic_addr,
        final(mm).vmm@ == registered(old(mm).vmm@, region),
{
    let _ = register_region(&mut mm.vmm, region);
}

/// Registers a region of device registers.
fn register_device(mm: &mut MemoryManager, start: u64, size_bytes: u64)
    requires
        old(mm).vmm.wf(),
        start + size_bytes <= u64::MAX,
    ensures
        final(mm).pmm == old(mm).pmm,
        final(mm).root == old(mm).root,
        final(mm).tables == old(mm).tables,
        final(mm).vmm.wf(),
        final(mm).vmm.next_dynamic_addr == old(mm).vmm.next_dynamic_addr,
        final(mm).vmm@ == registered(old(mm).vmm@, device_region(start, size_bytes)),
{
    try_register(
        mm,
        VirtRegion {
            start: VirtAddr::new(start),
            size_bytes,
            permissions: VirtPermissions::mmio(),
            purpose: RegionPurpose::Mmio,
            owns_physical_pages: false,
        },
    );
}

/// Maps a range and keeps what was said of the root.
fn shape_range(
    frames: &mut [PageTable],
    mm: &mut MemoryManager,
    root: PhysPage,
    start: u64,
    end: u64,
    flags: PageTableFlags,
    Ghost(mm0): Ghost<MemoryManager>,
    Ghost(mem0): Ghost<Seq<PageTable>>,
    Ghost(want): Ghost<spec_fn(u64) -> Option<PageTableEntry>>,
)
    requires
        mm0.wf(mem0),
        taking_shape(mm0, mem0, *old(mm), old(frames)@, root, want),
        start <= end,
        (end - start) % 4096 == 0,
        flags.0 & 1 != 0,
    ensures
        taking_shape(
            mm0,
            mem0,
            *final(mm),
            final(frames)@,
            root,
            with_range(want, start as int, end as int, flags),
        ),
        final(mm).vmm@ == old(mm).vmm@,
{
    let ghost mm1 = *mm;
    let ghost mem1 = frames@;
    proof {
        assert(mm1.is_table(root.0 as int / 4096));
    }
    identity_map_range(frames, mm, root, start, end, flags, Ghost(want));
    proof {
        lemma_root_grown(mm0, mem0, mm1, mem1, *mm, frames@, root.0 as int / 4096);
    }
}

/// Builds the kernel's page tables: memory and devices at their physical
/// addresses, registered as regions. The root is to be loaded into `CR3`.
///
/// A frame for the root must be free. Pages that cannot be mapped and regions
/// that cannot be registered are passed over.
pub fn init(frames: &mut [PageTable], mm: &mut MemoryManager, map: &PhysicalMemoryMap) -> (r:
    PhysPage)
    requires
        old(mm).wf(old(frames)@),
        old(mm).pmm@.free_count() > 0,
        map.wf(),
    ensures
        final(mm).ready(final(frames)@),
        final(mm).root == r,
        root_added(*old(mm), old(frames)@, *final(mm), final(frames)@, r.0 as int / 4096),
        boot_mapped(*final(mm), final(frames)@, r, map@),
        final(mm).vmm@ == boot_registered(old(mm).vmm@, map@),
        final(mm).vmm.next_dynamic_addr == old(mm).vmm.next_dynamic_addr,
{
    let ghost mm0 = *mm;
    let ghost mem0 = frames@;
    let root_page = match make_root(frames, mm) {
        Some(p) => p,
        None => PhysPage::null(),
    };
    let ghost r = root_page.0 as int / 4096;
    proof {
        assert(map@.take(0) =~= Seq::<MemoryRegion>::empty());
        lemma_wanted_alike(
            *mm,
            frames@,
            r,
            |a: u64| None::<PageTableEntry>,
            |a: u64| ram_entry(map@.take(0), a),
        );
    }
    let mut i: usize = 0;
    while i < map.region_count
        invariant
            mm0 == *old(mm),
            mem0 == old(frames)@,
            mm0.wf(mem0),
            map.wf(),
            i <= map.region_count,
            r == root_page.0 as int / 4096,
            taking_shape(
                mm0,
                mem0,
                *mm,
                frames@,
                root_page,
                |a: u64| ram_entry(map@.take(i as int), a),
            ),
            mm.vmm@ == ram_registered(mm0.vmm@, map@.take(i as int)),
        decreases map.region_count - i,
    {
        let region = &map.regions[i];
        proof {
            assert(map.regions@[i as int] == map@[i as int]);
            assert(map@[i as int].wf());
            assert(map@.take(i + 1).drop_last() =~= map@.take(i as int));
            assert(map@.take(i + 1).last() == map@[i as int]);
        }
        let (perms, purpose) = match region.region_type {
            MemoryType::LoaderCode => (VirtPermissions::kernel_code(), RegionPurpose::KernelBinary),
            _ => (VirtPermissions::kernel_data(), RegionPurpose::DirectMappedRam),
        };
        let flags = match region.region_type {
            MemoryType::LoaderCode => PageTableFlags::kernel_code(),
            _ => PageTableFlags::kernel_data(),
        };
        let ghost want = |a: u64| ram_entry(map@.take(i as int), a);
        let ghost want1 = with_range(
            want,
            region.physical_start as int,
            region.physical_end as int,
            flags,
        );
        proof {
            assert(1u64 & 1 != 0 && 0x8000_0000_0000_0003u64 & 1 != 0
                && 0x8000_0000_0000_001Bu64 & 1 != 0) by (bit_vector);
        }
        shape_range(
            frames,
            mm,
            root_page,
            region.physical_start,
            region.physical_end,
            flags,
            Ghost(mm0),
            Ghost(mem0),
            Ghost(want),
        );
        let ghost mm1 = *mm;
        try_register(
            mm,
            VirtRegion {
                start: VirtAddr::new(region.physical_start),
                size_bytes: region.physical_end - region.physical_start,
                permissions: perms,
                purpose,
                owns_physical_pages: false,
            },
        );
        proof {
            assert(flags == ram_permissions(region.region_type).page_flags());
            lemma_registry_apart(mm0, mem0, mm1, *mm, frames@, root_page, want1);
            lemma_wanted_alike(
                *mm,
                frames@,
                r,
                want1,
                |a: u64| ram_entry(map@.take(i + 1), a),
            );
        }
        i = i + 1;
    }
    let mmio = PageTableFlags::mmio();
    let ghost want0 = |a: u64| ram_entry(map@.take(i as int), a);
    proof {
        assert(0x8000_0000_0000_001Bu64 & 1 != 0) by (bit_vector);
        assert(map@.take(i as int) =~= map@);
    }
    shape_range(
        frames,
        mm,
        root_page,
        LAPIC_PAGE,
        LAPIC_PAGE + PAGE_SIZE,
        mmio,
        Ghost(mm0),
        Ghost(mem0),
        Ghost(want0),
    );
    let ghost want1 = with_range(want0, LAPIC_PAGE as int, LAPIC_PAGE + 4096, mmio);
    shape_range(
        frames,
        mm,
        root_page,
        IOAPIC_PAGE,
        IOAPIC_PAGE + PAGE_SIZE,
        mmio,
        Ghost(mm0),
        Ghost(mem0),
        Ghost(want1),
    );
    let ghost want2 = with_range(want1, IOAPIC_PAGE as int, IOAPIC_PAGE + 4096, mmio);
    shape_range(
        frames,
        mm,
        root_page,
        VGA_START,
        VGA_END,
        mmio,
        Ghost(mm0),
        Ghost(mem0),
        Ghost(want2),
    );
    let ghost want3 = with_range(want2, VGA_START as int, VGA_END as int, mmio);
    let ghost mm1 = *mm;
    register_device(mm, LAPIC_PAGE, PAGE_SIZE);
    register_device(mm, IOAPIC_PAGE, PAGE_SIZE);
    register_device(mm, VGA_START, VGA_END - VGA_START);
    proof {
        lemma_registry_apart(mm0, mem0, mm1, *mm, frames@, root_page, want3);
        lemma_wanted_alike(*mm, frames@, r, want3, |a: u64| boot_entry(map@, a));
    }
    root_page
}

} // verus!
