//! What holds of page tables as the processor reads them, and of the pages that are
//! mapped in them.

use vstd::prelude::*;
use crate::paging;
use crate::paging::MemoryManager;
use crate::pmm;
use crate::pmm::PhysPage;
use crate::regions;
use crate::vmm;
use crate::vmm::{MapError, PageTable, PageTableFlags, UnmapError, VirtAddr, VirtPermissions};
use crate::walk;
use crate::window;

verus! {

/// `a` is an address that the processor takes: bits 47 to 63 are the same.
pub open spec fn proper(a: int) -> bool {
    0 <= a < 0x0000_8000_0000_0000 || 0xFFFF_8000_0000_0000 <= a <= 0xFFFF_FFFF_FFFF_FFFF
}

/// Entry `i` of the table in the frame that the word `e` points at, as a word.
pub open spec fn entry_below(mem: Seq<PageTable>, e: u64, i: int) -> u64 {
    mem[(e & 0x000F_FFFF_FFFF_F000) as int / 4096].entries@[i].0
}

/// The four words that the processor reads on its way from `root` to `addr`, each
/// from the table that the one before points at: by bits 39 to 47 of the address, 30
/// to 38, 21 to 29 and 12 to 20.
pub open spec fn way(mem: Seq<PageTable>, root: PhysPage, addr: u64) -> (u64, u64, u64, u64) {
    let a = addr as int;
    let e4 = mem[root.0 as int / 4096].entries@[a / 0x80_0000_0000 % 512].0;
    let e3 = entry_below(mem, e4, a / 0x4000_0000 % 512);
    let e2 = entry_below(mem, e3, a / 0x20_0000 % 512);
    let e1 = entry_below(mem, e2, a / 0x1000 % 512);
    (e4, e3, e2, e1)
}

/// The tables of the way in terms of the words on it.
proof fn lemma_way(mem: Seq<PageTable>, root: PhysPage, addr: u64)
    ensures
        ({
            let (e4, e3, e2, e1) = way(mem, root, addr);
            let r = root.0 as int / 4096;
            let page = walk::page_of(addr);
            let m = 0x000F_FFFF_FFFF_F000u64;
            &&& walk::table_at(mem, r, page, 3) == if e4 & 1 != 0 {
                Some((e4 & m) as int / 4096)
            } else {
                None
            }
            &&& walk::table_at(mem, r, page, 2) == if e4 & 1 != 0 && e3 & 1 != 0 {
                Some((e3 & m) as int / 4096)
            } else {
                None
            }
            &&& walk::table_at(mem, r, page, 1) == if e4 & 1 != 0 && e3 & 1 != 0 && e2 & 1 != 0 {
                Some((e2 & m) as int / 4096)
            } else {
                None
            }
            &&& walk::mapping(mem, r, page) is Some <==> e4 & 1 != 0 && e3 & 1 != 0 && e2 & 1 != 0
                && e1 & 1 != 0
            &&& walk::mapping(mem, r, page) matches Some(e) ==> e.0 == e1
        }),
{
    paging::lemma_indices(addr);
    let r = root.0 as int / 4096;
    let page = walk::page_of(addr);
    assert(walk::table_at(mem, r, page, 4) == Some(r));
    assert(walk::table_at(mem, r, page, 3) == walk::link(mem, r, walk::slot(page, 4)));
    assert(walk::table_at(mem, r, page, 2) == match walk::table_at(mem, r, page, 3) {
        Some(t) => walk::link(mem, t, walk::slot(page, 3)),
        None => None,
    });
    assert(walk::table_at(mem, r, page, 1) == match walk::table_at(mem, r, page, 2) {
        Some(t) => walk::link(mem, t, walk::slot(page, 2)),
        None => None,
    });
}

/// An address translates to what the processor makes of it: all four words on its way
/// have to be present, and the last holds the page, to which the lower 12 bits of the
/// address are added, and the flags.
pub proof fn lemma_translated_by_processor(mem: Seq<PageTable>, root: PhysPage, addr: u64)
    ensures
        ({
            let (e4, e3, e2, e1) = way(mem, root, addr);
            paging::translation(mem, root, VirtAddr(addr)) == if proper(addr as int) && e4 & 1 != 0
                && e3 & 1 != 0 && e2 & 1 != 0 && e1 & 1 != 0 {
                Some(
                    (
                        PhysPage(((e1 & 0x000F_FFFF_FFFF_F000) + addr % 4096) as u64),
                        PageTableFlags(e1 & 0xFFF0_0000_0000_0FFF),
                    ),
                )
            } else {
                None
            }
        }),
{
    lemma_way(mem, root, addr);
}

/// The words that lead to a table let the processor write and user code in, and do
/// not keep it from running code: that is up to the last word. None of them stands
/// for a large page.
pub proof fn lemma_way_open(mm: MemoryManager, mem: Seq<PageTable>, root: PhysPage, addr: u64)
    requires
        mm.wf(mem),
        mm.has_root(root),
    ensures
        ({
            let (e4, e3, e2, e1) = way(mem, root, addr);
            &&& e4 & 1 != 0 ==> e4 & 0x8000_0000_0000_0087 == 7
            &&& e4 & 1 != 0 && e3 & 1 != 0 ==> e3 & 0x8000_0000_0000_0087 == 7
            &&& e4 & 1 != 0 && e3 & 1 != 0 && e2 & 1 != 0 ==> e2 & 0x8000_0000_0000_0087 == 7
        }),
{
    let r = root.0 as int / 4096;
    let page = walk::page_of(addr);
    let tables = mm.tables();
    lemma_way(mem, root, addr);
    paging::lemma_indices(addr);
    walk::lemma_slot(page, 4);
    walk::lemma_slot(page, 3);
    walk::lemma_slot(page, 2);
    walk::lemma_walk(mem, tables, r, page, 4);
    walk::lemma_walk(mem, tables, r, page, 3);
    walk::lemma_walk(mem, tables, r, page, 2);
    assert(walk::entry_ok(mem, tables, r, walk::slot(page, 4)));
    if walk::table_at(mem, r, page, 3) is Some {
        let t3 = walk::table_at(mem, r, page, 3)->0;
        assert(walk::entry_ok(mem, tables, t3, walk::slot(page, 3)));
        if walk::table_at(mem, r, page, 2) is Some {
            let t2 = walk::table_at(mem, r, page, 2)->0;
            assert(walk::entry_ok(mem, tables, t2, walk::slot(page, 2)));
        }
    }
}

/// When a page can be mapped, and why it cannot: its address must be one that the
/// processor takes and a multiple of the page size, so must the physical one be, it
/// must not be mapped, and there must be a free frame for each table on its way that
/// is missing.
pub proof fn lemma_map_when(
    mem: Seq<PageTable>,
    free: nat,
    root: PhysPage,
    virt: VirtAddr,
    phys: PhysPage,
)
    ensures
        ({
            let (e4, e3, e2, e1) = way(mem, root, virt.0);
            let missing: int = if e4 & 1 == 0 {
                3
            } else if e3 & 1 == 0 {
                2
            } else if e2 & 1 == 0 {
                1
            } else {
                0
            };
            paging::map_refusal(mem, free, root, virt, phys) == if !proper(virt.0 as int) {
                Some(MapError::NonCanonicalAddress)
            } else if virt.0 % 4096 != 0 {
                Some(MapError::UnalignedVirtualAddress)
            } else if phys.0 % 4096 != 0 {
                Some(MapError::UnalignedPhysicalAddress)
            } else if paging::translation(mem, root, virt) is Some {
                Some(MapError::AlreadyMapped)
            } else if free < missing {
                Some(MapError::FrameAllocationFailed)
            } else {
                None
            }
        }),
{
    lemma_way(mem, root, virt.0);
}

/// When a page can be unmapped, and why it cannot.
pub proof fn lemma_unmap_when(mem: Seq<PageTable>, root: PhysPage, virt: VirtAddr)
    ensures
        ({
            let (e4, e3, e2, e1) = way(mem, root, virt.0);
            paging::unmap_refusal(mem, root, virt) == if !proper(virt.0 as int) {
                Some(UnmapError::NonCanonicalAddress)
            } else if virt.0 % 4096 != 0 {
                Some(UnmapError::UnalignedVirtualAddress)
            } else if e4 & 1 == 0 || e3 & 1 == 0 || e2 & 1 == 0 {
                Some(UnmapError::ParentTableMissing)
            } else if e1 & 1 == 0 {
                Some(UnmapError::NotMapped)
            } else {
                None
            }
        }),
{
    lemma_way(mem, root, virt.0);
}

/// Addresses in different pages have different page numbers.
proof fn lemma_pages_apart(a: u64, b: u64)
    requires
        vmm::canonical(a),
        vmm::canonical(b),
        walk::page_of(a) == walk::page_of(b),
    ensures
        a as int / 4096 == b as int / 4096,
{
    let x = a as int % 0x1_0000_0000_0000;
    let y = b as int % 0x1_0000_0000_0000;
    assert(x == if a < 0x0000_8000_0000_0000 {
        a as int
    } else {
        a - 0xFFFF_0000_0000_0000
    });
    assert(y == if b < 0x0000_8000_0000_0000 {
        b as int
    } else {
        b - 0xFFFF_0000_0000_0000
    });
}

/// Mapping a page leaves what the addresses outside it translate to under any root,
/// and mapping it to something makes it translate to that.
pub proof fn lemma_map_elsewhere(
    mm0: MemoryManager,
    mem0: Seq<PageTable>,
    mm1: MemoryManager,
    mem1: Seq<PageTable>,
    root: PhysPage,
    virt: VirtAddr,
    phys: PhysPage,
    flags: PageTableFlags,
    other_root: PhysPage,
    addr: u64,
)
    requires
        mm0.has_root(other_root),
        vmm::canonical(virt.0),
        paging::page_mapped(
            mm0,
            mem0,
            mm1,
            mem1,
            root.0 as int / 4096,
            walk::page_of(virt.0),
            vmm::entry_for(phys.0, flags),
        ),
        addr as int / 4096 != virt.0 as int / 4096,
    ensures
        paging::translation(mem1, other_root, VirtAddr(addr)) == paging::translation(
            mem0,
            other_root,
            VirtAddr(addr),
        ),
{
    if vmm::canonical(addr) {
        if walk::page_of(addr) == walk::page_of(virt.0) {
            lemma_pages_apart(addr, virt.0);
        }
        let r = other_root.0 as int / 4096;
        let p = walk::page_of(addr);
        assert(0 <= p < walk::page_limit());
        assert(walk::mapping(mem1, r, p) == walk::mapping(mem0, r, p));
    }
}

/// Unmapping a page leaves what the addresses outside it translate to under any root.
/// The page that it gives is the one that the address translated to.
pub proof fn lemma_unmap_elsewhere(
    mm: MemoryManager,
    mem0: Seq<PageTable>,
    mem1: Seq<PageTable>,
    root: PhysPage,
    virt: VirtAddr,
    other_root: PhysPage,
    addr: u64,
)
    requires
        mm.has_root(other_root),
        paging::unmap_refusal(mem0, root, virt) is None,
        paging::pages_unmapped(
            mm,
            mem0,
            mem1,
            root.0 as int / 4096,
            walk::page_of(virt.0),
            walk::page_of(virt.0) + 1,
        ),
        addr as int / 4096 != virt.0 as int / 4096,
    ensures
        paging::translation(mem1, other_root, VirtAddr(addr)) == paging::translation(
            mem0,
            other_root,
            VirtAddr(addr),
        ),
        paging::translation(mem0, root, virt) matches Some(t) && t.0 == PhysPage(
            (walk::mapping(mem0, root.0 as int / 4096, walk::page_of(virt.0))->0).target(),
        ),
{
    if vmm::canonical(addr) {
        if walk::page_of(addr) == walk::page_of(virt.0) {
            lemma_pages_apart(addr, virt.0);
        }
        let r = other_root.0 as int / 4096;
        let p = walk::page_of(addr);
        assert(0 <= p < walk::page_limit());
        assert(walk::mapping(mem1, r, p) == walk::mapping(mem0, r, p));
    }
}

/// The word at an address is the one in memory at what the address translates to.
pub proof fn lemma_word_where_translated(mem: Seq<PageTable>, root: PhysPage, addr: u64)
    requires
        addr % 8 == 0,
        paging::translation(mem, root, VirtAddr(addr)) is Some,
    ensures
        ({
            let phys = (paging::translation(mem, root, VirtAddr(addr))->0).0.0 as int;
            paging::word_at(mem, root.0 as int / 4096, addr as int) == mem[phys / 4096].entries@[phys
                % 4096 / 8].0
        }),
{
    let e = walk::mapping(mem, root.0 as int / 4096, walk::page_of(addr))->0;
    vmm::lemma_entry_target(e);
    let t = e.target() as int;
    let off = addr as int % 4096;
    assert(t + off <= u64::MAX);
    assert((t + off) / 4096 == t / 4096);
    assert((t + off) % 4096 == off);
}

/// The flags that grant permissions: bit 0 always, bit 1 for writing, bit 2 for user
/// code, and bit 63 against running.
pub proof fn lemma_granted(p: VirtPermissions)
    ensures
        ({
            let f = p.page_flags().0;
            &&& f & 1 != 0
            &&& f & 2 != 0 <==> p.writable
            &&& f & 4 != 0 <==> p.user
            &&& f & 0x8000_0000_0000_0000 != 0 <==> !p.executable
            &&& f & 0x7FFF_FFFF_FFFF_FFF8 == 0
        }),
{
    let f = p.page_flags().0;
    let w = p.writable;
    let u = p.user;
    let x = p.executable;
    assert(f == 1 + (if w {
        2int
    } else {
        0
    }) + (if u {
        4int
    } else {
        0
    }) + (if x {
        0int
    } else {
        0x8000_0000_0000_0000
    }));
    assert(f & 1 != 0 && (f & 2 != 0 <==> w) && (f & 4 != 0 <==> u) && (f & 0x8000_0000_0000_0000
        != 0 <==> !x) && f & 0x7FFF_FFFF_FFFF_FFF8 == 0) by (bit_vector)
        requires
            f == 1 + (if w {
                2int
            } else {
                0
            }) + (if u {
                4int
            } else {
                0
            }) + (if x {
                0int
            } else {
                0x8000_0000_0000_0000
            }),
    ;
}

/// What the addresses of pages translate to that were mapped to fresh frames with
/// `flags`: page after page to the first free frames, with those flags. The frames
/// were free and are in use, and no two pages have the same.
pub proof fn lemma_fresh_translates(
    mm0: MemoryManager,
    mem0: Seq<PageTable>,
    mm1: MemoryManager,
    mem1: Seq<PageTable>,
    start: u64,
    n: int,
    flags: PageTableFlags,
    addr: u64,
)
    requires
        mm0.ready(mem0),
        regions::fresh_mapped(mm0, mem0, mm1, mem1, start, n, flags),
        0 <= n <= mm0.pmm@.free_count(),
        start % 4096 == 0,
        start + 4096 * n <= 0x0000_8000_0000_0000,
        flags.0 & 1 != 0,
        flags.0 & 0x000F_FFFF_FFFF_F000 == 0,
        start <= addr < start + 4096 * n,
    ensures
        ({
            let f = mm0.pmm@.nth_free((addr - start) / 4096);
            &&& paging::translation(mem1, mm1.root, VirtAddr(addr)) == Some(
                (PhysPage((4096 * f + addr % 4096) as u64), flags),
            )
            &&& 0 < f < mm0.pmm@.total()
            &&& !mm0.pmm@.used[f]
            &&& mm1.pmm@.used[f]
            &&& 4096 * f + addr % 4096 <= u64::MAX
        }),
{
    let s = start as int;
    let i = (addr - start) / 4096;
    let r = mm1.root.0 as int / 4096;
    window::lemma_fresh_backed(mm0, mem0, mm1, mem1, start, n, flags);
    pmm::lemma_nth_free(mm0.pmm@, i);
    let f = mm0.pmm@.nth_free(i);
    assert(mm0.is_table(r));
    assert(0 <= i < n);
    assert(walk::page_of(addr) == s / 4096 + i);
    assert(walk::page_of(start) == s / 4096);
    let entries = regions::entries_for(regions::fresh_pages(mm0.pmm@, n), flags);
    assert(walk::mapping(mem1, r, s / 4096 + i) == Some(entries[i]));
    assert(entries[i] == vmm::entry_for((4096 * f) as u64, flags));
    vmm::lemma_entry_round_trip((4096 * f) as u64, flags);
}

/// Writing to memory within pages that are no tables leaves what addresses translate
/// to.
pub proof fn lemma_within_translates(
    mm: MemoryManager,
    mem0: Seq<PageTable>,
    mem1: Seq<PageTable>,
    start: int,
    n: int,
    root: PhysPage,
    addr: u64,
)
    requires
        mm.has_root(root),
        window::only_within(mm, mem0, mem1, start, n),
    ensures
        paging::translation(mem1, root, VirtAddr(addr)) == paging::translation(
            mem0,
            root,
            VirtAddr(addr),
        ),
{
    reveal(window::only_within);
    let r = root.0 as int / 4096;
    let p = walk::page_of(addr);
    assert(0 <= p < walk::page_limit());
    assert(walk::mapping(mem1, r, p) == walk::mapping(mem0, r, p));
}

/// The page of an address outside a run in the lower half is none of the run's.
proof fn lemma_outside_run(start: u64, n: int, addr: u64)
    requires
        vmm::canonical(addr),
        start % 4096 == 0,
        0 < n,
        start + 4096 * n <= 0x0000_8000_0000_0000,
        !(start <= addr < start + 4096 * n),
    ensures
        !(walk::page_of(start) <= walk::page_of(addr) < walk::page_of(start) + n),
        0 <= walk::page_of(addr) < walk::page_limit(),
{
    let p = walk::page_of(addr);
    assert(walk::page_of(start) == start as int / 4096);
    assert(p == if addr < 0x0000_8000_0000_0000 {
        addr as int / 4096
    } else {
        (addr - 0xFFFF_0000_0000_0000) / 4096
    });
}

/// Unmapping a run of pages leaves nothing for their addresses to translate to, and what
/// the others translate to.
pub proof fn lemma_unmapped_run(
    mm: MemoryManager,
    mem0: Seq<PageTable>,
    mem1: Seq<PageTable>,
    start: u64,
    n: int,
    addr: u64,
)
    requires
        mm.ready(mem0),
        0 <= n,
        start % 4096 == 0,
        start + 4096 * n <= 0x0000_8000_0000_0000,
        paging::pages_unmapped(
            mm,
            mem0,
            mem1,
            mm.root.0 as int / 4096,
            walk::page_of(start),
            walk::page_of(start) + n,
        ),
    ensures
        start <= addr < start + 4096 * n ==> paging::translation(
            mem1,
            mm.root,
            VirtAddr(addr),
        ) is None,
        !(start <= addr < start + 4096 * n) ==> paging::translation(mem1, mm.root, VirtAddr(addr))
            == paging::translation(mem0, mm.root, VirtAddr(addr)),
{
    let r = mm.root.0 as int / 4096;
    let p = walk::page_of(addr);
    assert(mm.is_table(r));
    assert(0 <= p < walk::page_limit());
    if vmm::canonical(addr) {
        if start <= addr < start + 4096 * n {
            assert(walk::page_of(start) == start as int / 4096);
            assert(p == addr as int / 4096);
            assert(walk::mapping(mem1, r, p) is None);
        } else {
            if n > 0 {
                lemma_outside_run(start, n, addr);
            }
            assert(walk::mapping(mem1, r, p) == walk::mapping(mem0, r, p));
        }
    }
}

/// Mapping fresh pages leaves what the other addresses translate to.
pub proof fn lemma_fresh_elsewhere(
    mm0: MemoryManager,
    mem0: Seq<PageTable>,
    mm1: MemoryManager,
    mem1: Seq<PageTable>,
    start: u64,
    n: int,
    flags: PageTableFlags,
    root: PhysPage,
    addr: u64,
)
    requires
        mm0.has_root(root),
        regions::fresh_mapped(mm0, mem0, mm1, mem1, start, n, flags),
        start % 4096 == 0,
        0 <= n,
        start + 4096 * n <= 0x0000_8000_0000_0000,
        !(start <= addr < start + 4096 * n),
    ensures
        paging::translation(mem1, root, VirtAddr(addr)) == paging::translation(
            mem0,
            root,
            VirtAddr(addr),
        ),
{
    if vmm::canonical(addr) {
        let p = walk::page_of(addr);
        let r = root.0 as int / 4096;
        if n > 0 {
            lemma_outside_run(start, n, addr);
        } else {
            assert(0 <= p < walk::page_limit());
        }
        assert(walk::mapping(mem1, r, p) == walk::mapping(mem0, r, p));
    }
}

} // verus!
