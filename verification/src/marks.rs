//! The marks that the processor sets in page tables as it goes through them.

use vstd::prelude::*;
use crate::heap::HeapState;
use crate::paging::MemoryManager;
use crate::vmm::{PageTable, PageTableEntry};
use crate::walk;
use crate::walk::TableRole;
use crate::window;

verus! {

/// The entries are the same but for the marks that a page was accessed and that
/// it was written.
pub open spec fn alike(a: PageTableEntry, b: PageTableEntry) -> bool {
    a.0 & 0xFFFF_FFFF_FFFF_FF9F == b.0 & 0xFFFF_FFFF_FFFF_FF9F
}

/// From one memory to another, nothing changed but such marks in the tables.
pub open spec fn marked(
    mem0: Seq<PageTable>,
    mem1: Seq<PageTable>,
    tables: Map<int, TableRole>,
) -> bool {
    &&& mem1.len() == mem0.len()
    &&& forall|f: int|
        0 <= f < mem0.len() && !tables.contains_key(f) ==> #[trigger] mem1[f] == mem0[f]
    &&& forall|f: int, i: int|
        tables.contains_key(f) && 0 <= i < 512 ==> alike(
            #[trigger] walk::word(mem1, f, i),
            walk::word(mem0, f, i),
        )
}

/// Entries that differ in marks lead to the same place, and allow the same.
pub proof fn lemma_alike(a: PageTableEntry, b: PageTableEntry)
    requires
        alike(a, b),
    ensures
        a.maps() == b.maps(),
        a.target() == b.target(),
        walk::opens(a) == walk::opens(b),
{
    let x = a.0;
    let y = b.0;
    assert(x & 1 == y & 1 && x & 0x000F_FFFF_FFFF_F000 == y & 0x000F_FFFF_FFFF_F000 && x
        & 0x8000_0000_0000_0087 == y & 0x8000_0000_0000_0087) by (bit_vector)
        requires
            x & 0xFFFF_FFFF_FFFF_FF9F == y & 0xFFFF_FFFF_FFFF_FF9F,
    ;
}

proof fn lemma_same_way(
    mem0: Seq<PageTable>,
    mem1: Seq<PageTable>,
    tables: Map<int, TableRole>,
    root: int,
    page: int,
    level: nat,
)
    requires
        walk::tables_wf(mem0, tables),
        marked(mem0, mem1, tables),
        walk::is_root(tables, root),
        0 <= page < walk::page_limit(),
        1 <= level <= 4,
    ensures
        walk::table_at(mem1, root, page, level) == walk::table_at(mem0, root, page, level),
    decreases 4 - level,
{
    if level < 4 {
        let above = level + 1;
        lemma_same_way(mem0, mem1, tables, root, page, above);
        walk::lemma_walk(mem0, tables, root, page, above);
        walk::lemma_slot(page, above);
        if let Some(t) = walk::table_at(mem0, root, page, above) {
            let i = walk::slot(page, above);
            lemma_alike(walk::word(mem1, t, i), walk::word(mem0, t, i));
        }
    }
}

/// What the processor marks harms nothing: the tables stay in order, the ways to
/// all pages are the same, and so are the pages that are mapped and the frames
/// that they are mapped to.
pub proof fn lemma_marks_harmless(mm: MemoryManager, mem0: Seq<PageTable>, mem1: Seq<PageTable>)
    requires
        mm.ready(mem0),
        marked(mem0, mem1, mm.tables()),
    ensures
        mm.ready(mem1),
        forall|r: int, p: int, l: nat|
            walk::is_root(mm.tables(), r) && 0 <= p < walk::page_limit() && 1 <= l
                <= 4 ==> #[trigger] walk::table_at(mem1, r, p, l) == walk::table_at(mem0, r, p, l),
        forall|r: int, p: int|
            walk::is_root(mm.tables(), r) && 0 <= p < walk::page_limit() ==> match (
                #[trigger] walk::mapping(mem1, r, p),
                walk::mapping(mem0, r, p),
            ) {
                (Some(a), Some(b)) => alike(a, b) && a.target() == b.target(),
                (None, None) => true,
                _ => false,
            },
{
    let tables = mm.tables();
    assert forall|f: int, i: int|
        tables.contains_key(f) && tables[f].level > 1 && 0 <= i
            < 512 implies #[trigger] walk::entry_ok(mem1, tables, f, i) by {
        assert(walk::entry_ok(mem0, tables, f, i));
        lemma_alike(walk::word(mem1, f, i), walk::word(mem0, f, i));
    }
    assert forall|r: int, p: int, l: nat|
        walk::is_root(tables, r) && 0 <= p < walk::page_limit() && 1 <= l
            <= 4 implies #[trigger] walk::table_at(mem1, r, p, l) == walk::table_at(
        mem0,
        r,
        p,
        l,
    ) by {
        lemma_same_way(mem0, mem1, tables, r, p, l);
    }
    assert forall|r: int, p: int|
        walk::is_root(tables, r) && 0 <= p < walk::page_limit() implies match (
        #[trigger] walk::mapping(mem1, r, p),
        walk::mapping(mem0, r, p),
    ) {
        (Some(a), Some(b)) => alike(a, b) && a.target() == b.target(),
        (None, None) => true,
        _ => false,
    } by {
        lemma_same_way(mem0, mem1, tables, r, p, 1);
        walk::lemma_walk(mem0, tables, r, p, 1);
        walk::lemma_slot(p, 1);
        if let Some(t) = walk::table_at(mem0, r, p, 1) {
            let i = walk::slot(p, 1);
            lemma_alike(walk::word(mem1, t, i), walk::word(mem0, t, i));
        }
    }
}

/// Pages that are backed stay so, with the same words, where the processor sets
/// marks.
pub proof fn lemma_marks_leave_memory(
    mm: MemoryManager,
    mem0: Seq<PageTable>,
    mem1: Seq<PageTable>,
    start: int,
    n: int,
)
    requires
        mm.ready(mem0),
        marked(mem0, mem1, mm.tables()),
        window::backed(mm, mem0, start, n),
    ensures
        window::backed(mm, mem1, start, n),
        window::words(mm, mem1, start, n) == window::words(mm, mem0, start, n),
{
    reveal(window::backed);
    lemma_marks_harmless(mm, mem0, mem1);
    let r = mm.root.0 as int / 4096;
    assert forall|i: int| 0 <= i < n implies #[trigger] window::holds(mm, mem1, start, i)
        && window::frame_at(mm, mem1, start, i) == window::frame_at(mm, mem0, start, i) by {
        assert(window::holds(mm, mem0, start, i));
        assert(0 <= start / 4096 + i < walk::page_limit());
        assert(walk::mapping(mem1, r, start / 4096 + i) is Some);
    }
    assert forall|i: int, j: int|
        0 <= i < j < n implies #[trigger] window::frame_at(mm, mem1, start, i)
        != #[trigger] window::frame_at(mm, mem1, start, j) by {
        assert(window::holds(mm, mem1, start, i) && window::holds(mm, mem1, start, j));
        assert(window::frame_at(mm, mem0, start, i) != window::frame_at(mm, mem0, start, j));
    }
    assert forall|k: int| 0 <= k < 512 * n implies #[trigger] window::words(mm, mem1, start, n)[k]
        == window::words(mm, mem0, start, n)[k] by {
        let i = k / 512;
        assert(window::holds(mm, mem1, start, i));
        let f = window::frame_at(mm, mem0, start, i);
        assert(!mm.is_table(f));
        assert(mem1[f] == mem0[f]);
    }
    assert(window::words(mm, mem1, start, n) =~= window::words(mm, mem0, start, n));
}

/// The heap stays in order, with the same words, where the processor sets marks.
pub proof fn lemma_marks_leave_heap(
    heap: HeapState,
    mm: MemoryManager,
    mem0: Seq<PageTable>,
    mem1: Seq<PageTable>,
)
    requires
        heap.wf(mm, mem0),
        heap.initialized,
        marked(mem0, mem1, mm.tables()),
    ensures
        heap.wf(mm, mem1),
        heap.words(mm, mem1) == heap.words(mm, mem0),
{
    lemma_marks_harmless(mm, mem0, mem1);
    lemma_marks_leave_memory(mm, mem0, mem1, heap.start as int, heap.pages());
}

} // verus!
