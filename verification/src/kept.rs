//! What stays as it was while something else is done with memory.

use vstd::prelude::*;
use crate::address_space;
use crate::context::KernelStack;
use crate::heap::HeapState;
use crate::paging;
use crate::paging::MemoryManager;
use crate::regions;
use crate::vmm::{PageTable, PageTableFlags};
use crate::walk;
use crate::window;

verus! {

/// From one state to another, what was in use stays in use, and what was a table
/// stays that table. Frames that were in use and were no tables hold what they
/// held, but for those in `ours`. Every root maps what it mapped, but for the
/// pages from `lo` to below `hi`: those are mapped under the kernel's root and
/// the roots that share its tables, and were not before. No frame came into use
/// but as a table, for one of those pages, or as one of `ours`.
#[verifier::opaque]
pub open spec fn kept(
    mm0: MemoryManager,
    mem0: Seq<PageTable>,
    mm1: MemoryManager,
    mem1: Seq<PageTable>,
    lo: int,
    hi: int,
    ours: Set<int>,
) -> bool {
    let root = mm0.root.0 as int / 4096;
    &&& mm1.root == mm0.root
    &&& mem1.len() == mem0.len()
    &&& mm1.pmm@.total() == mm0.pmm@.total()
    &&& forall|f: int| #[trigger]
        mm0.is_table(f) ==> mm1.is_table(f) && mm1.tables()[f] == mm0.tables()[f]
    &&& forall|f: int|
        0 <= f < mm0.pmm@.used.len() && mm0.pmm@.used[f] ==> #[trigger] mm1.pmm@.used[f]
    &&& forall|f: int|
        0 <= f < mem0.len() && !mm0.pmm@.is_free(f) && !mm0.is_table(f)
            ==> !#[trigger] mm1.is_table(f)
    &&& forall|f: int|
        0 <= f < mem0.len() && !mm0.pmm@.is_free(f) && !mm0.is_table(f) && !ours.contains(f)
            ==> #[trigger] mem1[f] == mem0[f]
    &&& forall|p: int|
        lo <= p < hi ==> 0 <= p < walk::page_limit() && #[trigger] walk::table_at(
            mem1,
            root,
            p,
            1,
        ) is Some
    &&& forall|r: int, p: int|
        walk::is_root(mm0.tables(), r) && 0 <= p < walk::page_limit() ==> if lo <= p < hi
            && walk::table_at(mem1, r, p, 1) == walk::table_at(mem1, root, p, 1) {
            walk::mapping(mem0, r, p) is None
        } else {
            #[trigger] walk::mapping(mem1, r, p) == walk::mapping(mem0, r, p)
        }
    &&& forall|f: int|
        0 <= f < mm0.pmm@.used.len() && #[trigger] mm1.pmm@.used[f] ==> mm0.pmm@.used[f] || (
        mm1.is_table(f) && !mm0.is_table(f)) || backs(mem1, root, lo, hi, f) || ours.contains(f)
}

/// One of the pages from `lo` to below `hi` is mapped to frame `f` under `root`.
pub open spec fn backs(mem: Seq<PageTable>, root: int, lo: int, hi: int, f: int) -> bool {
    exists|p: int| lo <= p < hi && #[trigger] paging::frame_of(mem, root, p) == f
}

/// All that was in use, and every mapping, is as it was; no frame came into use
/// but as a table.
pub open spec fn unchanged(
    mm0: MemoryManager,
    mem0: Seq<PageTable>,
    mm1: MemoryManager,
    mem1: Seq<PageTable>,
) -> bool {
    kept(mm0, mem0, mm1, mem1, 0, 0, Set::empty())
}

/// The frames in use are those that were, and the tables that were added.
pub open spec fn returned(mm0: MemoryManager, mm1: MemoryManager) -> bool {
    forall|f: int|
        0 <= f < mm0.pmm@.used.len() ==> #[trigger] mm1.pmm@.used[f] == (mm0.pmm@.used[f] || (
        mm1.is_table(f) && !mm0.is_table(f)))
}

/// Where all is as it was, every other frame has been given back.
pub proof fn lemma_returned(
    mm0: MemoryManager,
    mem0: Seq<PageTable>,
    mm1: MemoryManager,
    mem1: Seq<PageTable>,
)
    requires
        mm1.wf(mem1),
        unchanged(mm0, mem0, mm1, mem1),
    ensures
        returned(mm0, mm1),
{
    reveal(kept);
}

/// The frames that are free.
pub open spec fn free_frames(mm: MemoryManager) -> Set<int> {
    Set::new(|f: int| mm.pmm@.is_free(f))
}

/// The frames of the `n` pages from `start` on.
pub open spec fn frames_of(mm: MemoryManager, mem: Seq<PageTable>, start: int, n: int) -> Set<int> {
    Set::new(
        |f: int| exists|i: int| 0 <= i < n && #[trigger] window::frame_at(mm, mem, start, i) == f,
    )
}

/// The frames of the `n` pages from `start` on were free in the state of `mm0`,
/// or are among `ours`.
#[verifier::opaque]
pub open spec fn owned(
    mm0: MemoryManager,
    ours: Set<int>,
    mm: MemoryManager,
    mem: Seq<PageTable>,
    start: int,
    n: int,
) -> bool {
    forall|i: int|
        0 <= i < n ==> mm0.pmm@.is_free(#[trigger] window::frame_at(mm, mem, start, i))
            || ours.contains(window::frame_at(mm, mem, start, i))
}

/// The state that others are compared with, the pages that were mapped since,
/// and the frames that may be written.
pub struct Since {
    pub mm: MemoryManager,
    pub mem: Seq<PageTable>,
    pub lo: int,
    pub hi: int,
    pub ours: Set<int>,
}

impl Since {
    /// All else is as it was then.
    pub open spec fn holds(self, mm: MemoryManager, mem: Seq<PageTable>) -> bool {
        kept(self.mm, self.mem, mm, mem, self.lo, self.hi, self.ours)
    }

    /// With `n` more pages mapped.
    pub open spec fn plus(self, n: int) -> Since {
        Since { hi: self.hi + n, ..self }
    }

    /// With the first `n` pages unmapped.
    pub open spec fn minus(self, n: int) -> Since {
        Since { lo: self.lo + n, ..self }
    }

    /// The frames of the `n` pages from `start` on were free then, or may be
    /// written.
    pub open spec fn owns(
        self,
        mm: MemoryManager,
        mem: Seq<PageTable>,
        start: int,
        n: int,
    ) -> bool {
        owned(self.mm, self.ours, mm, mem, start, n)
    }

    /// The stack is backed by frames that were free then, or may be written.
    pub open spec fn owns_stack(
        self,
        s: KernelStack,
        mm: MemoryManager,
        mem: Seq<PageTable>,
    ) -> bool {
        self.owns(mm, mem, s.region.start.0 as int, s.region.pages())
    }
}

/// At first all is as it was.
pub proof fn lemma_kept_first(s: Since)
    requires
        s.lo == s.hi,
    ensures
        s.holds(s.mm, s.mem),
{
    reveal(kept);
}

/// Where no page is mapped since, it does not matter where.
pub proof fn lemma_kept_nowhere(s: Since, mm: MemoryManager, mem: Seq<PageTable>, at: int)
    requires
        s.holds(mm, mem),
        s.lo >= s.hi,
    ensures
        kept(s.mm, s.mem, mm, mem, at, at, s.ours),
{
    reveal(kept);
}

/// Managers that differ in the registry alone are compared alike.
pub proof fn lemma_kept_registry(
    s: Since,
    mm: MemoryManager,
    mm1: MemoryManager,
    mem1: Seq<PageTable>,
    mm2: MemoryManager,
)
    requires
        s.holds(mm1, mem1),
        mm.pmm == s.mm.pmm,
        mm.root == s.mm.root,
        mm.tables == s.mm.tables,
        mm2.pmm == mm1.pmm,
        mm2.root == mm1.root,
        mm2.tables == mm1.tables,
    ensures
        (Since { mm, ..s }).holds(mm2, mem1),
{
    reveal(kept);
    assert forall|f: int| #[trigger] mm.is_table(f) == s.mm.is_table(f) by {}
    assert forall|f: int| #[trigger] mm2.is_table(f) == mm1.is_table(f) by {}
    assert forall|f: int| #[trigger]
        mm.is_table(f) implies mm2.is_table(f) && mm2.tables()[f] == mm.tables()[f] by {
        assert(s.mm.is_table(f));
    }
    assert forall|f: int|
        0 <= f < s.mem.len() && !mm.pmm@.is_free(f) && !mm.is_table(f) implies !(
    #[trigger] mm2.is_table(f)) by {
        assert(!mm1.is_table(f));
    }
    assert forall|f: int| 0 <= f < mm.pmm@.used.len() && #[trigger] mm2.pmm@.used[f] implies
        mm.pmm@.used[f] || (mm2.is_table(f) && !mm.is_table(f)) || backs(
        mem1,
        mm.root.0 as int / 4096,
        s.lo,
        s.hi,
        f,
    ) || s.ours.contains(f) by {
        assert(mm1.pmm@.used[f]);
    }
}

/// Fresh pages behind those that were mapped since leave the rest.
pub proof fn lemma_kept_fresh(
    s: Since,
    mm1: MemoryManager,
    mem1: Seq<PageTable>,
    mm2: MemoryManager,
    mem2: Seq<PageTable>,
    start: u64,
    n: int,
    flags: PageTableFlags,
)
    requires
        s.mm.ready(s.mem),
        mm1.ready(mem1),
        s.holds(mm1, mem1),
        s.lo <= s.hi,
        walk::page_of(start) == s.hi,
        0 <= n <= mm1.pmm@.free_count(),
        start % 4096 == 0,
        start < window::LOWER_HALF_END,
        start + 4096 * n <= window::LOWER_HALF_END,
        flags.0 & 1 != 0,
        flags.0 & crate::vmm::ENTRY_ADDRESS_MASK == 0,
        regions::fresh_mapped(mm1, mem1, mm2, mem2, start, n, flags),
    ensures
        s.plus(n).holds(mm2, mem2),
        s.owns(mm2, mem2, start as int, n),
        window::backed(mm2, mem2, start as int, n),
{
    window::lemma_fresh_backed(mm1, mem1, mm2, mem2, start, n, flags);
    lemma_owns_fresh(s, mm1, mem1, mm2, mem2, start as int, n);
    assert(s.hi == start as int / 4096);
    reveal(kept);
    let root = s.mm.root.0 as int / 4096;
    assert(s.mm.is_table(root));
    assert(mm1.is_table(root));
    assert forall|f: int|
        0 <= f < s.mem.len() && !s.mm.pmm@.is_free(f) && !s.mm.is_table(f) implies !(
    #[trigger] mm2.is_table(f)) by {
        assert(!mm1.is_table(f));
        if mm2.is_table(f) {
            assert(mm1.pmm@.is_free(f));
            assert(0 <= f < s.mm.pmm@.used.len());
        }
    }
    assert forall|f: int|
        0 <= f < s.mm.pmm@.used.len() && s.mm.pmm@.used[f] implies #[trigger] mm2.pmm@.used[f] by {
        assert(mm1.pmm@.used[f]);
    }
    assert forall|f: int|
        0 <= f < s.mem.len() && !s.mm.pmm@.is_free(f) && !s.mm.is_table(f) && !s.ours.contains(
            f,
        ) implies #[trigger] mem2[f] == s.mem[f] by {
        assert(!mm2.is_table(f));
        assert(mem1[f] == s.mem[f]);
    }
    assert forall|f: int| #[trigger] s.mm.is_table(f) implies mm2.is_table(f) && mm2.tables()[f]
        == s.mm.tables()[f] by {
        assert(mm1.is_table(f));
    }
    assert forall|p: int| s.lo <= p < s.hi + n implies 0 <= p < walk::page_limit()
        && #[trigger] walk::table_at(mem2, root, p, 1) is Some by {
        if p < s.hi {
            assert(walk::table_at(mem1, root, p, 1) is Some);
        } else {
            assert(0 <= walk::page_of(start));
        }
    }
    assert forall|r: int, p: int|
        walk::is_root(s.mm.tables(), r) && 0 <= p < walk::page_limit() implies if s.lo <= p < s.hi
        + n && walk::table_at(mem2, r, p, 1) == walk::table_at(mem2, root, p, 1) {
        walk::mapping(s.mem, r, p) is None
    } else {
        #[trigger] walk::mapping(mem2, r, p) == walk::mapping(s.mem, r, p)
    } by {
        assert(s.mm.is_table(r));
        assert(mm1.is_table(r));
        assert(walk::mapping(mem1, r, p) == walk::mapping(mem1, r, p));
        if s.lo <= p < s.hi {
            assert(walk::table_at(mem1, root, p, 1) is Some);
            lemma_sharing_kept(mm1, mem1, mem2, r, root, p);
        }
    }
    assert forall|f: int| 0 <= f < s.mm.pmm@.used.len() && #[trigger] mm2.pmm@.used[f] implies
        s.mm.pmm@.used[f] || (mm2.is_table(f) && !s.mm.is_table(f)) || backs(
        mem2,
        root,
        s.lo,
        s.hi + n,
        f,
    ) || s.ours.contains(f) by {
        let pool = mm1.pmm@;
        let c = crate::pmm::count_free(pool.used, f as nat) as int;
        assert(mm2.pmm@.used[f] == (pool.used[f] || (pool.is_free(f) && c < n) || (mm2.is_table(f)
            && !mm1.is_table(f))));
        if mm1.pmm@.used[f] {
            if mm1.is_table(f) {
                assert(mm2.is_table(f));
            }
        } else if pool.is_free(f) && c < n {
            crate::pmm::lemma_among_first(pool, n, f);
            assert(window::frame_at(mm2, mem2, start as int, c) == f);
            assert(paging::frame_of(mem2, root, s.hi + c) == f);
        } else if s.mm.is_table(f) {
            assert(mm1.is_table(f));
        }
        if mm1.pmm@.used[f] && !s.mm.pmm@.used[f] && backs(mem1, root, s.lo, s.hi, f) {
            let p = choose|p: int|
                s.lo <= p < s.hi && #[trigger] paging::frame_of(mem1, root, p) == f;
            assert(0 <= p < walk::page_limit()) by {
                assert(walk::table_at(mem1, root, p, 1) is Some);
            }
            assert(walk::mapping(mem2, root, p) == walk::mapping(mem1, root, p));
            assert(paging::frame_of(mem2, root, p) == f);
        }
    }
}

/// Two roots have a table in common where they had it before, if one of them had
/// a table there.
proof fn lemma_sharing_kept(
    mm: MemoryManager,
    mem1: Seq<PageTable>,
    mem2: Seq<PageTable>,
    r: int,
    root: int,
    p: int,
)
    requires
        mm.wf(mem1),
        walk::is_root(mm.tables(), r),
        walk::is_root(mm.tables(), root),
        0 <= p < walk::page_limit(),
        walk::walks_grow(mem1, mem2, mm.tables()),
        walk::table_at(mem1, root, p, 1) is Some,
    ensures
        walk::table_at(mem2, root, p, 1) == walk::table_at(mem1, root, p, 1),
        walk::table_at(mem2, r, p, 1) == walk::table_at(mem2, root, p, 1) <==> walk::table_at(
            mem1,
            r,
            p,
            1,
        ) == walk::table_at(mem1, root, p, 1),
{
    walk::lemma_walk(mem1, mm.tables(), root, p, 1);
    assert(walk::table_at(mem2, root, p, 1) == walk::table_at(mem1, root, p, 1));
    if walk::table_at(mem1, r, p, 1) is Some {
        assert(walk::table_at(mem2, r, p, 1) == walk::table_at(mem1, r, p, 1));
    }
}

/// Added tables leave the rest.
pub proof fn lemma_kept_tables(
    s: Since,
    mm1: MemoryManager,
    mem1: Seq<PageTable>,
    mm2: MemoryManager,
    mem2: Seq<PageTable>,
)
    requires
        s.mm.ready(s.mem),
        mm1.ready(mem1),
        s.holds(mm1, mem1),
        paging::tables_added(mm1, mem1, mm2, mem2),
        walk::same_mappings(mem1, mem2, mm1.tables()),
    ensures
        s.holds(mm2, mem2),
{
    reveal(kept);
    let root = s.mm.root.0 as int / 4096;
    assert(s.mm.is_table(root));
    assert(mm1.is_table(root));
    assert forall|f: int|
        0 <= f < s.mem.len() && !s.mm.pmm@.is_free(f) && !s.mm.is_table(f) implies !(
    #[trigger] mm2.is_table(f)) by {
        assert(!mm1.is_table(f));
        if mm2.is_table(f) {
            assert(mm1.pmm@.is_free(f));
            assert(0 <= f < s.mm.pmm@.used.len());
        }
    }
    assert forall|f: int|
        0 <= f < s.mm.pmm@.used.len() && s.mm.pmm@.used[f] implies #[trigger] mm2.pmm@.used[f] by {
        assert(mm1.pmm@.used[f]);
    }
    assert forall|f: int|
        0 <= f < s.mem.len() && !s.mm.pmm@.is_free(f) && !s.mm.is_table(f) && !s.ours.contains(
            f,
        ) implies #[trigger] mem2[f] == s.mem[f] by {
        assert(!mm2.is_table(f));
        assert(mem1[f] == s.mem[f]);
    }
    assert forall|f: int| #[trigger] s.mm.is_table(f) implies mm2.is_table(f) && mm2.tables()[f]
        == s.mm.tables()[f] by {
        assert(mm1.is_table(f));
    }
    assert forall|p: int| s.lo <= p < s.hi implies #[trigger] walk::table_at(mem2, root, p, 1) is Some by {
        assert(walk::table_at(mem1, root, p, 1) is Some);
    }
    assert forall|r: int, p: int|
        walk::is_root(s.mm.tables(), r) && 0 <= p < walk::page_limit() implies if s.lo <= p < s.hi
        && walk::table_at(mem2, r, p, 1) == walk::table_at(mem2, root, p, 1) {
        walk::mapping(s.mem, r, p) is None
    } else {
        #[trigger] walk::mapping(mem2, r, p) == walk::mapping(s.mem, r, p)
    } by {
        assert(s.mm.is_table(r));
        assert(mm1.is_table(r));
        assert(walk::mapping(mem1, r, p) == walk::mapping(mem1, r, p));
        if s.lo <= p < s.hi {
            assert(walk::table_at(mem1, root, p, 1) is Some);
            lemma_sharing_kept(mm1, mem1, mem2, r, root, p);
        }
    }
    assert forall|f: int| 0 <= f < s.mm.pmm@.used.len() && #[trigger] mm2.pmm@.used[f] implies
        s.mm.pmm@.used[f] || (mm2.is_table(f) && !s.mm.is_table(f)) || backs(
        mem2,
        root,
        s.lo,
        s.hi,
        f,
    ) || s.ours.contains(f) by {
        assert(mm2.pmm@.used[f] == (mm1.pmm@.used[f] || (mm2.is_table(f) && !mm1.is_table(f))));
        if mm1.pmm@.used[f] {
            if mm1.is_table(f) {
                assert(mm2.is_table(f));
            }
        } else if s.mm.is_table(f) {
            assert(mm1.is_table(f));
        }
        if mm1.pmm@.used[f] && !s.mm.pmm@.used[f] && backs(mem1, root, s.lo, s.hi, f) {
            let p = choose|p: int|
                s.lo <= p < s.hi && #[trigger] paging::frame_of(mem1, root, p) == f;
            assert(0 <= p < walk::page_limit()) by {
                assert(walk::table_at(mem1, root, p, 1) is Some);
            }
            assert(walk::mapping(mem2, root, p) == walk::mapping(mem1, root, p));
            assert(paging::frame_of(mem2, root, p) == f);
        }
    }
}

/// Writing to pages whose frames may be written leaves the rest.
pub proof fn lemma_kept_write(
    s: Since,
    mm: MemoryManager,
    mem1: Seq<PageTable>,
    mem2: Seq<PageTable>,
    start: int,
    n: int,
)
    requires
        s.mm.ready(s.mem),
        mm.ready(mem1),
        s.holds(mm, mem1),
        window::backed(mm, mem1, start, n),
        window::only_within(mm, mem1, mem2, start, n),
        s.owns(mm, mem1, start, n),
    ensures
        s.holds(mm, mem2),
{
    reveal(kept);
    window::lemma_tables_kept(mm, mem1, mem2, start, n);
    reveal(window::only_within);
    reveal(owned);
    let root = s.mm.root.0 as int / 4096;
    assert(s.mm.is_table(root));
    assert(mm.is_table(root));
    assert forall|f: int|
        0 <= f < s.mem.len() && !s.mm.pmm@.is_free(f) && !s.mm.is_table(f) && !s.ours.contains(
            f,
        ) implies #[trigger] mem2[f] == s.mem[f] by {
        assert forall|i: int| 0 <= i < n implies f != #[trigger] window::frame_at(
            mm,
            mem1,
            start,
            i,
        ) by {}
        assert(mem1[f] == s.mem[f]);
    }
    assert forall|p: int| s.lo <= p < s.hi implies #[trigger] walk::table_at(mem2, root, p, 1) is Some by {
        assert(walk::table_at(mem1, root, p, 1) is Some);
    }
    assert forall|r: int, p: int|
        walk::is_root(s.mm.tables(), r) && 0 <= p < walk::page_limit() implies if s.lo <= p < s.hi
        && walk::table_at(mem2, r, p, 1) == walk::table_at(mem2, root, p, 1) {
        walk::mapping(s.mem, r, p) is None
    } else {
        #[trigger] walk::mapping(mem2, r, p) == walk::mapping(s.mem, r, p)
    } by {
        assert(s.mm.is_table(r));
        assert(mm.is_table(r));
        assert(walk::mapping(mem1, r, p) == walk::mapping(mem1, r, p));
        assert(walk::table_at(mem2, r, p, 1) == walk::table_at(mem1, r, p, 1));
        assert(walk::table_at(mem2, root, p, 1) == walk::table_at(mem1, root, p, 1));
    }
    assert forall|f: int| 0 <= f < s.mm.pmm@.used.len() && #[trigger] mm.pmm@.used[f] implies
        s.mm.pmm@.used[f] || (mm.is_table(f) && !s.mm.is_table(f)) || backs(
        mem2,
        root,
        s.lo,
        s.hi,
        f,
    ) || s.ours.contains(f) by {
        if !s.mm.pmm@.used[f] && backs(mem1, root, s.lo, s.hi, f) {
            let p = choose|p: int|
                s.lo <= p < s.hi && #[trigger] paging::frame_of(mem1, root, p) == f;
            assert(0 <= p < walk::page_limit()) by {
                assert(walk::table_at(mem1, root, p, 1) is Some);
            }
            assert(walk::mapping(mem2, root, p) == walk::mapping(mem1, root, p));
            assert(paging::frame_of(mem2, root, p) == f);
        }
    }
}

/// A new address space leaves the rest.
pub proof fn lemma_kept_space(
    s: Since,
    mm1: MemoryManager,
    mem1: Seq<PageTable>,
    mm2: MemoryManager,
    mem2: Seq<PageTable>,
    c: int,
)
    requires
        s.mm.ready(s.mem),
        mm1.ready(mem1),
        s.holds(mm1, mem1),
        0 < c,
        address_space::space_created(mm1, mem1, mm2, mem2, c),
    ensures
        s.holds(mm2, mem2),
{
    reveal(kept);
    address_space::lemma_space_created(mm1, mem1, mm2, mem2, c);
    let root = s.mm.root.0 as int / 4096;
    assert(s.mm.is_table(root));
    assert(mm1.is_table(root));
    assert forall|f: int|
        0 <= f < s.mem.len() && !s.mm.pmm@.is_free(f) && !s.mm.is_table(f) implies !(
    #[trigger] mm2.is_table(f)) && f != c by {
        assert(!mm1.is_table(f));
        assert(0 <= f < s.mm.pmm@.used.len() || f != c);
    }
    assert forall|f: int|
        0 <= f < s.mm.pmm@.used.len() && s.mm.pmm@.used[f] implies #[trigger] mm2.pmm@.used[f] by {
        assert(mm1.pmm@.used[f]);
    }
    assert forall|f: int|
        0 <= f < s.mem.len() && !s.mm.pmm@.is_free(f) && !s.mm.is_table(f) && !s.ours.contains(
            f,
        ) implies #[trigger] mem2[f] == s.mem[f] by {
        assert(!mm2.is_table(f));
        assert(mem1[f] == s.mem[f]);
    }
    assert forall|f: int| #[trigger] s.mm.is_table(f) implies mm2.is_table(f) && mm2.tables()[f]
        == s.mm.tables()[f] by {
        assert(mm1.is_table(f));
        assert(f != c);
    }
    assert forall|p: int| s.lo <= p < s.hi implies #[trigger] walk::table_at(mem2, root, p, 1) is Some by {
        assert(walk::table_at(mem1, root, p, 1) is Some);
    }
    assert forall|r: int, p: int|
        walk::is_root(s.mm.tables(), r) && 0 <= p < walk::page_limit() implies if s.lo <= p < s.hi
        && walk::table_at(mem2, r, p, 1) == walk::table_at(mem2, root, p, 1) {
        walk::mapping(s.mem, r, p) is None
    } else {
        #[trigger] walk::mapping(mem2, r, p) == walk::mapping(s.mem, r, p)
    } by {
        assert(s.mm.is_table(r));
        assert(mm1.is_table(r));
        assert(walk::mapping(mem1, r, p) == walk::mapping(mem1, r, p));
        assert(walk::table_at(mem2, r, p, 1) == walk::table_at(mem1, r, p, 1));
        assert(walk::table_at(mem2, root, p, 1) == walk::table_at(mem1, root, p, 1));
    }
    assert forall|f: int| 0 <= f < s.mm.pmm@.used.len() && #[trigger] mm2.pmm@.used[f] implies
        s.mm.pmm@.used[f] || (mm2.is_table(f) && !s.mm.is_table(f)) || backs(
        mem2,
        root,
        s.lo,
        s.hi,
        f,
    ) || s.ours.contains(f) by {
        if mm1.pmm@.used[f] {
            if mm1.is_table(f) {
                assert(mm2.is_table(f));
            }
        } else {
            assert(f == c);
            if s.mm.is_table(f) {
                assert(mm1.is_table(f));
            }
            assert(mm2.is_table(f));
        }
        if mm1.pmm@.used[f] && !s.mm.pmm@.used[f] && backs(mem1, root, s.lo, s.hi, f) {
            let p = choose|p: int|
                s.lo <= p < s.hi && #[trigger] paging::frame_of(mem1, root, p) == f;
            assert(0 <= p < walk::page_limit()) by {
                assert(walk::table_at(mem1, root, p, 1) is Some);
            }
            assert(walk::mapping(mem2, root, p) == walk::mapping(mem1, root, p));
            assert(paging::frame_of(mem2, root, p) == f);
        }
    }
}

/// Unmapping the first of the pages that were mapped since, and giving back
/// frames that were free then, leaves the rest.
pub proof fn lemma_kept_unmap(
    s: Since,
    mm1: MemoryManager,
    mem1: Seq<PageTable>,
    mm2: MemoryManager,
    mem2: Seq<PageTable>,
    n: int,
)
    requires
        s.mm.ready(s.mem),
        mm1.ready(mem1),
        s.holds(mm1, mem1),
        0 <= n,
        s.lo + n <= s.hi,
        mm2.root == mm1.root,
        mm2.tables() == mm1.tables(),
        mm2.pmm@.total() == mm1.pmm@.total(),
        mm2.pmm@.wf(),
        paging::pages_unmapped(
            mm1,
            mem1,
            mem2,
            s.mm.root.0 as int / 4096,
            s.lo,
            s.lo + n,
        ),
        forall|f: int|
            0 <= f < s.mm.pmm@.used.len() ==> #[trigger] mm2.pmm@.used[f] == (mm1.pmm@.used[f]
                && !(backs(mem1, s.mm.root.0 as int / 4096, s.lo, s.lo + n, f))),
        forall|f: int|
            #[trigger] backs(mem1, s.mm.root.0 as int / 4096, s.lo, s.lo + n, f)
                ==> s.mm.pmm@.is_free(f),
    ensures
        s.minus(n).holds(mm2, mem2),
{
    reveal(kept);
    let root = s.mm.root.0 as int / 4096;
    assert(s.mm.is_table(root));
    assert(mm1.is_table(root));
    assert forall|f: int|
        0 <= f < s.mem.len() && !s.mm.pmm@.is_free(f) && !s.mm.is_table(f) implies !(
    #[trigger] mm2.is_table(f)) by {
        assert(!mm1.is_table(f));
    }
    assert forall|f: int|
        0 <= f < s.mem.len() && !s.mm.pmm@.is_free(f) && !s.mm.is_table(f) && !s.ours.contains(
            f,
        ) implies #[trigger] mem2[f] == s.mem[f] by {
        assert(!mm1.is_table(f));
        assert(mem1[f] == s.mem[f]);
    }
    assert forall|f: int|
        0 <= f < s.mm.pmm@.used.len() && s.mm.pmm@.used[f] implies #[trigger] mm2.pmm@.used[f] by {
        assert(mm1.pmm@.used[f]);
        assert(!backs(mem1, root, s.lo, s.lo + n, f));
    }
    assert forall|f: int| #[trigger] s.mm.is_table(f) implies mm2.is_table(f) && mm2.tables()[f]
        == s.mm.tables()[f] by {
        assert(mm1.is_table(f));
    }
    assert forall|p: int| s.lo + n <= p < s.hi implies #[trigger] walk::table_at(
        mem2,
        root,
        p,
        1,
    ) is Some by {
        assert(walk::table_at(mem1, root, p, 1) is Some);
    }
    assert forall|r: int, p: int|
        walk::is_root(s.mm.tables(), r) && 0 <= p < walk::page_limit() implies if s.lo + n <= p
        < s.hi && walk::table_at(mem2, r, p, 1) == walk::table_at(mem2, root, p, 1) {
        walk::mapping(s.mem, r, p) is None
    } else {
        #[trigger] walk::mapping(mem2, r, p) == walk::mapping(s.mem, r, p)
    } by {
        assert(s.mm.is_table(r));
        assert(mm1.is_table(r));
        assert(walk::mapping(mem1, r, p) == walk::mapping(mem1, r, p));
        assert(walk::table_at(mem2, r, p, 1) == walk::table_at(mem1, r, p, 1));
        assert(walk::table_at(mem2, root, p, 1) == walk::table_at(mem1, root, p, 1));
    }
    assert forall|f: int| 0 <= f < s.mm.pmm@.used.len() && #[trigger] mm2.pmm@.used[f] implies
        s.mm.pmm@.used[f] || (mm2.is_table(f) && !s.mm.is_table(f)) || backs(
        mem2,
        root,
        s.lo + n,
        s.hi,
        f,
    ) || s.ours.contains(f) by {
        assert(mm1.pmm@.used[f]);
        assert(!backs(mem1, root, s.lo, s.lo + n, f));
        assert(mm2.is_table(f) == mm1.is_table(f));
        if !s.mm.pmm@.used[f] && backs(mem1, root, s.lo, s.hi, f) {
            let p = choose|p: int|
                s.lo <= p < s.hi && #[trigger] paging::frame_of(mem1, root, p) == f;
            assert(0 <= p < walk::page_limit()) by {
                assert(walk::table_at(mem1, root, p, 1) is Some);
            }
            assert(p >= s.lo + n);
            assert(walk::mapping(mem2, root, p) == walk::mapping(mem1, root, p));
            assert(paging::frame_of(mem2, root, p) == f);
        }
    }
}

/// Root `a`, which was none then, shares no table on the way to `page` with the
/// roots of then.
#[verifier::opaque]
pub open spec fn apart_from(
    mm0: MemoryManager,
    mem: Seq<PageTable>,
    a: int,
    page: int,
) -> bool {
    &&& !mm0.is_table(a)
    &&& forall|r: int| #[trigger]
        walk::is_root(mm0.tables(), r) ==> !walk::shares(mem, a, r, page)
}

/// A new root is apart from the roots of then where it shares no entry.
pub proof fn lemma_space_apart(
    s: Since,
    mm1: MemoryManager,
    mem1: Seq<PageTable>,
    mm2: MemoryManager,
    mem2: Seq<PageTable>,
    c: int,
    page: int,
)
    requires
        s.mm.ready(s.mem),
        mm1.ready(mem1),
        s.holds(mm1, mem1),
        0 < c,
        0 <= page < walk::page_limit(),
        !address_space::shared_slot(walk::slot(page, 4)),
        address_space::space_created(mm1, mem1, mm2, mem2, c),
    ensures
        apart_from(s.mm, mem2, c, page),
        s.mm.pmm@.is_free(c),
        forall|a: int|
            walk::is_root(mm1.tables(), a) && #[trigger] apart_from(s.mm, mem1, a, page)
                ==> apart_from(s.mm, mem2, a, page),
{
    reveal(apart_from);
    reveal(kept);
    address_space::lemma_space_created(mm1, mem1, mm2, mem2, c);
    assert forall|r: int| #[trigger] walk::is_root(s.mm.tables(), r) implies !walk::shares(
        mem2,
        c,
        r,
        page,
    ) && walk::is_root(mm1.tables(), r) by {
        assert(s.mm.is_table(r));
        assert(mm1.is_table(r));
    }
    assert(!mm1.pmm@.used[c]);
    assert(s.mm.pmm@.is_free(c));
    assert(!s.mm.is_table(c));
    assert forall|a: int|
        walk::is_root(mm1.tables(), a) && #[trigger] apart_from(
            s.mm,
            mem1,
            a,
            page,
        ) implies apart_from(s.mm, mem2, a, page) by {
        lemma_apart_same(s.mm, mm1, mem1, mem2, a, page);
    }
}

/// What is apart stays so while the ways are the same.
pub proof fn lemma_apart_same(
    mm0: MemoryManager,
    mm1: MemoryManager,
    mem1: Seq<PageTable>,
    mem2: Seq<PageTable>,
    a: int,
    page: int,
)
    requires
        apart_from(mm0, mem1, a, page),
        0 <= page < walk::page_limit(),
        walk::is_root(mm1.tables(), a),
        forall|r: int| #[trigger]
            walk::is_root(mm0.tables(), r) ==> walk::is_root(mm1.tables(), r),
        forall|r: int, p: int, l: nat|
            walk::is_root(mm1.tables(), r) && 0 <= p < walk::page_limit() && 1 <= l <= 4
                ==> #[trigger] walk::table_at(mem2, r, p, l) == walk::table_at(mem1, r, p, l),
    ensures
        apart_from(mm0, mem2, a, page),
{
    reveal(apart_from);
    assert forall|r: int| #[trigger] walk::is_root(mm0.tables(), r) implies !walk::shares(
        mem2,
        a,
        r,
        page,
    ) by {
        if walk::shares(mem2, a, r, page) {
            let l = choose|l: nat|
                1 <= l <= 3 && #[trigger] walk::table_at(mem2, a, page, l) is Some
                    && walk::table_at(mem2, a, page, l) == walk::table_at(mem2, r, page, l);
            assert(walk::table_at(mem1, a, page, l) is Some);
            assert(walk::table_at(mem1, r, page, l) == walk::table_at(mem2, r, page, l));
            assert(walk::shares(mem1, a, r, page));
        }
    }
}

/// What is apart stays so while tables are added.
pub proof fn lemma_apart_grown(
    s: Since,
    mm1: MemoryManager,
    mem1: Seq<PageTable>,
    mem2: Seq<PageTable>,
    a: int,
    page: int,
)
    requires
        s.holds(mm1, mem1),
        apart_from(s.mm, mem1, a, page),
        0 <= page < walk::page_limit(),
        walk::is_root(mm1.tables(), a),
        walk::walks_grow(mem1, mem2, mm1.tables()),
    ensures
        apart_from(s.mm, mem2, a, page),
{
    reveal(apart_from);
    reveal(kept);
    assert forall|r: int| #[trigger] walk::is_root(s.mm.tables(), r) implies !walk::shares(
        mem2,
        a,
        r,
        page,
    ) by {
        assert(s.mm.is_table(r));
        assert(mm1.is_table(r));
        assert(!walk::shares(mem1, a, r, page));
    }
}

/// A frame that is handed out is one of ours.
pub proof fn lemma_kept_taken(
    s: Since,
    mm1: MemoryManager,
    mem: Seq<PageTable>,
    mm2: MemoryManager,
    f: int,
)
    requires
        s.mm.ready(s.mem),
        mm1.ready(mem),
        s.holds(mm1, mem),
        mm1.pmm@.is_free(f),
        mm2.pmm@ == mm1.pmm@.take(f),
        mm2.root == mm1.root,
        mm2.tables() == mm1.tables(),
    ensures
        (Since { ours: s.ours.insert(f), ..s }).holds(mm2, mem),
        s.mm.pmm@.is_free(f),
{
    reveal(kept);
    let root = s.mm.root.0 as int / 4096;
    assert forall|g: int| #[trigger] mm2.is_table(g) == mm1.is_table(g) by {}
    assert forall|g: int| 0 <= g < s.mm.pmm@.used.len() && #[trigger] mm2.pmm@.used[g] implies
        s.mm.pmm@.used[g] || (mm2.is_table(g) && !s.mm.is_table(g)) || backs(
        mem,
        root,
        s.lo,
        s.hi,
        g,
    ) || s.ours.insert(f).contains(g) by {
        if g != f {
            assert(mm1.pmm@.used[g]);
        }
    }
    assert forall|g: int| 0 <= g < s.mm.pmm@.used.len() && s.mm.pmm@.used[g] implies
        #[trigger] mm2.pmm@.used[g] by {
        assert(mm1.pmm@.used[g]);
    }
    assert(!s.mm.pmm@.used[f]);
}

/// A frame that was free then and is given back is none of ours any more, nor a
/// table.
pub proof fn lemma_kept_given(
    s: Since,
    mm1: MemoryManager,
    mem: Seq<PageTable>,
    mm2: MemoryManager,
    f: int,
)
    requires
        s.mm.ready(s.mem),
        mm1.ready(mem),
        s.holds(mm1, mem),
        s.lo >= s.hi,
        s.mm.pmm@.is_free(f),
        mm2.pmm@ == mm1.pmm@.give(f),
        mm2.root == mm1.root,
        mm2.tables() == mm1.tables().remove(f),
    ensures
        (Since { ours: s.ours.remove(f), ..s }).holds(mm2, mem),
{
    reveal(kept);
    let root = s.mm.root.0 as int / 4096;
    assert(!s.mm.is_table(f));
    assert forall|g: int| g != f implies #[trigger] mm2.is_table(g) == mm1.is_table(g) by {}
    assert forall|g: int| #[trigger] s.mm.is_table(g) implies mm2.is_table(g) && mm2.tables()[g]
        == s.mm.tables()[g] by {
        assert(mm1.is_table(g));
    }
    assert forall|g: int|
        0 <= g < s.mem.len() && !s.mm.pmm@.is_free(g) && !s.mm.is_table(g) implies !(
    #[trigger] mm2.is_table(g)) by {
        assert(!mm1.is_table(g));
    }
    assert forall|g: int| 0 <= g < s.mm.pmm@.used.len() && #[trigger] mm2.pmm@.used[g] implies
        s.mm.pmm@.used[g] || (mm2.is_table(g) && !s.mm.is_table(g)) || backs(
        mem,
        root,
        s.lo,
        s.hi,
        g,
    ) || s.ours.remove(f).contains(g) by {
        assert(g != f);
        assert(mm1.pmm@.used[g]);
    }
    assert forall|g: int| 0 <= g < s.mm.pmm@.used.len() && s.mm.pmm@.used[g] implies
        #[trigger] mm2.pmm@.used[g] by {
        assert(mm1.pmm@.used[g]);
    }
}

/// More frames may be ours.
pub proof fn lemma_kept_wider(s: Since, mm: MemoryManager, mem: Seq<PageTable>, more: Set<int>)
    requires
        s.holds(mm, mem),
        s.ours.subset_of(more),
    ensures
        (Since { ours: more, ..s }).holds(mm, mem),
{
    reveal(kept);
}

/// Mapping a page under a root apart from those of then leaves them.
pub proof fn lemma_kept_page(
    s: Since,
    mm1: MemoryManager,
    mem1: Seq<PageTable>,
    mm2: MemoryManager,
    mem2: Seq<PageTable>,
    a: int,
    page: int,
    entry: crate::vmm::PageTableEntry,
)
    requires
        s.mm.ready(s.mem),
        mm1.ready(mem1),
        s.holds(mm1, mem1),
        s.lo >= s.hi,
        walk::is_root(mm1.tables(), a),
        0 <= page < walk::page_limit(),
        apart_from(s.mm, mem1, a, page),
        paging::page_mapped(mm1, mem1, mm2, mem2, a, page, entry),
    ensures
        s.holds(mm2, mem2),
        apart_from(s.mm, mem2, a, page),
{
    reveal(apart_from);
    let root = s.mm.root.0 as int / 4096;
    assert forall|r: int| #[trigger] walk::is_root(s.mm.tables(), r) implies !walk::shares(
        mem2,
        a,
        r,
        page,
    ) && walk::is_root(mm1.tables(), r) by {
        reveal(kept);
        assert(s.mm.is_table(r));
        assert(mm1.is_table(r));
        assert(!walk::shares(mem1, a, r, page));
    }
    reveal(kept);
    assert forall|f: int|
        0 <= f < s.mem.len() && !s.mm.pmm@.is_free(f) && !s.mm.is_table(f) implies !(
    #[trigger] mm2.is_table(f)) by {
        assert(!mm1.is_table(f));
        if mm2.is_table(f) {
            assert(mm1.pmm@.is_free(f));
            assert(0 <= f < s.mm.pmm@.used.len());
        }
    }
    assert forall|f: int|
        0 <= f < s.mm.pmm@.used.len() && s.mm.pmm@.used[f] implies #[trigger] mm2.pmm@.used[f] by {
        assert(mm1.pmm@.used[f]);
    }
    assert forall|f: int|
        0 <= f < s.mem.len() && !s.mm.pmm@.is_free(f) && !s.mm.is_table(f) && !s.ours.contains(
            f,
        ) implies #[trigger] mem2[f] == s.mem[f] by {
        assert(!mm2.is_table(f));
        assert(mem1[f] == s.mem[f]);
    }
    assert forall|f: int| #[trigger] s.mm.is_table(f) implies mm2.is_table(f) && mm2.tables()[f]
        == s.mm.tables()[f] by {
        assert(mm1.is_table(f));
    }
    assert forall|r: int, p: int|
        walk::is_root(s.mm.tables(), r) && 0 <= p < walk::page_limit() implies #[trigger] walk::mapping(
        mem2,
        r,
        p,
    ) == walk::mapping(s.mem, r, p) by {
        assert(walk::is_root(mm1.tables(), r));
        assert(walk::mapping(mem1, r, p) == walk::mapping(s.mem, r, p));
        if p == page {
            assert(walk::table_at(mem2, a, page, 1) is Some);
            assert(walk::table_at(mem2, a, page, 1) != walk::table_at(mem2, r, page, 1));
        }
    }
    assert forall|f: int| 0 <= f < s.mm.pmm@.used.len() && #[trigger] mm2.pmm@.used[f] implies
        s.mm.pmm@.used[f] || (mm2.is_table(f) && !s.mm.is_table(f)) || backs(
        mem2,
        root,
        s.lo,
        s.hi,
        f,
    ) || s.ours.contains(f) by {
        assert(mm2.pmm@.used[f] == (mm1.pmm@.used[f] || (mm2.is_table(f) && !mm1.is_table(f))));
        if mm1.pmm@.used[f] {
            if mm1.is_table(f) {
                assert(mm2.is_table(f));
            }
        } else if s.mm.is_table(f) {
            assert(mm1.is_table(f));
        }
    }
}

/// Unmapping a page under such a root leaves them too.
pub proof fn lemma_kept_unpage(
    s: Since,
    mm: MemoryManager,
    mem1: Seq<PageTable>,
    mem2: Seq<PageTable>,
    a: int,
    page: int,
)
    requires
        s.mm.ready(s.mem),
        mm.ready(mem1),
        s.holds(mm, mem1),
        s.lo >= s.hi,
        walk::is_root(mm.tables(), a),
        0 <= page < walk::page_limit(),
        walk::table_at(mem1, a, page, 1) is Some,
        apart_from(s.mm, mem1, a, page),
        paging::pages_unmapped(mm, mem1, mem2, a, page, page + 1),
    ensures
        s.holds(mm, mem2),
{
    reveal(apart_from);
    reveal(kept);
    assert forall|r: int, p: int|
        walk::is_root(s.mm.tables(), r) && 0 <= p < walk::page_limit() implies #[trigger] walk::mapping(
        mem2,
        r,
        p,
    ) == walk::mapping(s.mem, r, p) by {
        assert(s.mm.is_table(r));
        assert(mm.is_table(r));
        assert(walk::mapping(mem1, r, p) == walk::mapping(s.mem, r, p));
        if p == page {
            assert(!walk::shares(mem1, a, r, page));
            assert(walk::table_at(mem1, a, page, 1) != walk::table_at(mem1, r, page, 1));
        }
    }
    assert forall|f: int|
        0 <= f < s.mem.len() && !s.mm.pmm@.is_free(f) && !s.mm.is_table(f) && !s.ours.contains(
            f,
        ) implies #[trigger] mem2[f] == s.mem[f] by {
        assert(!mm.is_table(f));
        assert(mem1[f] == s.mem[f]);
    }
}

/// Writing to a frame that was free then leaves the rest.
pub proof fn lemma_kept_poke(
    s: Since,
    mm: MemoryManager,
    mem1: Seq<PageTable>,
    mem2: Seq<PageTable>,
    f: int,
)
    requires
        s.mm.ready(s.mem),
        mm.ready(mem1),
        s.holds(mm, mem1),
        s.lo >= s.hi,
        s.mm.pmm@.is_free(f),
        mem2.len() == mem1.len(),
        walk::same_mappings(mem1, mem2, mm.tables()),
        forall|g: int| 0 <= g < mem1.len() && g != f ==> #[trigger] mem2[g] == mem1[g],
    ensures
        s.holds(mm, mem2),
{
    reveal(kept);
    assert forall|r: int, p: int|
        walk::is_root(s.mm.tables(), r) && 0 <= p < walk::page_limit() implies #[trigger] walk::mapping(
        mem2,
        r,
        p,
    ) == walk::mapping(s.mem, r, p) by {
        assert(s.mm.is_table(r));
        assert(mm.is_table(r));
        assert(walk::mapping(mem1, r, p) == walk::mapping(s.mem, r, p));
    }
    assert forall|g: int|
        0 <= g < s.mem.len() && !s.mm.pmm@.is_free(g) && !s.mm.is_table(g) && !s.ours.contains(
            g,
        ) implies #[trigger] mem2[g] == s.mem[g] by {
        assert(mem1[g] == s.mem[g]);
    }
}

/// Fresh frames were free then.
pub proof fn lemma_owns_fresh(
    s: Since,
    mm1: MemoryManager,
    mem1: Seq<PageTable>,
    mm2: MemoryManager,
    mem2: Seq<PageTable>,
    start: int,
    n: int,
)
    requires
        s.mm.pmm@.wf(),
        mm1.pmm@.wf(),
        s.holds(mm1, mem1),
        n <= mm1.pmm@.free_count(),
        forall|i: int|
            0 <= i < n ==> #[trigger] window::frame_at(mm2, mem2, start, i) == mm1.pmm@.nth_free(i),
    ensures
        s.owns(mm2, mem2, start, n),
{
    reveal(kept);
    reveal(owned);
    assert forall|i: int| 0 <= i < n implies s.mm.pmm@.is_free(
        #[trigger] window::frame_at(mm2, mem2, start, i),
    ) by {
        crate::pmm::lemma_nth_free(mm1.pmm@, i);
        let f = mm1.pmm@.nth_free(i);
        assert(!mm1.pmm@.used[f]);
    }
}

/// Where pages are mapped to the same frames, they are owned still.
pub proof fn lemma_owns_same(
    s: Since,
    mm1: MemoryManager,
    mem1: Seq<PageTable>,
    mm2: MemoryManager,
    mem2: Seq<PageTable>,
    start: int,
    n: int,
)
    requires
        s.owns(mm1, mem1, start, n),
        forall|i: int|
            0 <= i < n ==> #[trigger] window::frame_at(mm2, mem2, start, i) == window::frame_at(
                mm1,
                mem1,
                start,
                i,
            ),
    ensures
        s.owns(mm2, mem2, start, n),
{
    reveal(owned);
}

/// Unmapping the first of the pages that were mapped since, which own their
/// frames, gives those back.
pub proof fn lemma_kept_released(
    s: Since,
    mm1: MemoryManager,
    mem1: Seq<PageTable>,
    mm2: MemoryManager,
    mem2: Seq<PageTable>,
    start: u64,
    n: nat,
)
    requires
        s.mm.ready(s.mem),
        mm1.ready(mem1),
        s.holds(mm1, mem1),
        s.ours == Set::<int>::empty(),
        s.lo + n <= s.hi,
        s.lo == start as int / 4096,
        window::backed(mm1, mem1, start as int, n as int),
        s.owns(mm1, mem1, start as int, n as int),
        mm2.root == mm1.root,
        mm2.tables() == mm1.tables(),
        mm2.pmm@ == regions::pool_after_unmap(
            mm1.pmm@,
            mem1,
            mm1.root.0 as int / 4096,
            start,
            n,
        ),
        paging::pages_unmapped(
            mm1,
            mem1,
            mem2,
            s.mm.root.0 as int / 4096,
            s.lo,
            s.lo + n,
        ),
    ensures
        s.minus(n as int).holds(mm2, mem2),
{
    reveal(owned);
    let root = s.mm.root.0 as int / 4096;
    assert(mm1.root == s.mm.root) by {
        reveal(kept);
    }
    crate::laws::lemma_run_released(mm1, mem1, start, n);
    assert forall|f: int| #[trigger] backs(mem1, root, s.lo, s.lo + n, f) == (exists|i: int|
        0 <= i < n && #[trigger] window::frame_at(mm1, mem1, start as int, i) == f) by {
        if backs(mem1, root, s.lo, s.lo + n, f) {
            let p = choose|p: int|
                s.lo <= p < s.lo + n && #[trigger] paging::frame_of(mem1, root, p) == f;
            assert(window::frame_at(mm1, mem1, start as int, p - s.lo) == f);
        }
        if exists|i: int| 0 <= i < n && #[trigger] window::frame_at(mm1, mem1, start as int, i) == f {
            let i = choose|i: int|
                0 <= i < n && #[trigger] window::frame_at(mm1, mem1, start as int, i) == f;
            assert(paging::frame_of(mem1, root, s.lo + i) == f);
        }
    }
    lemma_kept_unmap(s, mm1, mem1, mm2, mem2, n as int);
}

/// A heap is as well-formed, with the same words, after something that left what
/// was in use and did not write to it.
pub proof fn lemma_heap_kept(
    heap: HeapState,
    mm0: MemoryManager,
    mem0: Seq<PageTable>,
    mm1: MemoryManager,
    mem1: Seq<PageTable>,
    lo: int,
    hi: int,
    ours: Set<int>,
)
    requires
        heap.wf(mm0, mem0),
        mm1.ready(mem1),
        kept(mm0, mem0, mm1, mem1, lo, hi, ours),
        frames_of(mm0, mem0, heap.start as int, heap.pages()).disjoint(ours),
    ensures
        heap.wf(mm1, mem1),
        heap.initialized ==> heap.words(mm1, mem1) == heap.words(mm0, mem0),
{
    if heap.initialized {
        lemma_backed_kept(
            mm0,
            mem0,
            mm1,
            mem1,
            lo,
            hi,
            ours,
            heap.start as int,
            heap.pages(),
        );
    }
}

/// Pages that are backed stay so, with the same words, while something leaves
/// what is in use and does not write to them.
pub proof fn lemma_backed_kept(
    mm0: MemoryManager,
    mem0: Seq<PageTable>,
    mm1: MemoryManager,
    mem1: Seq<PageTable>,
    lo: int,
    hi: int,
    ours: Set<int>,
    start: int,
    n: int,
)
    requires
        mm0.ready(mem0),
        window::backed(mm0, mem0, start, n),
        kept(mm0, mem0, mm1, mem1, lo, hi, ours),
        frames_of(mm0, mem0, start, n).disjoint(ours),
    ensures
        window::backed(mm1, mem1, start, n),
        window::words(mm1, mem1, start, n) == window::words(mm0, mem0, start, n),
{
    reveal(kept);
    reveal(window::backed);
    let root = mm0.root.0 as int / 4096;
    assert(mm0.is_table(root));
    assert forall|i: int| 0 <= i < n implies #[trigger] walk::mapping(mem1, root, start / 4096 + i)
        == walk::mapping(mem0, root, start / 4096 + i) by {
        let p = start / 4096 + i;
        assert(window::holds(mm0, mem0, start, i));
        assert(0 <= p < walk::page_limit());
        assert(walk::mapping(mem1, root, p) == walk::mapping(mem1, root, p));
    }
    assert forall|i: int| 0 <= i < n implies {
        let f = #[trigger] window::frame_at(mm0, mem0, start, i);
        mm1.pmm@.used[f] && !mm1.is_table(f) && mem1[f] == mem0[f]
    } by {
        assert(window::holds(mm0, mem0, start, i));
        let f = window::frame_at(mm0, mem0, start, i);
        assert(frames_of(mm0, mem0, start, n).contains(f));
        assert(mm0.pmm@.used[f]);
        assert(!mm0.is_table(f));
        assert(mm1.pmm@.used[f]);
        assert(!mm1.is_table(f));
    }
    window::lemma_backed_kept(mm0, mem0, mm1, mem1, start, n);
}

} // verus!
