//! What a series of requests does to a heap, foreseen from the state before it.

use vstd::prelude::*;
use crate::blocks;
use crate::blocks::Block;
use crate::heap;
use crate::heap::HeapState;
use crate::kept;
use crate::kept::Since;
use crate::paging::MemoryManager;
use crate::pmm;
use crate::regions;
use crate::vmm::PageTable;
use crate::walk;
use crate::window;

verus! {

/// The `n` pages behind `end` can be mapped to fresh frames: they lie in the
/// lower half, nothing is mapped there, and memory suffices, tables counted.
#[verifier::opaque]
pub open spec fn growth_room(mm: MemoryManager, mem: Seq<PageTable>, end: int, n: int) -> bool {
    let root = mm.root.0 as int / 4096;
    &&& end + 4096 * n <= window::LOWER_HALF_END
    &&& forall|p: int|
        end / 4096 <= p < end / 4096 + n ==> #[trigger] walk::mapping(mem, root, p) is None
    &&& mm.pmm@.free_count() >= n + walk::run_missing(mem, root, end / 4096, n as nat)
}

/// A heap can grow where there is room, and only there.
pub proof fn lemma_growth_room(heap: HeapState, mm: MemoryManager, mem: Seq<PageTable>, n: int)
    requires
        mm.ready(mem),
        heap.current_end % 4096 == 0,
        heap.current_end <= window::LOWER_HALF_END,
        0 < n <= pmm::MAX_BATCH,
    ensures
        heap::growth_refused(heap, mm, mem, n) <==> !growth_room(
            mm,
            mem,
            heap.current_end as int,
            n,
        ),
{
    reveal(growth_room);
    let end = heap.current_end;
    let first = end as int / 4096;
    let root = mm.root.0 as int / 4096;
    let pool = mm.pmm@;
    let fresh = regions::fresh_pages(pool, n);
    if pool.free_count() >= n {
        if end + 4096 * n > window::LOWER_HALF_END {
            let i = (window::LOWER_HALF_END - end) / 4096;
            assert(0 <= i < n);
            assert(regions::page_addr(end, i) == window::LOWER_HALF_END);
            assert(!regions::mappable(mem, root, end, i, fresh[i]));
        } else {
            assert(end < window::LOWER_HALF_END);
            assert(walk::page_of(end) == first);
            assert forall|i: int| 0 <= i < n implies (#[trigger] regions::mappable(
                mem,
                root,
                end,
                i,
                fresh[i],
            ) <==> walk::mapping(mem, root, first + i) is None) by {
                let addr = regions::page_addr(end, i);
                pmm::lemma_nth_free(pool, i);
                assert(addr == end + 4096 * i);
                assert(addr % 4096 == 0);
                assert(walk::page_of(addr) == first + i);
                assert((4096 * pool.nth_free(i)) % 4096 == 0);
            }
            if !heap::growth_refused(heap, mm, mem, n) {
                assert forall|p: int| first <= p < first + n implies #[trigger] walk::mapping(
                    mem,
                    root,
                    p,
                ) is None by {
                    assert(regions::mappable(mem, root, end, p - first, fresh[p - first]));
                }
            }
        }
    }
}

/// Where there is room for more pages, there is room for fewer.
pub proof fn lemma_growth_smaller(
    mm: MemoryManager,
    mem: Seq<PageTable>,
    end: int,
    few: int,
    many: int,
)
    requires
        0 <= few <= many,
        growth_room(mm, mem, end, many),
    ensures
        growth_room(mm, mem, end, few),
{
    reveal(growth_room);
    walk::lemma_run_missing_grows(
        mem,
        mm.root.0 as int / 4096,
        end / 4096,
        few as nat,
        many as nat,
    );
}

/// Writing to the heap leaves the room to grow.
pub proof fn lemma_growth_kept(
    mm: MemoryManager,
    mem0: Seq<PageTable>,
    mem1: Seq<PageTable>,
    start: int,
    pages: int,
    end: int,
    n: int,
)
    requires
        mm.ready(mem0),
        0 <= n,
        0 <= end,
        window::backed(mm, mem0, start, pages),
        window::only_within(mm, mem0, mem1, start, pages),
    ensures
        growth_room(mm, mem1, end, n) <==> growth_room(mm, mem0, end, n),
{
    reveal(growth_room);
    let root = mm.root.0 as int / 4096;
    assert(mm.is_table(root));
    window::lemma_tables_kept(mm, mem0, mem1, start, pages);
    if end + 4096 * n <= window::LOWER_HALF_END {
        walk::lemma_run_missing_same(mem0, mem1, root, end / 4096, n as nat);
        assert forall|p: int| end / 4096 <= p < end / 4096 + n implies #[trigger] walk::mapping(
            mem1,
            root,
            p,
        ) == walk::mapping(mem0, root, p) by {
            assert(0 <= p < walk::page_limit());
        }
        if growth_room(mm, mem1, end, n) {
            assert forall|p: int| end / 4096 <= p < end / 4096 + n implies #[trigger] walk::mapping(
                mem0,
                root,
                p,
            ) is None by {
                assert(walk::mapping(mem1, root, p) is None);
            }
        }
    }
}

/// Pages that are mapped behind the end take the room for them.
pub proof fn lemma_growth_taken(
    mm0: MemoryManager,
    mem0: Seq<PageTable>,
    mm1: MemoryManager,
    mem1: Seq<PageTable>,
    end: u64,
    g: int,
    n: int,
)
    requires
        mm0.ready(mem0),
        0 < g,
        0 <= n,
        end % 4096 == 0,
        growth_room(mm0, mem0, end as int, g),
        regions::fresh_mapped(mm0, mem0, mm1, mem1, end, g, heap::heap_flags()),
    ensures
        growth_room(mm1, mem1, end + 4096 * g, n) <==> growth_room(mm0, mem0, end as int, g + n),
{
    reveal(growth_room);
    let root = mm0.root.0 as int / 4096;
    let first = end as int / 4096;
    let rest = (end + 4096 * g) / 4096;
    assert(mm0.is_table(root));
    assert(rest == first + g);
    assert(end < window::LOWER_HALF_END);
    assert(walk::page_of(end) == first);
    if end + 4096 * (g + n) <= window::LOWER_HALF_END {
        walk::lemma_run_missing_splits(mem0, mem1, root, first, g as nat, n as nat);
        assert forall|p: int| rest <= p < rest + n implies #[trigger] walk::mapping(mem1, root, p)
            == walk::mapping(mem0, root, p) by {
            assert(0 <= p < walk::page_limit());
        }
        if growth_room(mm1, mem1, end + 4096 * g, n) {
            assert forall|p: int| first <= p < first + (g + n) implies #[trigger] walk::mapping(
                mem0,
                root,
                p,
            ) is None by {
                if p >= rest {
                    assert(walk::mapping(mem1, root, p) is None);
                }
            }
        }
        if growth_room(mm0, mem0, end as int, g + n) {
            assert forall|p: int| rest <= p < rest + n implies #[trigger] walk::mapping(
                mem1,
                root,
                p,
            ) is None by {
                assert(walk::mapping(mem0, root, p) is None);
            }
        }
    }
}

/// What is known of a heap some requests after a given state: its blocks, the
/// pages that it has grown by since, and how often bytes were handed out and
/// given back and the heap grew.
pub struct Plan {
    pub blocks: Seq<Block>,
    pub grown: int,
    pub requests: int,
    pub releases: int,
    pub growths: int,
}

impl Plan {
    /// The heap in the given state.
    pub open spec fn first(heap: HeapState) -> Plan {
        Plan { blocks: heap.blocks(), grown: 0, requests: 0, releases: 0, growths: 0 }
    }

    /// From one heap to another, this is what became of it: its blocks, its end
    /// and its totals.
    pub open spec fn followed(self, h0: HeapState, h1: HeapState) -> bool {
        &&& h1.initialized == h0.initialized
        &&& h1.start == h0.start
        &&& h1.blocks() == self.blocks
        &&& h1.current_end == h0.current_end + 4096 * self.grown
        &&& h1.stats.allocation_count == h0.stats.allocation_count + self.requests
        &&& h1.stats.free_count == h0.stats.free_count + self.releases
        &&& h1.stats.expansion_count == h0.stats.expansion_count + self.growths
    }

    /// The heap after a request for `size` bytes, which are units of 16; none if
    /// it cannot be served. `end` is where the heap ended in the given state,
    /// which `mm` and `mem` hold.
    #[verifier::opaque]
    pub open spec fn request(
        self,
        mm: MemoryManager,
        mem: Seq<PageTable>,
        end: int,
        size: int,
    ) -> Option<Plan> {
        match blocks::stop_from(self.blocks, size, 0) {
            Some(k) => Some(
                Plan {
                    blocks: blocks::taken(self.blocks, k, size),
                    requests: self.requests + 1,
                    ..self
                },
            ),
            None => {
                let grown = self.grown + heap::growth_pages(size);
                if growth_room(mm, mem, end, grown) {
                    let bs = self.extended(size);
                    Some(
                        Plan {
                            blocks: blocks::taken(bs, bs.len() - 1, size),
                            grown,
                            requests: self.requests + 1,
                            growths: self.growths + 1,
                            ..self
                        },
                    )
                } else {
                    None
                }
            },
        }
    }

    /// The blocks once the heap has grown for `size` bytes.
    pub open spec fn extended(self, size: int) -> Seq<Block> {
        blocks::extended(self.blocks, 4096 * heap::growth_pages(size))
    }

    /// The address of the block that serves a request for `size` bytes.
    #[verifier::opaque]
    pub open spec fn place(self, size: int) -> int {
        match blocks::stop_from(self.blocks, size, 0) {
            Some(k) => self.blocks[k].addr,
            None => self.extended(size)[self.extended(size).len() - 1].addr,
        }
    }

    /// The heap after the block at `addr` is given back.
    #[verifier::opaque]
    pub open spec fn release(self, addr: int) -> Plan {
        Plan {
            blocks: blocks::released(self.blocks, blocks::block_at(self.blocks, addr)),
            releases: self.releases + 1,
            ..self
        }
    }

    /// The heap is as planned from the state that `mm0` and `mem0` hold, in which
    /// it ended at `end0`; the room that it has left is the room then without
    /// the pages that it has grown by.
    #[verifier::opaque]
    pub open spec fn met(
        self,
        heap: HeapState,
        mm: MemoryManager,
        mem: Seq<PageTable>,
        mm0: MemoryManager,
        mem0: Seq<PageTable>,
        end0: int,
    ) -> bool {
        &&& heap.blocks() == self.blocks
        &&& heap.current_end == end0 + 4096 * self.grown
        &&& self.grown >= 0
        &&& forall|n: int|
            n >= 0 ==> (#[trigger] growth_room(mm, mem, heap.current_end as int, n)
                <==> growth_room(mm0, mem0, end0, self.grown + n))
    }
}

/// A plan that is met still is once the heap's memory was written.
pub proof fn lemma_written_as_planned(
    plan: Plan,
    after: Plan,
    h0: HeapState,
    h1: HeapState,
    mm: MemoryManager,
    mem0: Seq<PageTable>,
    mem1: Seq<PageTable>,
    mm_then: MemoryManager,
    mem_then: Seq<PageTable>,
    end_then: int,
)
    requires
        h0.placed(mm, mem0),
        plan.met(h0, mm, mem0, mm_then, mem_then, end_then),
        window::only_within(mm, mem0, mem1, h0.start as int, h0.pages()),
        h1.current_end == h0.current_end,
        h1.blocks() == after.blocks,
        after.grown == plan.grown,
    ensures
        after.met(h1, mm, mem1, mm_then, mem_then, end_then),
{
    reveal(Plan::met);
    assert forall|n: int| n >= 0 implies (#[trigger] growth_room(
        mm,
        mem1,
        h1.current_end as int,
        n,
    ) <==> growth_room(mm_then, mem_then, end_then, after.grown + n)) by {
        lemma_growth_kept(
            mm,
            mem0,
            mem1,
            h0.start as int,
            h0.pages(),
            h0.current_end as int,
            n,
        );
        assert(growth_room(mm, mem0, h0.current_end as int, n) <==> growth_room(
            mm_then,
            mem_then,
            end_then,
            plan.grown + n,
        ));
    }
}

/// A plan that is met still is once the heap has grown.
pub proof fn lemma_grown_as_planned(
    plan: Plan,
    after: Plan,
    h0: HeapState,
    mm0: MemoryManager,
    mem0: Seq<PageTable>,
    h1: HeapState,
    mm1: MemoryManager,
    mem1: Seq<PageTable>,
    g: int,
    mm_then: MemoryManager,
    mem_then: Seq<PageTable>,
    end_then: int,
)
    requires
        h0.placed(mm0, mem0),
        plan.met(h0, mm0, mem0, mm_then, mem_then, end_then),
        0 < g,
        growth_room(mm0, mem0, h0.current_end as int, g),
        h1.current_end == h0.current_end + 4096 * g,
        heap::mapped_and_written(
            mm0,
            mem0,
            mm1,
            mem1,
            h0.current_end,
            g,
            h1.start as int,
            h1.pages(),
        ),
        h1.blocks() == after.blocks,
        after.grown == plan.grown + g,
    ensures
        after.met(h1, mm1, mem1, mm_then, mem_then, end_then),
{
    reveal(Plan::met);
    let mid = choose|mid: Seq<PageTable>|
        {
            &&& #[trigger] regions::fresh_mapped(
                mm0,
                mem0,
                mm1,
                mid,
                h0.current_end,
                g,
                heap::heap_flags(),
            )
            &&& mm1.ready(mid)
            &&& window::backed(mm1, mid, h1.start as int, h1.pages())
            &&& window::only_within(mm1, mid, mem1, h1.start as int, h1.pages())
        };
    assert forall|n: int| n >= 0 implies (#[trigger] growth_room(
        mm1,
        mem1,
        h1.current_end as int,
        n,
    ) <==> growth_room(mm_then, mem_then, end_then, after.grown + n)) by {
        lemma_growth_kept(
            mm1,
            mid,
            mem1,
            h1.start as int,
            h1.pages(),
            h1.current_end as int,
            n,
        );
        lemma_growth_taken(mm0, mem0, mm1, mid, h0.current_end, g, n);
        assert(growth_room(mm0, mem0, h0.current_end as int, g + n) <==> growth_room(
            mm_then,
            mem_then,
            end_then,
            plan.grown + (g + n),
        ));
    }
}

/// A heap of `n` pages, compared with the state of `mm0` and `mem0`, in which it
/// had `n0` pages: the pages behind those are new, and the frames of the heap may
/// be written.
pub open spec fn since(
    mm0: MemoryManager,
    mem0: Seq<PageTable>,
    start: int,
    n0: int,
    n: int,
) -> Since {
    Since {
        mm: mm0,
        mem: mem0,
        lo: start / 4096 + n0,
        hi: start / 4096 + n,
        ours: kept::frames_of(mm0, mem0, start, n0),
    }
}

/// All that the heap does not hold is as it was in the state of `mm0` and `mem0`,
/// in which the heap had `n0` pages, and the heap's frames are those that it had
/// and others that were free.
#[verifier::opaque]
pub open spec fn beside(
    mm0: MemoryManager,
    mem0: Seq<PageTable>,
    n0: int,
    heap: HeapState,
    mm: MemoryManager,
    mem: Seq<PageTable>,
) -> bool {
    let s = since(mm0, mem0, heap.start as int, n0, heap.pages());
    &&& s.holds(mm, mem)
    &&& s.owns(mm, mem, heap.start as int, heap.pages())
    &&& mm0.ready(mem0)
    &&& n0 <= heap.pages()
}

pub proof fn lemma_beside_first(heap: HeapState, mm: MemoryManager, mem: Seq<PageTable>)
    requires
        heap.placed(mm, mem),
    ensures
        beside(mm, mem, heap.pages(), heap, mm, mem),
{
    reveal(beside);
    reveal(kept::owned);
    kept::lemma_kept_first(since(mm, mem, heap.start as int, heap.pages(), heap.pages()));
}

/// Writing to the heap leaves the rest.
pub proof fn lemma_beside_written(
    mm0: MemoryManager,
    mem0: Seq<PageTable>,
    n0: int,
    h1: HeapState,
    h2: HeapState,
    mm: MemoryManager,
    mem1: Seq<PageTable>,
    mem2: Seq<PageTable>,
)
    requires
        beside(mm0, mem0, n0, h1, mm, mem1),
        h1.placed(mm, mem1),
        window::only_within(mm, mem1, mem2, h1.start as int, h1.pages()),
        h2.start == h1.start,
        h2.current_end == h1.current_end,
    ensures
        beside(mm0, mem0, n0, h2, mm, mem2),
{
    reveal(beside);
    let start = h1.start as int;
    let n = h1.pages();
    let s = since(mm0, mem0, start, n0, n);
    kept::lemma_kept_write(s, mm, mem1, mem2, start, n);
    window::lemma_tables_kept(mm, mem1, mem2, start, n);
    window::lemma_same_frames(mm, mem1, mem2, start, n);
    kept::lemma_owns_same(s, mm, mem1, mm, mem2, start, n);
}

/// An attempt to grow that was refused leaves the rest.
pub proof fn lemma_beside_refused(
    mm0: MemoryManager,
    mem0: Seq<PageTable>,
    n0: int,
    heap: HeapState,
    mm1: MemoryManager,
    mem1: Seq<PageTable>,
    mm2: MemoryManager,
    mem2: Seq<PageTable>,
)
    requires
        beside(mm0, mem0, n0, heap, mm1, mem1),
        heap.placed(mm1, mem1),
        regions::rolled_back(mm1, mem1, mm2, mem2),
    ensures
        beside(mm0, mem0, n0, heap, mm2, mem2),
{
    reveal(beside);
    let start = heap.start as int;
    let n = heap.pages();
    let s = since(mm0, mem0, start, n0, n);
    kept::lemma_kept_tables(s, mm1, mem1, mm2, mem2);
    window::lemma_same_frames(mm1, mem1, mem2, start, n);
    assert forall|i: int| 0 <= i < n implies #[trigger] window::frame_at(mm2, mem2, start, i)
        == window::frame_at(mm1, mem1, start, i) by {
        assert(window::frame_at(mm2, mem2, start, i) == window::frame_at(mm1, mem2, start, i));
    }
    kept::lemma_owns_same(s, mm1, mem1, mm2, mem2, start, n);
}

/// Frames of one run and of the run behind it are those of both.
proof fn lemma_owns_join(
    s: Since,
    mm: MemoryManager,
    mem: Seq<PageTable>,
    start: int,
    n: int,
    k: int,
)
    requires
        s.owns(mm, mem, start, n),
        s.owns(mm, mem, start + 4096 * n, k),
        0 <= n,
    ensures
        s.owns(mm, mem, start, n + k),
{
    reveal(kept::owned);
    let s2 = start + 4096 * n;
    assert(s2 / 4096 == start / 4096 + n);
    assert forall|i: int| n <= i < n + k implies #[trigger] window::frame_at(mm, mem, start, i)
        == window::frame_at(mm, mem, s2, i - n) by {
        assert(s2 / 4096 + (i - n) == start / 4096 + i);
    }
}

/// Growing maps the new pages and leaves the rest.
pub proof fn lemma_beside_grown(
    mm0: MemoryManager,
    mem0: Seq<PageTable>,
    n0: int,
    h1: HeapState,
    mm1: MemoryManager,
    mem1: Seq<PageTable>,
    h2: HeapState,
    mm2: MemoryManager,
    mem2: Seq<PageTable>,
    g: int,
)
    requires
        beside(mm0, mem0, n0, h1, mm1, mem1),
        h1.placed(mm1, mem1),
        0 < g,
        growth_room(mm1, mem1, h1.current_end as int, g),
        h2.start == h1.start,
        h2.current_end == h1.current_end + 4096 * g,
        heap::mapped_and_written(
            mm1,
            mem1,
            mm2,
            mem2,
            h1.current_end,
            g,
            h2.start as int,
            h2.pages(),
        ),
    ensures
        beside(mm0, mem0, n0, h2, mm2, mem2),
{
    let start = h1.start as int;
    let n = h1.pages();
    let s = since(mm0, mem0, start, n0, n);
    let mid = choose|mid: Seq<PageTable>|
        {
            &&& #[trigger] regions::fresh_mapped(
                mm1,
                mem1,
                mm2,
                mid,
                h1.current_end,
                g,
                heap::heap_flags(),
            )
            &&& mm2.ready(mid)
            &&& window::backed(mm2, mid, h2.start as int, h2.pages())
            &&& window::only_within(mm2, mid, mem2, h2.start as int, h2.pages())
        };
    assert(h2.pages() == n + g);
    assert(start + 4096 * n == h1.current_end);
    assert(beside(mm0, mem0, n0, h2, mm2, mid)) by {
        reveal(beside);
        heap::lemma_heap_flags();
        assert(g <= mm1.pmm@.free_count() && h1.current_end + 4096 * g <= window::LOWER_HALF_END) by {
            reveal(growth_room);
        }
        assert(walk::page_of(h1.current_end) == s.hi);
        kept::lemma_kept_fresh(
            s,
            mm1,
            mem1,
            mm2,
            mid,
            h1.current_end,
            g,
            heap::heap_flags(),
        );
        window::lemma_fresh_beside(
            mm1,
            mem1,
            mm2,
            mid,
            h1.current_end,
            g,
            heap::heap_flags(),
            start,
            n,
        );
        kept::lemma_owns_same(s, mm1, mem1, mm2, mid, start, n);
        lemma_owns_join(s, mm2, mid, start, n, g);
        assert(s.plus(g).owns(mm2, mid, start, n + g));
    }
    lemma_beside_written(mm0, mem0, n0, h2, h2, mm2, mid, mem2);
}

} // verus!
