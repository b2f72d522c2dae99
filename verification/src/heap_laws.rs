//! What holds of requests to the heap together.

use vstd::prelude::*;
use crate::blocks;
use crate::blocks::Block;
use crate::heap;
use crate::heap::{DeallocateOutcome, HeapState};
use crate::heap_check;
use crate::heap_plan;
use crate::heap_plan::Plan;
use crate::paging::MemoryManager;
use crate::vmm::PageTable;
use crate::walk;
use crate::window;

verus! {

/// Which block of the heap the bytes at `r` are the payload of, once they were
/// handed out.
pub open spec fn block_of(heap: HeapState, r: u64) -> int {
    blocks::block_at(heap.blocks(), r - 32)
}

/// Of two lists of blocks, taking block `k` of the first for a request leads to
/// the second: what that says of the places in it.
proof fn lemma_taken_placed(start: int, end: int, bs: Seq<Block>, k: int, size: int)
    requires
        blocks::chained(start, end, blocks::taken(bs, k, size)),
        0 <= k < bs.len(),
        bs[k].fits(size),
    ensures
        ({
            let after = blocks::taken(bs, k, size);
            &&& 0 <= k < after.len()
            &&& after[k].addr == bs[k].addr
            &&& after[k].magic == bs[k].magic
            &&& !after[k].free
            &&& after[k].size >= size
            &&& blocks::block_at(after, bs[k].addr) == k
        }),
{
    let after = blocks::taken(bs, k, size);
    assert(after[k].addr == bs[k].addr);
    let j = blocks::block_at(after, bs[k].addr);
    if j < k {
        assert(after[j].end() <= after[k].addr);
    } else if k < j {
        assert(after[k].end() <= after[j].addr);
    }
}

/// The blocks that a request was served from, and the one of them that served
/// it.
pub open spec fn source(h0: HeapState, size: u64) -> (Seq<Block>, int) {
    let bs = h0.blocks();
    let wanted = heap::rounded(size as int);
    match blocks::stop_from(bs, wanted, 0) {
        Some(k) => (bs, k),
        None => {
            let grown = blocks::extended(bs, 4096 * heap::growth_pages(wanted));
            (grown, grown.len() - 1)
        },
    }
}

/// A request that was served took the first block that fits.
proof fn lemma_source(
    h0: HeapState,
    mm0: MemoryManager,
    mem0: Seq<PageTable>,
    h1: HeapState,
    mm1: MemoryManager,
    mem1: Seq<PageTable>,
    size: u64,
    r: u64,
)
    requires
        h0.wf(mm0, mem0),
        h0.initialized,
        h1.wf(mm1, mem1),
        size > 0,
        r != 0,
        heap::allocation(h0, mm0, mem0, h1, mm1, mem1, size, r),
    ensures
        ({
            let (bs, k) = source(h0, size);
            let wanted = heap::rounded(size as int);
            &&& 0 <= k < bs.len()
            &&& bs[k].fits(wanted)
            &&& bs[k].marked()
            &&& r == bs[k].addr + 32
            &&& wanted >= size
            &&& wanted % 16 == 0
            &&& h1.initialized
            &&& h1.start == h0.start
            &&& h1.blocks() == blocks::taken(bs, k, wanted)
            &&& blocks::chained(h1.start as int, h1.current_end as int, h1.blocks())
            &&& block_of(h1, r) == k
            &&& 0 <= k < h1.blocks().len()
            &&& h1.blocks()[k].addr == r - 32
            &&& !h1.blocks()[k].free
            &&& h1.blocks()[k].marked()
            &&& h1.blocks()[k].size >= wanted
            &&& h1.stats.free_count == h0.stats.free_count
        }),
{
    let wanted = heap::rounded(size as int);
    let (bs, k) = source(h0, size);
    assert(wanted >= size && wanted % 16 == 0) by {
        vstd::arithmetic::div_mod::lemma_fundamental_div_mod(size as int + 15, 16);
        vstd::arithmetic::div_mod::lemma_mod_multiples_basic((size as int + 15) / 16, 16);
    }
    blocks::lemma_stop(h0.blocks(), wanted, 0);
    if blocks::stop_from(h0.blocks(), wanted, 0) is None {
        heap::lemma_grown_has_room(h0, mm0, mem0, wanted);
    }
    heap::lemma_chain(h1, mm1, mem1);
    lemma_taken_placed(h1.start as int, h1.current_end as int, bs, k, wanted);
}

/// A block in use stays in use when another is taken, and apart from it.
proof fn lemma_apart_from_taken(
    start: int,
    end: int,
    bs: Seq<Block>,
    k: int,
    size: int,
    i: int,
)
    requires
        blocks::chained(start, end, blocks::taken(bs, k, size)),
        0 <= k < bs.len(),
        bs[k].free,
        0 <= i < bs.len(),
        !bs[i].free,
    ensures
        ({
            let after = blocks::taken(bs, k, size);
            &&& blocks::in_use(after, bs[i].addr, bs[i].size)
            &&& bs[i].end() <= after[k].addr || after[k].end() <= bs[i].addr
        }),
{
    let after = blocks::taken(bs, k, size);
    let o = if i > k && bs[k].size - size >= 48 {
        i + 1
    } else {
        i
    };
    assert(after[o] == bs[i]);
    if o < k {
        assert(after[o].end() <= after[k].addr);
    } else {
        assert(after[k].end() <= after[o].addr);
    }
}

/// The blocks that were in use are so after a request was served, and apart from
/// the block that serves it.
proof fn lemma_uses_apart(start: int, end: int, h0: HeapState, size: u64)
    requires
        h0.blocks().len() > 0,
        ({
            let (bs, k) = source(h0, size);
            let wanted = heap::rounded(size as int);
            &&& 0 <= k < bs.len()
            &&& bs[k].free
            &&& blocks::chained(start, end, blocks::taken(bs, k, wanted))
        }),
    ensures
        ({
            let (bs, k) = source(h0, size);
            let after = blocks::taken(bs, k, heap::rounded(size as int));
            &&& forall|a: int, s: int|
                blocks::in_use(h0.blocks(), a, s) ==> #[trigger] blocks::in_use(after, a, s)
            &&& forall|a: int, s: int| #[trigger]
                blocks::in_use(h0.blocks(), a, s) ==> a + 32 + s <= after[k].addr
                    || after[k].end() <= a
        }),
{
    let bs0 = h0.blocks();
    let wanted = heap::rounded(size as int);
    let (bs, k) = source(h0, size);
    let after = blocks::taken(bs, k, wanted);
    assert forall|a: int, s: int| #[trigger] blocks::in_use(bs0, a, s) implies blocks::in_use(
        after,
        a,
        s,
    ) && (a + 32 + s <= after[k].addr || after[k].end() <= a) by {
        let i = choose|i: int|
            0 <= i < bs0.len() && !bs0[i].free && (#[trigger] bs0[i]).addr == a && bs0[i].size
                == s;
        assert(bs[i] == bs0[i]);
        lemma_apart_from_taken(start, end, bs, k, wanted, i);
    }
}

/// Where a block has room, the search ends at the first that has, or at a header
/// before it that lost its mark.
proof fn lemma_first_fit(bs: Seq<Block>, size: int)
    requires
        blocks::has_room(bs, size),
    ensures
        blocks::stop_from(bs, size, 0) is Some,
        ({
            let k = blocks::stop_from(bs, size, 0)->0;
            bs[k].marked() ==> bs[k].fits(size) && forall|j: int|
                0 <= j < k ==> !(#[trigger] bs[j]).fits(size)
        }),
{
    blocks::lemma_stop(bs, size, 0);
    let j = choose|j: int| 0 <= j < bs.len() && (#[trigger] bs[j]).fits(size);
    assert(bs[j].fits(size));
}

/// What stands behind the header of a block in use may be given back.
pub proof fn lemma_in_use_may_go(
    heap: HeapState,
    mm: MemoryManager,
    mem: Seq<PageTable>,
    ptr: u64,
    size: int,
)
    requires
        heap.wf(mm, mem),
        heap.initialized,
        blocks::in_use(heap.blocks(), ptr - 32, size),
    ensures
        heap::may_release(heap, mm, mem, ptr),
{
    let bs = heap.blocks();
    let k = choose|k: int|
        0 <= k < bs.len() && !bs[k].free && (#[trigger] bs[k]).addr == ptr - 32 && bs[k].size
            == size;
    heap::lemma_block_place(heap, mm, mem, k);
    assert(blocks::has_block(bs, ptr - 32));
}

/// Where a block in use stands, whose bytes are those from `ptr` on.
proof fn lemma_block_of_use(
    heap: HeapState,
    mm: MemoryManager,
    mem: Seq<PageTable>,
    k: int,
    ptr: u64,
)
    requires
        heap.wf(mm, mem),
        heap.initialized,
        0 <= k < heap.blocks().len(),
        heap.blocks()[k].addr == ptr - 32,
        !heap.blocks()[k].free,
    ensures
        ptr % 16 == 0,
        heap.start + 32 <= ptr,
        ptr + heap.blocks()[k].size <= heap.current_end,
        heap::may_release(heap, mm, mem, ptr),
{
    heap::lemma_block_place(heap, mm, mem, k);
    assert(blocks::in_use(heap.blocks(), ptr - 32, heap.blocks()[k].size));
    lemma_in_use_may_go(heap, mm, mem, ptr, heap.blocks()[k].size);
}

/// Where the block stands that serves a request.
proof fn lemma_served_place(
    h0: HeapState,
    mm0: MemoryManager,
    mem0: Seq<PageTable>,
    h1: HeapState,
    mm1: MemoryManager,
    mem1: Seq<PageTable>,
    size: u64,
    r: u64,
)
    requires
        h0.wf(mm0, mem0),
        h0.initialized,
        h1.wf(mm1, mem1),
        size > 0,
        r != 0,
        heap::allocation(h0, mm0, mem0, h1, mm1, mem1, size, r),
    ensures
        r % 16 == 0,
        h1.start + 32 <= r,
        r + size <= h1.current_end,
        0 <= block_of(h1, r) < h1.blocks().len(),
        ({
            let b = h1.blocks()[block_of(h1, r)];
            b.addr == r - 32 && !b.free && b.size >= size
        }),
        heap::may_release(h1, mm1, mem1, r),
{
    let (bs, k) = source(h0, size);
    lemma_source(h0, mm0, mem0, h1, mm1, mem1, size, r);
    lemma_block_of_use(h1, mm1, mem1, k, r);
}

/// What was in use when a request was served is so still, and has none of the bytes
/// that it got.
proof fn lemma_served_apart(
    h0: HeapState,
    mm0: MemoryManager,
    mem0: Seq<PageTable>,
    h1: HeapState,
    mm1: MemoryManager,
    mem1: Seq<PageTable>,
    size: u64,
    r: u64,
)
    requires
        h0.wf(mm0, mem0),
        h0.initialized,
        h1.wf(mm1, mem1),
        size > 0,
        r != 0,
        heap::allocation(h0, mm0, mem0, h1, mm1, mem1, size, r),
    ensures
        forall|a: int, s: int|
            blocks::in_use(h0.blocks(), a, s) ==> #[trigger] blocks::in_use(h1.blocks(), a, s),
        forall|a: int, s: int| #[trigger]
            blocks::in_use(h0.blocks(), a, s) ==> a + 32 + s <= r - 32 || r + size <= a,
{
    lemma_source(h0, mm0, mem0, h1, mm1, mem1, size, r);
    assert(h0.blocks().len() > 0) by {
        heap::lemma_chain(h0, mm0, mem0);
    }
    lemma_uses_apart(h1.start as int, h1.current_end as int, h0, size);
}

/// The first block with room serves a request.
proof fn lemma_served_first(
    h0: HeapState,
    mm0: MemoryManager,
    mem0: Seq<PageTable>,
    h1: HeapState,
    mm1: MemoryManager,
    mem1: Seq<PageTable>,
    size: u64,
    r: u64,
)
    requires
        h0.wf(mm0, mem0),
        h0.initialized,
        h1.wf(mm1, mem1),
        size > 0,
        r != 0,
        heap::allocation(h0, mm0, mem0, h1, mm1, mem1, size, r),
        blocks::has_room(h0.blocks(), heap::rounded(size as int)),
    ensures
        ({
            let k = source(h0, size).1;
            &&& 0 <= k < h0.blocks().len()
            &&& h0.blocks()[k].fits(heap::rounded(size as int))
            &&& r == h0.blocks()[k].addr + 32
            &&& forall|j: int|
                0 <= j < k ==> !(#[trigger] h0.blocks()[j]).fits(heap::rounded(size as int))
        }),
{
    lemma_source(h0, mm0, mem0, h1, mm1, mem1, size, r);
    lemma_first_fit(h0.blocks(), heap::rounded(size as int));
}

/// What a request that was served gives: `size` bytes of the heap, at a multiple
/// of 16, which no block that was in use has any of, and which may be given back.
/// The blocks that were in use are so still, with the same bytes. If a block that
/// was there had room, the first of those serves the request.
pub proof fn lemma_allocation_placed(
    h0: HeapState,
    mm0: MemoryManager,
    mem0: Seq<PageTable>,
    h1: HeapState,
    mm1: MemoryManager,
    mem1: Seq<PageTable>,
    size: u64,
    r: u64,
)
    requires
        h0.wf(mm0, mem0),
        h0.initialized,
        h1.wf(mm1, mem1),
        size > 0,
        r != 0,
        heap::allocation(h0, mm0, mem0, h1, mm1, mem1, size, r),
        blocks::keeps(h0.words(mm0, mem0), h1.words(mm1, mem1), h0.start as int, h0.blocks()),
    ensures
        r % 16 == 0,
        h1.start + 32 <= r,
        r + size <= h1.current_end,
        0 <= block_of(h1, r) < h1.blocks().len(),
        ({
            let b = h1.blocks()[block_of(h1, r)];
            b.addr == r - 32 && !b.free && b.size >= size
        }),
        heap::may_release(h1, mm1, mem1, r),
        forall|a: int, s: int|
            blocks::in_use(h0.blocks(), a, s) ==> #[trigger] blocks::in_use(h1.blocks(), a, s),
        forall|a: int, s: int| #[trigger]
            blocks::in_use(h0.blocks(), a, s) ==> a + 32 + s <= r - 32 || r + size <= a,
        forall|i: int|
            0 <= i < h0.words(mm0, mem0).len() && blocks::live(h0.blocks(), h0.start + 8 * i)
                ==> #[trigger] h1.words(mm1, mem1)[i] == h0.words(mm0, mem0)[i],
        blocks::has_room(h0.blocks(), heap::rounded(size as int)) ==> exists|k: int|
            {
                &&& 0 <= k < h0.blocks().len()
                &&& (#[trigger] h0.blocks()[k]).fits(heap::rounded(size as int))
                &&& r == h0.blocks()[k].addr + 32
                &&& forall|j: int|
                    0 <= j < k ==> !(#[trigger] h0.blocks()[j]).fits(heap::rounded(size as int))
            },
{
    lemma_served_place(h0, mm0, mem0, h1, mm1, mem1, size, r);
    lemma_served_apart(h0, mm0, mem0, h1, mm1, mem1, size, r);
    if blocks::has_room(h0.blocks(), heap::rounded(size as int)) {
        lemma_served_first(h0, mm0, mem0, h1, mm1, mem1, size, r);
    }
}

/// Every header of the heap carries the mark, and no two free blocks stand side
/// by side. This holds of a heap from the time that it is set up.
pub open spec fn whole(heap: HeapState) -> bool {
    &&& heap_check::all_marked(heap.blocks())
    &&& heap_check::coalesced(heap.blocks())
}

/// A heap that was just set up is whole.
pub proof fn lemma_new_heap_whole(heap: HeapState)
    requires
        heap.blocks() == blocks::single(heap::HEAP_START_ADDR as int, heap::initial_bytes()),
    ensures
        whole(heap),
{
}

/// A request leaves a whole heap whole, served or not.
pub proof fn lemma_allocation_keeps_whole(
    h0: HeapState,
    mm0: MemoryManager,
    mem0: Seq<PageTable>,
    h1: HeapState,
    mm1: MemoryManager,
    mem1: Seq<PageTable>,
    size: u64,
    r: u64,
)
    requires
        h0.wf(mm0, mem0),
        h0.initialized,
        h1.wf(mm1, mem1),
        whole(h0),
        heap::allocation(h0, mm0, mem0, h1, mm1, mem1, size, r),
    ensures
        whole(h1),
{
    if size > 0 && r != 0 {
        let (bs, k) = source(h0, size);
        lemma_source(h0, mm0, mem0, h1, mm1, mem1, size, r);
        lemma_source_blocks(h0, mm0, mem0, size);
        heap_check::lemma_blocks_stay_coalesced(bs, k, heap::rounded(size as int), 0);
    } else {
        lemma_not_served(h0, mm0, mem0, h1, mm1, mem1, size, r);
    }
}

/// A request that gives no bytes leaves the heap as it was.
pub proof fn lemma_not_served(
    h0: HeapState,
    mm0: MemoryManager,
    mem0: Seq<PageTable>,
    h1: HeapState,
    mm1: MemoryManager,
    mem1: Seq<PageTable>,
    size: u64,
    r: u64,
)
    requires
        h0.wf(mm0, mem0),
        h0.initialized,
        size == 0 || r == 0,
        heap::allocation(h0, mm0, mem0, h1, mm1, mem1, size, r),
    ensures
        h1 == h0,
{
    if size > 0 {
        let bs = h0.blocks();
        let wanted = heap::rounded(size as int);
        heap::lemma_chain(h0, mm0, mem0);
        blocks::lemma_stop(bs, wanted, 0);
        match blocks::stop_from(bs, wanted, 0) {
            Some(k) => {
                assert(bs[k].addr >= h0.start);
            },
            None => {
                let bytes = 4096 * heap::growth_pages(wanted);
                let grown = blocks::extended(bs, bytes);
                heap::lemma_extended_totals(
                    h0.start as int,
                    h0.current_end as int,
                    bs,
                    bytes,
                );
                assert(grown[grown.len() - 1].addr >= h0.start);
            },
        }
    }
}

/// Giving bytes back leaves a whole heap whole, whatever comes of it.
pub proof fn lemma_deallocation_keeps_whole(
    h0: HeapState,
    mm: MemoryManager,
    mem0: Seq<PageTable>,
    h1: HeapState,
    mem1: Seq<PageTable>,
    ptr: u64,
    size: u64,
    r: DeallocateOutcome,
)
    requires
        h0.wf(mm, mem0),
        whole(h0),
        heap::deallocation(h0, mm, mem0, h1, mem1, ptr, size, r),
    ensures
        whole(h1),
{
    if r == DeallocateOutcome::Freed {
        let bs = h0.blocks();
        let k = blocks::block_at(bs, ptr - 32);
        heap::lemma_header_read(h0.words(mm, mem0), h0.start as int, bs, k);
        heap_check::lemma_blocks_stay_coalesced(bs, k, 0, 0);
    }
}

/// Growing leaves a whole heap whole.
pub proof fn lemma_growth_keeps_whole(
    h0: HeapState,
    mm0: MemoryManager,
    mem0: Seq<PageTable>,
    h1: HeapState,
    pages: int,
)
    requires
        h0.wf(mm0, mem0),
        h0.initialized,
        whole(h0),
        heap::heap_grown(h0, h1, pages),
    ensures
        whole(h1),
{
    heap::lemma_chain(h0, mm0, mem0);
    heap_check::lemma_blocks_stay_coalesced(h0.blocks(), 0, 0, 4096 * pages);
}

/// The blocks that a request is served from are as the blocks before it: marked,
/// no two free ones side by side, and with as many bytes in use.
proof fn lemma_source_blocks(h0: HeapState, mm0: MemoryManager, mem0: Seq<PageTable>, size: u64)
    requires
        h0.wf(mm0, mem0),
        h0.initialized,
        whole(h0),
    ensures
        heap_check::all_marked(source(h0, size).0),
        heap_check::coalesced(source(h0, size).0),
        blocks::payload(source(h0, size).0, false) == blocks::payload(h0.blocks(), false),
{
    let wanted = heap::rounded(size as int);
    let bytes = 4096 * heap::growth_pages(wanted);
    heap::lemma_chain(h0, mm0, mem0);
    heap_check::lemma_blocks_stay_coalesced(h0.blocks(), 0, 0, bytes);
    heap::lemma_extended_totals(
        h0.start as int,
        h0.current_end as int,
        h0.blocks(),
        bytes,
    );
}

/// Where the words of a payload hold the poison pattern, so do those of its first
/// bytes.
proof fn lemma_poisoned(ws: Seq<u64>, start: int, b: Block, size: int)
    requires
        start % 8 == 0,
        b.addr % 8 == 0,
        b.size % 8 == 0,
        b.size >= size,
        forall|x: int|
            blocks::place(start, b.addr, 4) <= x < blocks::place(start, b.end(), 0)
                ==> #[trigger] ws[x] == blocks::POISON,
    ensures
        forall|i: int|
            b.addr + 32 <= start + 8 * i < b.addr + 32 + size ==> #[trigger] ws[i]
                == blocks::POISON,
{
    assert forall|i: int| b.addr + 32 <= start + 8 * i < b.addr + 32 + size implies #[trigger] ws[i]
        == blocks::POISON by {
        assert(blocks::place(start, b.addr, 4) <= i < blocks::place(start, b.end(), 0));
    }
}

/// Bytes of a marked block in use are taken back, and hold the poison pattern
/// from then on.
proof fn lemma_bytes_released(
    h1: HeapState,
    mm: MemoryManager,
    mem1: Seq<PageTable>,
    h2: HeapState,
    mem2: Seq<PageTable>,
    k: int,
    size: u64,
    r: u64,
    outcome: DeallocateOutcome,
)
    requires
        h1.wf(mm, mem1),
        h1.initialized,
        size > 0,
        r > 32,
        block_of(h1, r) == k,
        0 <= k < h1.blocks().len(),
        h1.blocks()[k].addr == r - 32,
        !h1.blocks()[k].free,
        h1.blocks()[k].marked(),
        h1.blocks()[k].size >= size,
        heap::deallocation(h1, mm, mem1, h2, mem2, r, size, outcome),
    ensures
        outcome == DeallocateOutcome::Freed,
        h2.blocks() == blocks::released(h1.blocks(), k),
        h2.initialized,
        h2.start == h1.start,
        h2.stats.free_count == h1.stats.free_count + 1,
        forall|i: int|
            r <= h2.start + 8 * i < r + size ==> #[trigger] h2.words(mm, mem2)[i]
                == blocks::POISON,
        heap::header_at(h2.words(mm, mem2), h2.start as int, r - 32).magic == blocks::HEAP_MAGIC,
        heap::header_at(h2.words(mm, mem2), h2.start as int, r - 32).is_free,
{
    let start = h1.start as int;
    let bs = h1.blocks();
    heap::lemma_header_read(h1.words(mm, mem1), start, bs, k);
    assert(outcome == DeallocateOutcome::Freed);
    let ws1 = h1.words(mm, mem1);
    let ws2 = h2.words(mm, mem2);
    assert(heap::words_released(ws1, ws2, start, bs, k));
    heap_check::lemma_double_free_seen(ws1, ws2, start, bs, k);
    heap::lemma_block_place(h1, mm, mem1, k);
    lemma_poisoned(ws2, start, bs[k], size as int);
}

/// What a request got may be given back: the bytes then hold the poison pattern,
/// as many bytes are in use as before the request, one more release is counted,
/// and still no two free blocks stand side by side. Where the heap did not grow
/// for it the blocks are those from before. Giving the bytes back once more is
/// seen, and changes nothing.
pub proof fn lemma_allocation_undone(
    h0: HeapState,
    mm0: MemoryManager,
    mem0: Seq<PageTable>,
    h1: HeapState,
    mm1: MemoryManager,
    mem1: Seq<PageTable>,
    h2: HeapState,
    mem2: Seq<PageTable>,
    h3: HeapState,
    mem3: Seq<PageTable>,
    size: u64,
    r: u64,
    first: DeallocateOutcome,
    second: DeallocateOutcome,
)
    requires
        h0.wf(mm0, mem0),
        h0.initialized,
        whole(h0),
        h1.wf(mm1, mem1),
        h2.wf(mm1, mem2),
        size > 0,
        r != 0,
        heap::allocation(h0, mm0, mem0, h1, mm1, mem1, size, r),
        heap::deallocation(h1, mm1, mem1, h2, mem2, r, size, first),
        heap::deallocation(h2, mm1, mem2, h3, mem3, r, size, second),
    ensures
        heap::may_release(h1, mm1, mem1, r),
        heap::may_release(h2, mm1, mem2, r),
        first == DeallocateOutcome::Freed,
        forall|i: int|
            r <= h2.start + 8 * i < r + size ==> #[trigger] h2.words(mm1, mem2)[i]
                == blocks::POISON,
        h2.stats.allocated_bytes == h0.stats.allocated_bytes,
        h2.stats.free_count == h0.stats.free_count + 1,
        whole(h2),
        h1.current_end == h0.current_end ==> h2.blocks() == h0.blocks(),
        second == DeallocateOutcome::DoubleFree,
        h3 == h2,
        mem3 == mem2,
{
    let wanted = heap::rounded(size as int);
    let (bs, k) = source(h0, size);
    lemma_source(h0, mm0, mem0, h1, mm1, mem1, size, r);
    lemma_source_blocks(h0, mm0, mem0, size);
    lemma_in_use_may_go(h1, mm1, mem1, r, h1.blocks()[k].size);
    lemma_bytes_released(h1, mm1, mem1, h2, mem2, k, size, r, first);
    assert(h2.current_end == h1.current_end);
    heap_check::lemma_take_release(bs, k, wanted);
    assert(h2.blocks() == bs);
    if blocks::stop_from(h0.blocks(), wanted, 0) is None {
        assert(heap::growth_pages(wanted) >= heap::HEAP_GROWTH_STEP_PAGES);
    }
}

/// The pages that the requests of the self-test make a heap grow by at most: one
/// step for the small requests, and what the large one needs.
pub const SELF_TEST_PAGES: u64 = 81;

/// A heap on its way through the self-test: a chain of marked blocks that has not
/// grown, or by one step and then has a free block of `room` bytes.
spec fn on_the_way(plan: Plan, start: int, end: int, room: int) -> bool {
    &&& blocks::chained(start, end + 4096 * plan.grown, plan.blocks)
    &&& heap_check::all_marked(plan.blocks)
    &&& plan.grown == 0 || (plan.grown == 16 && blocks::has_room(plan.blocks, room))
}

/// A small request is served on the way, from a block that was not in use; what
/// was in use is so still.
proof fn lemma_small_request(
    plan: Plan,
    start: int,
    mm: MemoryManager,
    mem: Seq<PageTable>,
    end: int,
    size: int,
    room: int,
) -> (s: int)
    requires
        on_the_way(plan, start, end, room),
        heap_plan::growth_room(mm, mem, end, SELF_TEST_PAGES as int),
        16 <= size <= 1024,
        size % 16 == 0,
        size + 48 <= room <= 65504,
    ensures
        plan.request(mm, mem, end, size) is Some,
        on_the_way(plan.request(mm, mem, end, size)->0, start, end, room - size - 32),
        blocks::in_use(plan.request(mm, mem, end, size)->0.blocks, plan.place(size), s),
        forall|x: int| !#[trigger] blocks::in_use(plan.blocks, plan.place(size), x),
        forall|a: int, x: int|
            blocks::in_use(plan.blocks, a, x) ==> #[trigger] blocks::in_use(
                plan.request(mm, mem, end, size)->0.blocks,
                a,
                x,
            ),
{
    reveal(Plan::request);
    reveal(Plan::place);
    let bs = plan.blocks;
    blocks::lemma_stop(bs, size, 0);
    match blocks::stop_from(bs, size, 0) {
        Some(k) => {
            assert(bs[k].marked());
            heap_check::lemma_taken_facts(start, end + 4096 * plan.grown, bs, k, size, room);
            if bs[k].size - size >= 48 {
                size
            } else {
                bs[k].size
            }
        },
        None => {
            if plan.grown == 16 {
                blocks::lemma_room_found(bs, size, room);
            }
            assert(heap::growth_pages(size) == 16);
            heap_plan::lemma_growth_smaller(mm, mem, end, 16, SELF_TEST_PAGES as int);
            let bytes = 65536int;
            let grown = blocks::extended(bs, bytes);
            heap::lemma_extended_totals(start, end, bs, bytes);
            heap_check::lemma_extended_marked(bs, bytes);
            let l = grown.len() - 1;
            let b = grown[l];
            assert(bs[bs.len() - 1].size >= 16);
            assert(blocks::appended(bs, bytes)[bs.len() - 1] == bs[bs.len() - 1]);
            assert(b.fits(65504));
            assert(blocks::has_room(grown, room)) by {
                assert(grown[l].fits(room));
            }
            heap_check::lemma_taken_facts(start, end + bytes, grown, l, size, room);
            assert forall|a: int, x: int| blocks::in_use(bs, a, x) implies #[trigger] blocks::in_use(
                blocks::taken(grown, l, size),
                a,
                x,
            ) by {
                blocks::lemma_extended_in_use(bs, bytes, a, x);
                assert(blocks::in_use(grown, a, x));
            }
            assert forall|x: int| !#[trigger] blocks::in_use(bs, b.addr, x) by {
                blocks::lemma_extended_in_use(bs, bytes, b.addr, x);
                assert(!blocks::in_use(grown, b.addr, x));
            }
            if b.size - size >= 48 {
                size
            } else {
                b.size
            }
        },
    }
}

/// Giving a block back on the way leaves the others in use.
proof fn lemma_release_on_the_way(
    plan: Plan,
    start: int,
    end: int,
    addr: int,
    s: int,
    room: int,
)
    requires
        on_the_way(plan, start, end, room),
        blocks::in_use(plan.blocks, addr, s),
    ensures
        on_the_way(plan.release(addr), start, end, room),
        forall|a: int, x: int|
            a != addr && blocks::in_use(plan.blocks, a, x) ==> #[trigger] blocks::in_use(
                plan.release(addr).blocks,
                a,
                x,
            ),
{
    reveal(Plan::release);
    let bs = plan.blocks;
    let k = blocks::block_at(bs, addr);
    let i = choose|i: int|
        0 <= i < bs.len() && !bs[i].free && (#[trigger] bs[i]).addr == addr && bs[i].size == s;
    assert(bs[i].addr == addr);
    assert(k == i) by {
        if k < i {
            assert(bs[k].end() <= bs[i].addr);
        } else if i < k {
            assert(bs[i].end() <= bs[k].addr);
        }
    }
    blocks::lemma_released(start, end + 4096 * plan.grown, bs, k);
    heap_check::lemma_released_marked(bs, k);
    if blocks::has_room(bs, room) {
        blocks::lemma_released_room(bs, k, room);
    }
    assert forall|a: int, x: int| a != addr && blocks::in_use(bs, a, x) implies #[trigger] blocks::in_use(
        plan.release(addr).blocks,
        a,
        x,
    ) by {
        blocks::lemma_released_in_use(bs, k, a, x);
    }
}

/// A sound heap passes its self-test wherever it can grow by the pages that the
/// test needs, however its free blocks lie.
pub proof fn lemma_self_test_served(heap: HeapState, mm: MemoryManager, mem: Seq<PageTable>)
    requires
        heap.wf(mm, mem),
        heap_check::heap_fault(heap, heap.words(mm, mem)) is None,
        heap_plan::growth_room(mm, mem, heap.current_end as int, SELF_TEST_PAGES as int),
    ensures
        heap_check::course(heap, mm, mem).1 is None,
{
    let start = heap.start as int;
    let end = heap.current_end as int;
    assert(heap.initialized);
    heap::lemma_chain(heap, mm, mem);
    heap_check::lemma_no_fault_marked(heap, mm, mem);
    let at_first = Plan::first(heap);
    let room = 65504int;
    let s1 = lemma_small_request(at_first, start, mm, mem, end, 64, room);
    let one = at_first.request(mm, mem, end, 64)->0;
    let p1 = at_first.place(64);
    let s2 = lemma_small_request(one, start, mm, mem, end, 1024, room - 96);
    let two = one.request(mm, mem, end, 1024)->0;
    let p2 = one.place(1024);
    assert(blocks::in_use(two.blocks, p1, s1));
    assert(p1 != p2) by {
        assert(!blocks::in_use(one.blocks, p2, s1));
    }
    lemma_release_on_the_way(two, start, end, p1, s1, room - 96 - 1056);
    let freed = two.release(p1);
    assert(blocks::in_use(freed.blocks, p2, s2));
    let s3 = lemma_small_request(freed, start, mm, mem, end, 32, room - 96 - 1056);
    let three = freed.request(mm, mem, end, 32)->0;
    let p3 = freed.place(32);
    assert(blocks::in_use(three.blocks, p2, s2));
    assert(p3 != p2) by {
        assert(!blocks::in_use(freed.blocks, p3, s2));
    }
    lemma_release_on_the_way(three, start, end, p2, s2, room - 96 - 1056 - 64);
    let four = three.release(p2);
    assert(blocks::in_use(four.blocks, p3, s3));
    lemma_release_on_the_way(four, start, end, p3, s3, room - 96 - 1056 - 64);
    let empty = four.release(p3);
    assert(empty.request(mm, mem, end, 0x4_0000) is Some) by {
        reveal(Plan::request);
        assert(heap::growth_pages(0x4_0000) == 65);
        heap_plan::lemma_growth_smaller(
            mm,
            mem,
            end,
            empty.grown + 65,
            SELF_TEST_PAGES as int,
        );
    }
}

/// A sound heap passes its self-test with 100 free pages, where nothing is mapped
/// behind it.
pub proof fn lemma_self_test_passes(heap: HeapState, mm: MemoryManager, mem: Seq<PageTable>)
    requires
        heap.wf(mm, mem),
        heap_check::heap_fault(heap, heap.words(mm, mem)) is None,
        mm.pmm@.free_count() >= 100,
        heap.current_end + 4096 * SELF_TEST_PAGES <= window::LOWER_HALF_END,
        forall|p: int|
            heap.current_end as int / 4096 <= p < heap.current_end as int / 4096 + SELF_TEST_PAGES
                ==> #[trigger] walk::mapping(mem, mm.root.0 as int / 4096, p) is None,
    ensures
        heap_check::course(heap, mm, mem).1 is None,
{
    let first = heap.current_end as int / 4096;
    walk::lemma_run_missing_short(mem, mm.root.0 as int / 4096, first, SELF_TEST_PAGES as nat);
    assert(heap_plan::growth_room(
        mm,
        mem,
        heap.current_end as int,
        SELF_TEST_PAGES as int,
    )) by {
        reveal(heap_plan::growth_room);
    }
    lemma_self_test_served(heap, mm, mem);
}

} // verus!
