//! Checking the heap: its invariants, its self-test, and what holds of it.

use vstd::prelude::*;
use crate::blocks;
use crate::blocks::{Block, HEADER_SIZE, HEAP_MAGIC};
use crate::heap;
use crate::heap::{allocate, deallocate, read_header, read_payload, stats, write_payload, HeapState};
use crate::heap_plan;
use crate::heap_plan::Plan;
use crate::paging::MemoryManager;
use crate::vmm::PageTable;
use crate::window;
use crate::window::load;

verus! {

/// The headers that the words `ws` from `start` on hold at the addresses of the
/// blocks `bs` can be walked from `head` on: each lies within them and leads to
/// the next.
pub open spec fn walkable(ws: Seq<u64>, start: int, head: u64, bs: Seq<Block>) -> bool {
    &&& head == if bs.len() > 0 {
        bs[0].addr
    } else {
        0
    }
    &&& forall|k: int| 0 <= k < bs.len() ==> #[trigger] node_ok(ws, start, bs, k)
    &&& weight(ws, start, bs, bs.len()) <= u64::MAX
}

/// Header `k` lies within the words and leads to the next.
pub open spec fn node_ok(ws: Seq<u64>, start: int, bs: Seq<Block>, k: int) -> bool {
    &&& 0 < start <= bs[k].addr
    &&& bs[k].addr + 32 <= start + 8 * ws.len()
    &&& bs[k].addr + 32 <= u64::MAX
    &&& bs[k].addr % 8 == 0
    &&& heap::header_at(ws, start, bs[k].addr).next == if k + 1 < bs.len() {
        bs[k + 1].addr
    } else {
        0
    }
}

/// The bytes that the first `n` headers account for.
pub open spec fn weight(ws: Seq<u64>, start: int, bs: Seq<Block>, n: nat) -> int
    decreases n,
{
    if n == 0 {
        0
    } else {
        weight(ws, start, bs, (n - 1) as nat) + 32 + heap::header_at(
            ws,
            start,
            bs[n - 1].addr,
        ).size
    }
}

/// The payload bytes of the first `n` headers that say they are free, or that
/// say they are not.
pub open spec fn payload_read(
    ws: Seq<u64>,
    start: int,
    bs: Seq<Block>,
    n: nat,
    free: bool,
) -> int
    decreases n,
{
    if n == 0 {
        0
    } else {
        let header = heap::header_at(ws, start, bs[n - 1].addr);
        payload_read(ws, start, bs, (n - 1) as nat, free) + if header.is_free == free {
            header.size as int
        } else {
            0
        }
    }
}

/// What is wrong with header `k`.
pub open spec fn node_fault(
    ws: Seq<u64>,
    start: int,
    bs: Seq<Block>,
    k: int,
) -> Option<&'static str> {
    let header = heap::header_at(ws, start, bs[k].addr);
    if header.magic != HEAP_MAGIC {
        Some("Heap invariant failure: Block header magic corruption")
    } else if k + 1 < bs.len() && heap::header_at(ws, start, bs[k + 1].addr).prev != bs[k].addr {
        Some("Heap invariant failure: Doubly-linked list pointer mismatch")
    } else if (bs[k].addr + 32) % 16 != 0 {
        Some("Heap invariant failure: Payload address unaligned to 16 bytes")
    } else {
        None
    }
}

/// What is wrong with the first of the headers from `k` on that something is
/// wrong with.
pub open spec fn list_fault(
    ws: Seq<u64>,
    start: int,
    bs: Seq<Block>,
    k: int,
) -> Option<&'static str>
    decreases bs.len() - k,
{
    if k >= bs.len() {
        None
    } else if node_fault(ws, start, bs, k) is Some {
        node_fault(ws, start, bs, k)
    } else {
        list_fault(ws, start, bs, k + 1)
    }
}

/// What is wrong with the heap: with its headers first, then with its totals.
pub open spec fn heap_fault(heap: HeapState, ws: Seq<u64>) -> Option<&'static str> {
    let s = heap.start as int;
    let bs = heap.blocks();
    if !heap.initialized {
        Some("Heap is not initialized")
    } else if list_fault(ws, s, bs, 0) is Some {
        list_fault(ws, s, bs, 0)
    } else if weight(ws, s, bs, bs.len()) != heap.stats.total_bytes {
        Some("Heap invariant failure: Calculated total bytes mismatch stats")
    } else if payload_read(ws, s, bs, bs.len(), true) != heap.stats.free_bytes {
        Some("Heap invariant failure: Calculated free bytes mismatch stats")
    } else if payload_read(ws, s, bs, bs.len(), false) != heap.stats.allocated_bytes {
        Some("Heap invariant failure: Calculated allocated bytes mismatch stats")
    } else {
        None
    }
}

/// Sums over fewer headers are smaller.
proof fn lemma_weight_grows(ws: Seq<u64>, start: int, bs: Seq<Block>, a: nat, b: nat)
    requires
        a <= b,
    ensures
        weight(ws, start, bs, a) <= weight(ws, start, bs, b),
        0 <= payload_read(ws, start, bs, a, true),
        0 <= payload_read(ws, start, bs, a, false),
        payload_read(ws, start, bs, a, true) + payload_read(ws, start, bs, a, false) + 32 * a
            == weight(ws, start, bs, a),
    decreases b,
{
    if a > 0 {
        lemma_weight_grows(ws, start, bs, (a - 1) as nat, (a - 1) as nat);
    }
    if a < b {
        lemma_weight_grows(ws, start, bs, a, (b - 1) as nat);
    }
}

/// Checks the headers and the totals of the heap, whatever they hold, as long as
/// the headers can be walked.
pub fn verify_invariants(frames: &[PageTable], mm: &MemoryManager, heap: &HeapState) -> (r: Result<
    (),
    &'static str,
>)
    requires
        heap.initialized ==> heap.placed(*mm, frames@) && walkable(
            heap.words(*mm, frames@),
            heap.start as int,
            heap.head,
            heap.blocks(),
        ),
    ensures
        r == match heap_fault(*heap, heap.words(*mm, frames@)) {
            Some(message) => Err::<(), &'static str>(message),
            None => Ok(()),
        },
{
    if !heap.initialized {
        return Err("Heap is not initialized");
    }
    let ghost ws = heap.words(*mm, frames@);
    let ghost bs = heap.blocks();
    let ghost s = heap.start as int;
    let ghost mut i: int = 0;
    let mut curr: u64 = heap.head;
    let mut calculated_total: u64 = 0;
    let mut calculated_free: u64 = 0;
    let mut calculated_alloc: u64 = 0;
    while curr != 0
        invariant
            heap.placed(*mm, frames@),
            ws == heap.words(*mm, frames@),
            bs == heap.blocks(),
            s == heap.start as int,
            heap.initialized,
            walkable(ws, s, heap.head, bs),
            0 <= i <= bs.len(),
            curr == if i < bs.len() {
                bs[i].addr
            } else {
                0
            },
            list_fault(ws, s, bs, 0) == list_fault(ws, s, bs, i),
            calculated_total == weight(ws, s, bs, i as nat),
            calculated_free == payload_read(ws, s, bs, i as nat, true),
            calculated_alloc == payload_read(ws, s, bs, i as nat, false),
        decreases bs.len() - i,
    {
        proof {
            assert(node_ok(ws, s, bs, i));
            heap::lemma_word_count(*heap, *mm, frames@);
            lemma_weight_grows(ws, s, bs, (i + 1) as nat, bs.len());
            lemma_weight_grows(ws, s, bs, i as nat, i as nat);
            if i + 1 < bs.len() {
                assert(node_ok(ws, s, bs, i + 1));
            }
        }
        let header = read_header(frames, mm, heap, curr);
        if header.magic != HEAP_MAGIC {
            return Err("Heap invariant failure: Block header magic corruption");
        }
        if header.next != 0 {
            let next = read_header(frames, mm, heap, header.next);
            if next.prev != curr {
                return Err("Heap invariant failure: Doubly-linked list pointer mismatch");
            }
        }
        let payload_addr: u64 = curr + HEADER_SIZE;
        if payload_addr % 16 != 0 {
            return Err("Heap invariant failure: Payload address unaligned to 16 bytes");
        }
        calculated_total = calculated_total + (HEADER_SIZE + header.size);
        if header.is_free {
            calculated_free = calculated_free + header.size;
        } else {
            calculated_alloc = calculated_alloc + header.size;
        }
        curr = header.next;
        proof {
            i = i + 1;
        }
    }
    proof {
        if i < bs.len() {
            assert(node_ok(ws, s, bs, i));
        }
    }
    if calculated_total != heap.stats.total_bytes {
        return Err("Heap invariant failure: Calculated total bytes mismatch stats");
    }
    if calculated_free != heap.stats.free_bytes {
        return Err("Heap invariant failure: Calculated free bytes mismatch stats");
    }
    if calculated_alloc != heap.stats.allocated_bytes {
        return Err("Heap invariant failure: Calculated allocated bytes mismatch stats");
    }
    Ok(())
}

/// What is read of the headers of a sound heap is what its blocks say.
proof fn lemma_sums_read(ws: Seq<u64>, start: int, bs: Seq<Block>, n: nat)
    requires
        blocks::image(ws, start, bs),
        n <= bs.len(),
    ensures
        payload_read(ws, start, bs, n, true) == blocks::payload(bs.take(n as int), true),
        payload_read(ws, start, bs, n, false) == blocks::payload(bs.take(n as int), false),
        weight(ws, start, bs, n) == blocks::payload(bs.take(n as int), true) + blocks::payload(
            bs.take(n as int),
            false,
        ) + 32 * n,
    decreases n,
{
    if n > 0 {
        lemma_sums_read(ws, start, bs, (n - 1) as nat);
        heap::lemma_header_read(ws, start, bs, n - 1);
        assert(bs.take(n as int).drop_last() =~= bs.take(n - 1));
        assert(bs.take(n as int).last() == bs[n - 1]);
    }
}

/// Every well-formed heap can be walked.
pub proof fn lemma_heap_walkable(heap: HeapState, mm: MemoryManager, mem: Seq<PageTable>)
    requires
        heap.wf(mm, mem),
        heap.initialized,
    ensures
        walkable(heap.words(mm, mem), heap.start as int, heap.head, heap.blocks()),
{
    let ws = heap.words(mm, mem);
    let bs = heap.blocks();
    let s = heap.start as int;
    heap::lemma_first(heap, mm, mem);
    heap::lemma_word_count(heap, mm, mem);
    assert forall|k: int| 0 <= k < bs.len() implies #[trigger] node_ok(ws, s, bs, k) by {
        heap::lemma_block_place(heap, mm, mem, k);
        heap::lemma_header_read(ws, s, bs, k);
        if k + 1 < bs.len() {
            heap::lemma_block_place(heap, mm, mem, k + 1);
        }
    }
    lemma_sums_read(ws, s, bs, bs.len());
    assert(bs.take(bs.len() as int) =~= bs);
    heap::lemma_chain(heap, mm, mem);
    blocks::lemma_payload_total(s, bs);
}

/// Every header of the blocks `bs` carries the mark.
pub open spec fn all_marked(bs: Seq<Block>) -> bool {
    forall|k: int| 0 <= k < bs.len() ==> (#[trigger] bs[k]).marked()
}

/// A well-formed heap whose headers carry the mark passes the check of its
/// invariants.
pub proof fn lemma_heap_verifies(heap: HeapState, mm: MemoryManager, mem: Seq<PageTable>)
    requires
        heap.wf(mm, mem),
        heap.initialized,
        all_marked(heap.blocks()),
    ensures
        heap_fault(heap, heap.words(mm, mem)) is None,
{
    let ws = heap.words(mm, mem);
    let bs = heap.blocks();
    let s = heap.start as int;
    assert forall|k: int| 0 <= k < bs.len() implies #[trigger] node_fault(ws, s, bs, k) is None by {
        heap::lemma_block_place(heap, mm, mem, k);
        lemma_node_sound(ws, s, bs, k);
    }
    lemma_no_fault(ws, s, bs, 0);
    lemma_sums_read(ws, s, bs, bs.len());
    assert(bs.take(bs.len() as int) =~= bs);
    heap::lemma_chain(heap, mm, mem);
    blocks::lemma_payload_total(s, bs);
}

/// Nothing is wrong with a header that reads as its block says.
proof fn lemma_node_sound(ws: Seq<u64>, start: int, bs: Seq<Block>, k: int)
    requires
        blocks::image(ws, start, bs),
        0 <= k < bs.len(),
        bs[k].marked(),
        bs[k].addr % 16 == 0,
    ensures
        node_fault(ws, start, bs, k) is None,
{
    heap::lemma_header_read(ws, start, bs, k);
    if k + 1 < bs.len() {
        heap::lemma_header_read(ws, start, bs, k + 1);
    }
    assert((bs[k].addr + 32) % 16 == 0);
}

proof fn lemma_no_fault(ws: Seq<u64>, start: int, bs: Seq<Block>, k: int)
    requires
        0 <= k <= bs.len(),
        forall|i: int| 0 <= i < bs.len() ==> #[trigger] node_fault(ws, start, bs, i) is None,
    ensures
        list_fault(ws, start, bs, k) is None,
    decreases bs.len() - k,
{
    if k < bs.len() {
        assert(node_fault(ws, start, bs, k) is None);
        lemma_no_fault(ws, start, bs, k + 1);
    }
}

/// No two neighbours among the blocks `bs` are free.
pub open spec fn coalesced(bs: Seq<Block>) -> bool {
    forall|k: int| 0 < k < bs.len() ==> !(#[trigger] bs[k].free && bs[k - 1].free)
}

/// Serving a request, giving a block back and growing keep every header marked
/// and no two free blocks side by side.
pub proof fn lemma_blocks_stay_coalesced(bs: Seq<Block>, k: int, size: int, bytes: int)
    requires
        all_marked(bs),
        coalesced(bs),
        0 <= k < bs.len(),
    ensures
        bs[k].free ==> all_marked(blocks::taken(bs, k, size)) && coalesced(
            blocks::taken(bs, k, size),
        ),
        !bs[k].free ==> all_marked(blocks::released(bs, k)) && coalesced(blocks::released(bs, k)),
        all_marked(blocks::extended(bs, bytes)),
        coalesced(blocks::extended(bs, bytes)),
{
    if bs[k].free {
        let after = blocks::taken(bs, k, size);
        let cut = bs[k].size - size >= 48;
        assert forall|i: int| 0 <= i < after.len() implies (#[trigger] after[i]).marked() by {
            if !(cut && i == k + 1) {
                let o = if !cut || i <= k {
                    i
                } else {
                    i - 1
                };
                assert(after[i].magic == bs[o].magic);
                assert(bs[o].marked());
            }
        }
        assert forall|i: int| 0 < i < after.len() implies !(#[trigger] after[i].free && after[i
            - 1].free) by {
            if !cut {
                assert(!(bs[i].free && bs[i - 1].free));
            } else if i < k {
                assert(!(bs[i].free && bs[i - 1].free));
            } else if i == k + 2 {
                assert(!(bs[k + 1].free && bs[k].free));
            } else if i > k + 2 {
                assert(!(bs[i - 1].free && bs[i - 2].free));
            }
        }
    } else {
        lemma_released_coalesced(bs, k);
    }
    let l = bs.len() - 1;
    let longer = blocks::extended(bs, bytes);
    assert(blocks::appended(bs, bytes)[l] == bs[l]);
    assert forall|i: int| 0 <= i < longer.len() implies (#[trigger] longer[i]).marked() by {
        if i < bs.len() {
            assert(longer[i].magic == bs[i].magic);
            assert(bs[i].marked());
        }
    }
    assert forall|i: int| 0 < i < longer.len() implies !(#[trigger] longer[i].free && longer[i
        - 1].free) by {
        if i < bs.len() {
            assert(!(bs[i].free && bs[i - 1].free));
        }
    }
}

proof fn lemma_released_coalesced(bs: Seq<Block>, k: int)
    requires
        all_marked(bs),
        coalesced(bs),
        0 <= k < bs.len(),
        !bs[k].free,
    ensures
        all_marked(blocks::released(bs, k)),
        coalesced(blocks::released(bs, k)),
{
    let after = blocks::released(bs, k);
    let right = k + 1 < bs.len() && bs[k + 1].free;
    let left = k > 0 && bs[k - 1].free;
    let one = blocks::marked_free(bs, k, true);
    let two = blocks::joined_next(one, k);
    let at = if left {
        k - 1
    } else {
        k
    };
    let cut = (if left {
        1int
    } else {
        0
    }) + (if right {
        1int
    } else {
        0
    });
    if k + 1 < bs.len() {
        assert(one[k + 1] == bs[k + 1]);
    }
    assert(after.len() == bs.len() - cut);
    assert forall|i: int| 0 <= i < after.len() implies #[trigger] after[i].magic == bs[if i <= at {
        i
    } else {
        i + cut
    }].magic && after[i].free == if i == at {
        true
    } else {
        bs[if i <= at {
            i
        } else {
            i + cut
        }].free
    } by {
        if left {
            assert(two[k - 1] == bs[k - 1]);
        }
    }
    assert forall|i: int| 0 <= i < after.len() implies (#[trigger] after[i]).marked() by {
        let o = if i <= at {
            i
        } else {
            i + cut
        };
        assert(after[i].magic == bs[o].magic);
        assert(bs[o].marked());
    }
    assert forall|i: int| 0 < i < after.len() implies !(#[trigger] after[i].free && after[i
        - 1].free) by {
        let o = if i <= at {
            i
        } else {
            i + cut
        };
        assert(after[i].magic == bs[o].magic);
        assert(after[i - 1].magic == bs[if i - 1 <= at {
            i - 1
        } else {
            i - 1 + cut
        }].magic);
        if i == at {
            assert(!(bs[at - 1].free && bs[at].free) || !left);
            if left {
                assert(!(bs[k - 1].free && bs[k - 2].free));
            } else {
                assert(!bs[k - 1].free);
            }
        } else if i == at + 1 {
            if right {
                assert(!(bs[k + 2].free && bs[k + 1].free));
            }
        } else {
            assert(!(bs[o].free && bs[o - 1].free));
        }
    }
}

/// Giving back what a request took brings the blocks back, where no two free
/// blocks stood side by side.
pub proof fn lemma_take_release(bs: Seq<Block>, k: int, size: int)
    requires
        coalesced(bs),
        0 <= k < bs.len(),
        bs[k].fits(size),
        bs[k].marked(),
    ensures
        blocks::released(blocks::taken(bs, k, size), k) == bs,
{
    let after = blocks::taken(bs, k, size);
    let back = blocks::released(after, k);
    if k > 0 {
        assert(!(bs[k].free && bs[k - 1].free));
        assert(after[k - 1] == bs[k - 1]);
    }
    if bs[k].size - size >= 48 {
        assert(after[k + 1].free);
        let one = blocks::marked_free(after, k, true);
        assert(one[k + 1] == after[k + 1]);
        assert forall|i: int| 0 <= i < bs.len() implies #[trigger] back[i] == bs[i] by {
            if i > k {
                assert(after[i + 1] == bs[i]);
            }
        }
        assert(back =~= bs);
    } else {
        if k + 1 < bs.len() {
            assert(!(bs[k + 1].free && bs[k].free));
            assert(after[k + 1] == bs[k + 1]);
        }
        assert(back =~= bs);
    }
}

/// The payloads of two blocks of a heap have no byte in common, and each starts
/// at a multiple of 16.
pub proof fn lemma_payloads_apart(
    heap: HeapState,
    mm: MemoryManager,
    mem: Seq<PageTable>,
    i: int,
    j: int,
    x: int,
)
    requires
        heap.wf(mm, mem),
        heap.initialized,
        0 <= i < heap.blocks().len(),
        0 <= j < heap.blocks().len(),
        i != j,
    ensures
        !(heap.blocks()[i].holds(x) && heap.blocks()[j].holds(x)),
        (heap.blocks()[i].addr + 32) % 16 == 0,
{
    heap::lemma_chain(heap, mm, mem);
    heap::lemma_block_place(heap, mm, mem, i);
    let bs = heap.blocks();
    if i < j {
        assert(bs[i].end() <= bs[j].addr);
    } else {
        assert(bs[j].end() <= bs[i].addr);
    }
}

/// Once bytes were given back, their header says so: giving them back again is
/// recognised.
pub proof fn lemma_double_free_seen(
    ws0: Seq<u64>,
    ws1: Seq<u64>,
    start: int,
    bs: Seq<Block>,
    k: int,
)
    requires
        heap::words_released(ws0, ws1, start, bs, k),
        bs[k].marked(),
    ensures
        heap::header_at(ws1, start, bs[k].addr).magic == HEAP_MAGIC,
        heap::header_at(ws1, start, bs[k].addr).is_free,
{
}

/// The heap is well-formed, set up and marked.
spec fn healthy(heap: HeapState, mm: MemoryManager, mem: Seq<PageTable>) -> bool {
    &&& heap.wf(mm, mem)
    &&& heap.initialized
    &&& all_marked(heap.blocks())
}

/// The blocks in use in one list are in use in another, at the same addresses
/// and with the same sizes.
#[verifier::opaque]
pub open spec fn uses_kept(bs0: Seq<Block>, bs1: Seq<Block>) -> bool {
    forall|a: int, s: int|
        blocks::in_use(bs0, a, s) ==> #[trigger] blocks::in_use(bs1, a, s)
}

/// No block in use starts at `addr`.
#[verifier::opaque]
spec fn unused(bs: Seq<Block>, addr: int) -> bool {
    forall|s: int| !#[trigger] blocks::in_use(bs, addr, s)
}

/// What was in use before a request was served is in use after it, and the block
/// that was handed out was not.
proof fn lemma_uses_allocated(bs0: Seq<Block>, before: Seq<Block>, after: Seq<Block>, at: int)
    requires
        uses_kept(bs0, before),
        uses_kept(before, after),
        unused(before, at),
    ensures
        uses_kept(bs0, after),
        unused(bs0, at),
{
    reveal(uses_kept);
    reveal(unused);
    assert forall|s: int| !#[trigger] blocks::in_use(bs0, at, s) by {
        assert(!blocks::in_use(before, at, s));
    }
    assert forall|a: int, s: int| blocks::in_use(bs0, a, s) implies #[trigger] blocks::in_use(
        after,
        a,
        s,
    ) by {
        assert(blocks::in_use(before, a, s));
    }
}

/// Giving back a block that was not in use at first keeps what was.
proof fn lemma_uses_released(bs0: Seq<Block>, before: Seq<Block>, after: Seq<Block>, at: int)
    requires
        uses_kept(bs0, before),
        unused(bs0, at),
        forall|a: int, x: int|
            a != at && blocks::in_use(before, a, x) ==> #[trigger] blocks::in_use(after, a, x),
    ensures
        uses_kept(bs0, after),
{
    reveal(uses_kept);
    reveal(unused);
    assert forall|a: int, s: int| blocks::in_use(bs0, a, s) implies #[trigger] blocks::in_use(
        after,
        a,
        s,
    ) by {
        assert(blocks::in_use(before, a, s));
        assert(!blocks::in_use(bs0, at, s));
    }
}

/// The pages that the largest request of the self-test makes the heap grow by.
pub const LARGE_PAGES: u64 = 65;

/// The state from which the requests of the self-test are foreseen.
struct Before {
    mm: MemoryManager,
    mem: Seq<PageTable>,
    end: int,
    pages: int,
    blocks: Seq<Block>,
    words: Seq<u64>,
    heap: HeapState,
}

/// The bytes that were in use in `before` are as they were.
#[verifier::opaque]
spec fn words_kept(heap: HeapState, mm: MemoryManager, mem: Seq<PageTable>, before: Before) -> bool {
    blocks::keeps(before.words, heap.words(mm, mem), heap.start as int, before.blocks)
}

/// A block that was in use holds the address of a byte in use.
proof fn lemma_still_in_use(bs0: Seq<Block>, bs1: Seq<Block>, x: int) -> (j: int)
    requires
        uses_kept(bs0, bs1),
        blocks::live(bs0, x),
    ensures
        0 <= j < bs1.len(),
        !bs1[j].free,
        bs1[j].holds(x),
        blocks::in_use(bs0, bs1[j].addr, bs1[j].size),
{
    reveal(uses_kept);
    let k = choose|k: int| 0 <= k < bs0.len() && !bs0[k].free && (#[trigger] bs0[k]).holds(x);
    assert(blocks::in_use(bs0, bs0[k].addr, bs0[k].size));
    assert(blocks::in_use(bs1, bs0[k].addr, bs0[k].size));
    choose|j: int|
        0 <= j < bs1.len() && !bs1[j].free && (#[trigger] bs1[j]).addr == bs0[k].addr
            && bs1[j].size == bs0[k].size
}

/// A request leaves the bytes that were in use at first.
proof fn lemma_words_allocated(
    h0: HeapState,
    mm0: MemoryManager,
    mem0: Seq<PageTable>,
    h1: HeapState,
    mm1: MemoryManager,
    mem1: Seq<PageTable>,
    before: Before,
)
    requires
        words_kept(h0, mm0, mem0, before),
        uses_kept(before.blocks, h0.blocks()),
        h1.start == h0.start,
        blocks::keeps(h0.words(mm0, mem0), h1.words(mm1, mem1), h0.start as int, h0.blocks()),
    ensures
        words_kept(h1, mm1, mem1, before),
{
    reveal(words_kept);
    assert forall|x: int| blocks::live(before.blocks, x) implies #[trigger] blocks::live(
        h0.blocks(),
        x,
    ) by {
        let j = lemma_still_in_use(before.blocks, h0.blocks(), x);
    }
    blocks::lemma_keeps_transitive(
        before.words,
        h0.words(mm0, mem0),
        h1.words(mm1, mem1),
        h0.start as int,
        before.blocks,
        h0.blocks(),
    );
}

/// Giving back a block that was not in use at first leaves the bytes that were.
proof fn lemma_words_released(
    h0: HeapState,
    h1: HeapState,
    mm: MemoryManager,
    mem0: Seq<PageTable>,
    mem1: Seq<PageTable>,
    k: int,
    before: Before,
)
    requires
        words_kept(h0, mm, mem0, before),
        uses_kept(before.blocks, h0.blocks()),
        0 <= k < h0.blocks().len(),
        unused(before.blocks, h0.blocks()[k].addr),
        h1.start == h0.start,
        heap::words_released(
            h0.words(mm, mem0),
            h1.words(mm, mem1),
            h0.start as int,
            h0.blocks(),
            k,
        ),
    ensures
        words_kept(h1, mm, mem1, before),
{
    reveal(words_kept);
    reveal(unused);
    let left = blocks::marked_free(h0.blocks(), k, true);
    assert forall|x: int| blocks::live(before.blocks, x) implies #[trigger] blocks::live(left, x) by {
        let j = lemma_still_in_use(before.blocks, h0.blocks(), x);
        assert(j != k);
        assert(left[j] == h0.blocks()[j]);
    }
    blocks::lemma_keeps_transitive(
        before.words,
        h0.words(mm, mem0),
        h1.words(mm, mem1),
        h0.start as int,
        before.blocks,
        left,
    );
}

/// Writing to a block that was not in use at first leaves the bytes that were.
proof fn lemma_words_filled(
    heap: HeapState,
    mm: MemoryManager,
    mem0: Seq<PageTable>,
    mem1: Seq<PageTable>,
    k: int,
    addr: int,
    value: u64,
    before: Before,
)
    requires
        heap.wf(mm, mem0),
        heap.initialized,
        words_kept(heap, mm, mem0, before),
        uses_kept(before.blocks, heap.blocks()),
        0 <= k < heap.blocks().len(),
        heap.blocks()[k].holds(addr),
        unused(before.blocks, heap.blocks()[k].addr),
        addr % 8 == 0,
        heap.words(mm, mem1) == heap.words(mm, mem0).update((addr - heap.start) / 8, value),
    ensures
        words_kept(heap, mm, mem1, before),
{
    reveal(words_kept);
    reveal(unused);
    let bs = heap.blocks();
    let start = heap.start as int;
    heap::lemma_chain(heap, mm, mem0);
    assert forall|i: int|
        0 <= i < before.words.len() && blocks::live(before.blocks, start + 8 * i) implies (
    #[trigger] heap.words(mm, mem1)[i]) == before.words[i] by {
        let j = lemma_still_in_use(before.blocks, bs, start + 8 * i);
        assert(j != k);
        if j < k {
            assert(bs[j].end() <= bs[k].addr);
        } else {
            assert(bs[k].end() <= bs[j].addr);
        }
        assert(i != (addr - start) / 8);
        assert(heap.words(mm, mem0)[i] == before.words[i]);
    }
}

/// All but the heap is as it was in `before`.
spec fn beside(heap: HeapState, mm: MemoryManager, mem: Seq<PageTable>, before: Before) -> bool {
    heap_plan::beside(before.mm, before.mem, before.pages, heap, mm, mem)
}

/// The heap is as planned from `before`, and all else is as it was.
spec fn on_plan(
    plan: Plan,
    heap: HeapState,
    mm: MemoryManager,
    mem: Seq<PageTable>,
    before: Before,
) -> bool {
    &&& plan.met(heap, mm, mem, before.mm, before.mem, before.end)
    &&& beside(heap, mm, mem, before)
    &&& plan.followed(before.heap, heap)
}

/// Whether a request is refused is as planned.
proof fn lemma_planned(
    plan: Plan,
    heap: HeapState,
    mm: MemoryManager,
    mem: Seq<PageTable>,
    before: Before,
    size: int,
)
    requires
        heap.wf(mm, mem),
        heap.initialized,
        on_plan(plan, heap, mm, mem, before),
        0 < size <= 0x4_0000,
    ensures
        heap.blocks() == plan.blocks,
        heap::growth_refused(heap, mm, mem, heap::growth_pages(size)) <==> !heap_plan::growth_room(
            before.mm,
            before.mem,
            before.end,
            plan.grown + heap::growth_pages(size),
        ),
        heap::growth_refused(heap, mm, mem, heap::growth_pages(size)) <==> !heap_plan::growth_room(
            mm,
            mem,
            heap.current_end as int,
            heap::growth_pages(size),
        ),
{
    reveal(Plan::met);
    reveal(window::backed);
    let pages = heap::growth_pages(size);
    assert(0 < pages <= 65);
    assert(heap.current_end <= window::LOWER_HALF_END);
    heap_plan::lemma_growth_room(heap, mm, mem, pages);
    assert(heap_plan::growth_room(mm, mem, heap.current_end as int, pages) <==> heap_plan::growth_room(
        before.mm,
        before.mem,
        before.end,
        plan.grown + pages,
    ));
}

/// Growing keeps every header marked.
pub(crate) proof fn lemma_extended_marked(bs: Seq<Block>, bytes: int)
    requires
        bs.len() > 0,
        all_marked(bs),
    ensures
        all_marked(blocks::extended(bs, bytes)),
{
    let l = bs.len() - 1;
    let grown = blocks::extended(bs, bytes);
    assert(blocks::appended(bs, bytes)[l] == bs[l]);
    assert forall|i: int| 0 <= i < grown.len() implies (#[trigger] grown[i]).marked() by {
        if i < bs.len() {
            assert(grown[i].magic == bs[i].magic);
            assert(bs[i].marked());
        }
    }
}

/// Hands out `size` bytes of a healthy heap and says what that does to its
/// blocks.
#[verifier::rlimit(30)]
fn test_allocate(
    frames: &mut [PageTable],
    mm: &mut MemoryManager,
    heap: &mut HeapState,
    size: u64,
    Ghost(room): Ghost<int>,
    Ghost(plan): Ghost<Plan>,
    Ghost(before): Ghost<Before>,
) -> (r: u64)
    requires
        healthy(*old(heap), *old(mm), old(frames)@),
        on_plan(plan, *old(heap), *old(mm), old(frames)@, before),
        words_kept(*old(heap), *old(mm), old(frames)@, before),
        uses_kept(before.blocks, old(heap).blocks()),
        0 < size <= 0x4_0000,
        size % 16 == 0,
        old(heap).stats.allocation_count < u64::MAX,
        old(heap).stats.expansion_count < u64::MAX,
    ensures
        healthy(*final(heap), *final(mm), final(frames)@),
        final(heap).stats.allocation_count <= old(heap).stats.allocation_count + 1,
        final(heap).stats.expansion_count <= old(heap).stats.expansion_count + 1,
        final(heap).stats.free_count == old(heap).stats.free_count,
        final(heap).start == old(heap).start,
        final(mm).vmm@ == old(mm).vmm@,
        final(mm).vmm.next_dynamic_addr == old(mm).vmm.next_dynamic_addr,
        match plan.request(before.mm, before.mem, before.end, size as int) {
            Some(next) => {
                &&& r != 0
                &&& r == plan.place(size as int) + 32
                &&& on_plan(next, *final(heap), *final(mm), final(frames)@, before)
            },
            None => r == 0,
        },
        beside(*final(heap), *final(mm), final(frames)@, before),
        words_kept(*final(heap), *final(mm), final(frames)@, before),
        r == 0 ==> *final(heap) == *old(heap),
        r != 0 ==> exists|s: int|
            {
                &&& s >= size
                &&& #[trigger] blocks::in_use(final(heap).blocks(), r - 32, s)
                &&& blocks::payload(final(heap).blocks(), false) == blocks::payload(
                    old(heap).blocks(),
                    false,
                ) + s
            },
        r != 0 ==> r > 32 && unused(old(heap).blocks(), r - 32),
        uses_kept(old(heap).blocks(), final(heap).blocks()),
        blocks::has_room(old(heap).blocks(), room) && room - size >= 48 ==> r != 0
            && blocks::has_room(final(heap).blocks(), room - size - 32),
        heap_plan::growth_room(
            *old(mm),
            old(frames)@,
            old(heap).current_end as int,
            LARGE_PAGES as int,
        ) ==> {
            &&& r != 0
            &&& blocks::has_room(old(heap).blocks(), room) && room - size >= 48 ==> heap_plan::growth_room(
                *final(mm),
                final(frames)@,
                final(heap).current_end as int,
                LARGE_PAGES as int,
            )
        },
{
    let ghost mm0 = *mm;
    let ghost mem0 = frames@;
    let ghost h0 = *heap;
    let ghost bs = heap.blocks();
    let ghost start = heap.start as int;
    proof {
        reveal(Plan::request);
        reveal(Plan::place);
        heap::lemma_chain(h0, mm0, mem0);
        blocks::lemma_stop(bs, size as int, 0);
        assert(heap::rounded(size as int) == size);
        if blocks::has_room(bs, room) && room - size >= 48 {
            blocks::lemma_room_found(bs, size as int, room);
        }
        lemma_planned(plan, h0, mm0, mem0, before, size as int);
        if heap_plan::growth_room(mm0, mem0, h0.current_end as int, LARGE_PAGES as int) {
            heap_plan::lemma_growth_smaller(
                mm0,
                mem0,
                h0.current_end as int,
                heap::growth_pages(size as int),
                LARGE_PAGES as int,
            );
        }
    }
    let r: u64 = allocate(frames, mm, heap, size);
    proof {
        lemma_words_allocated(h0, mm0, mem0, *heap, *mm, frames@, before);
        reveal(uses_kept);
        reveal(unused);
        match blocks::stop_from(bs, size as int, 0) {
            Some(k) => {
                assert(bs[k].marked());
                heap_plan::lemma_beside_written(
                    before.mm,
                    before.mem,
                    before.pages,
                    h0,
                    *heap,
                    mm0,
                    mem0,
                    frames@,
                );
                heap_plan::lemma_growth_kept(
                    mm0,
                    mem0,
                    frames@,
                    start,
                    h0.pages(),
                    h0.current_end as int,
                    LARGE_PAGES as int,
                );
                heap_plan::lemma_written_as_planned(
                    plan,
                    Plan {
                        blocks: blocks::taken(bs, k, size as int),
                        requests: plan.requests + 1,
                        ..plan
                    },
                    h0,
                    *heap,
                    mm0,
                    mem0,
                    frames@,
                    before.mm,
                    before.mem,
                    before.end,
                );
                lemma_taken_facts(start, h0.current_end as int, bs, k, size as int, room);
                assert(bs[k].addr >= start);
                let s = if bs[k].size - size >= 48 {
                    size as int
                } else {
                    bs[k].size
                };
                assert(blocks::in_use(heap.blocks(), r - 32, s));
            },
            None => {
                if r == 0 {
                    heap_plan::lemma_beside_refused(
                        before.mm,
                        before.mem,
                        before.pages,
                        h0,
                        mm0,
                        mem0,
                        *mm,
                        frames@,
                    );
                } else {
                    let pages = heap::growth_pages(size as int);
                    heap_plan::lemma_beside_grown(
                        before.mm,
                        before.mem,
                        before.pages,
                        h0,
                        mm0,
                        mem0,
                        *heap,
                        *mm,
                        frames@,
                        pages,
                    );
                    let bytes = 4096 * pages;
                    let grown = blocks::extended(bs, bytes);
                    heap_plan::lemma_grown_as_planned(
                        plan,
                        Plan {
                            blocks: blocks::taken(grown, grown.len() - 1, size as int),
                            grown: plan.grown + pages,
                            requests: plan.requests + 1,
                            growths: plan.growths + 1,
                            ..plan
                        },
                        h0,
                        mm0,
                        mem0,
                        *heap,
                        *mm,
                        frames@,
                        pages,
                        before.mm,
                        before.mem,
                        before.end,
                    );
                    heap::lemma_extended_totals(start, h0.current_end as int, bs, bytes);
                    heap::lemma_grown_has_room(h0, mm0, mem0, size as int);
                    lemma_extended_marked(bs, bytes);
                    lemma_taken_facts(
                        start,
                        h0.current_end + bytes,
                        grown,
                        grown.len() - 1,
                        size as int,
                        room,
                    );
                    let b = grown[grown.len() - 1];
                    assert(b.addr >= start);
                    let s = if b.size - size >= 48 {
                        size as int
                    } else {
                        b.size
                    };
                    assert(blocks::in_use(heap.blocks(), r - 32, s));
                    assert forall|a: int, s: int|
                        blocks::in_use(bs, a, s) implies #[trigger] blocks::in_use(
                        heap.blocks(),
                        a,
                        s,
                    ) by {
                        blocks::lemma_extended_in_use(bs, bytes, a, s);
                    }
                    assert forall|s: int| !#[trigger] blocks::in_use(bs, r - 32, s) by {
                        blocks::lemma_extended_in_use(bs, bytes, r - 32, s);
                    }
                }
            },
        }
    }
    r
}

/// What taking block `k` for `size` bytes does.
pub(crate) proof fn lemma_taken_facts(
    start: int,
    end: int,
    bs: Seq<Block>,
    k: int,
    size: int,
    room: int,
)
    requires
        blocks::chained(start, end, bs),
        all_marked(bs),
        0 <= k < bs.len(),
        bs[k].fits(size),
        size % 16 == 0,
        16 <= size,
    ensures
        ({
            let after = blocks::taken(bs, k, size);
            let s = if bs[k].size - size >= 48 {
                size
            } else {
                bs[k].size
            };
            &&& blocks::chained(start, end, after)
            &&& all_marked(after)
            &&& blocks::in_use(after, bs[k].addr, s)
            &&& blocks::payload(after, false) == blocks::payload(bs, false) + s
            &&& forall|x: int| !#[trigger] blocks::in_use(bs, bs[k].addr, x)
            &&& forall|a: int, x: int|
                blocks::in_use(bs, a, x) ==> #[trigger] blocks::in_use(after, a, x)
            &&& blocks::has_room(bs, room) && room - size >= 48 ==> blocks::has_room(
                after,
                room - size - 32,
            )
        }),
{
    let after = blocks::taken(bs, k, size);
    let cut = bs[k].size - size >= 48;
    let mid = if cut {
        blocks::split(bs, k, size)
    } else {
        bs
    };
    if cut {
        blocks::lemma_split(start, end, bs, k, size);
    }
    blocks::lemma_marked_free(start, end, mid, k, false);
    assert forall|i: int| 0 <= i < after.len() implies (#[trigger] after[i]).marked() by {
        if !(cut && i == k + 1) {
            let o = if !cut || i <= k {
                i
            } else {
                i - 1
            };
            assert(after[i].magic == bs[o].magic);
            assert(bs[o].marked());
        }
    }
    blocks::lemma_taken_in_use(start, end, bs, k, size, 0, 0);
    assert forall|x: int| !#[trigger] blocks::in_use(bs, bs[k].addr, x) by {
        blocks::lemma_taken_in_use(start, end, bs, k, size, 0, x);
    }
    assert forall|a: int, x: int| blocks::in_use(bs, a, x) implies #[trigger] blocks::in_use(
        after,
        a,
        x,
    ) by {
        blocks::lemma_taken_in_use(start, end, bs, k, size, a, x);
    }
    if blocks::has_room(bs, room) && room - size >= 48 {
        blocks::lemma_taken_room(bs, k, size, room);
    }
}

/// Giving a block back is as planned.
proof fn lemma_released_as_planned(
    plan: Plan,
    h0: HeapState,
    h1: HeapState,
    mm: MemoryManager,
    mem0: Seq<PageTable>,
    mem1: Seq<PageTable>,
    before: Before,
    addr: int,
)
    requires
        h0.placed(mm, mem0),
        on_plan(plan, h0, mm, mem0, before),
        window::only_within(mm, mem0, mem1, h0.start as int, h0.pages()),
        h1.initialized == h0.initialized,
        h1.start == h0.start,
        h1.current_end == h0.current_end,
        h1.stats.allocation_count == h0.stats.allocation_count,
        h1.stats.free_count == h0.stats.free_count + 1,
        h1.stats.expansion_count == h0.stats.expansion_count,
        h1.blocks() == blocks::released(h0.blocks(), blocks::block_at(h0.blocks(), addr)),
    ensures
        on_plan(plan.release(addr), h1, mm, mem1, before),
        heap_plan::growth_room(mm, mem0, h0.current_end as int, LARGE_PAGES as int)
            ==> heap_plan::growth_room(mm, mem1, h1.current_end as int, LARGE_PAGES as int),
{
    heap_plan::lemma_growth_kept(
        mm,
        mem0,
        mem1,
        h0.start as int,
        h0.pages(),
        h0.current_end as int,
        LARGE_PAGES as int,
    );
    heap_plan::lemma_beside_written(
        before.mm,
        before.mem,
        before.pages,
        h0,
        h1,
        mm,
        mem0,
        mem1,
    );
    reveal(Plan::release);
    assert(plan.blocks == h0.blocks()) by {
        reveal(Plan::met);
    }
    heap_plan::lemma_written_as_planned(
        plan,
        plan.release(addr),
        h0,
        h1,
        mm,
        mem0,
        mem1,
        before.mm,
        before.mem,
        before.end,
    );
}

/// Gives back `size` bytes of a healthy heap and says what that does to its
/// blocks.
#[verifier::rlimit(60)]
fn test_deallocate(
    frames: &mut [PageTable],
    mm: &MemoryManager,
    heap: &mut HeapState,
    ptr: u64,
    size: u64,
    Ghost(s): Ghost<int>,
    Ghost(room): Ghost<int>,
    Ghost(plan): Ghost<Plan>,
    Ghost(before): Ghost<Before>,
)
    requires
        healthy(*old(heap), *mm, old(frames)@),
        on_plan(plan, *old(heap), *mm, old(frames)@, before),
        words_kept(*old(heap), *mm, old(frames)@, before),
        uses_kept(before.blocks, old(heap).blocks()),
        unused(before.blocks, ptr - 32),
        size > 0,
        ptr > 32,
        blocks::in_use(old(heap).blocks(), ptr - 32, s),
        old(heap).stats.free_count < u64::MAX,
    ensures
        healthy(*final(heap), *mm, final(frames)@),
        final(heap).stats.allocation_count == old(heap).stats.allocation_count,
        final(heap).stats.expansion_count == old(heap).stats.expansion_count,
        final(heap).stats.free_count == old(heap).stats.free_count + 1,
        final(heap).start == old(heap).start,
        final(heap).current_end == old(heap).current_end,
        blocks::payload(final(heap).blocks(), false) == blocks::payload(
            old(heap).blocks(),
            false,
        ) - s,
        forall|a: int, x: int|
            a != ptr - 32 && blocks::in_use(old(heap).blocks(), a, x) ==> #[trigger] blocks::in_use(
                final(heap).blocks(),
                a,
                x,
            ),
        blocks::has_room(old(heap).blocks(), room) ==> blocks::has_room(
            final(heap).blocks(),
            room,
        ),
        on_plan(plan.release(ptr - 32), *final(heap), *mm, final(frames)@, before),
        words_kept(*final(heap), *mm, final(frames)@, before),
        heap_plan::growth_room(*mm, old(frames)@, old(heap).current_end as int, LARGE_PAGES as int)
            ==> heap_plan::growth_room(
            *mm,
            final(frames)@,
            final(heap).current_end as int,
            LARGE_PAGES as int,
        ),
        final(heap).words(*mm, final(frames)@)[(ptr - old(heap).start) / 8] == blocks::POISON,
        old(heap).start <= ptr < old(heap).current_end,
        ptr % 16 == 0,
{
    let ghost mem0 = frames@;
    let ghost h0 = *heap;
    let ghost bs = heap.blocks();
    let ghost start = heap.start as int;
    let ghost k = choose|k: int|
        0 <= k < bs.len() && !bs[k].free && (#[trigger] bs[k]).addr == ptr - 32 && bs[k].size == s;
    proof {
        heap::lemma_chain(h0, *mm, mem0);
        heap::lemma_block_place(h0, *mm, mem0, k);
        assert(bs[k].addr == ptr - 32);
        assert(blocks::has_block(bs, ptr - 32));
        heap::lemma_header_read(h0.words(*mm, mem0), start, bs, k);
        assert(bs[k].marked());
        assert(blocks::block_at(bs, ptr - 32) == k) by {
            let j = blocks::block_at(bs, ptr - 32);
            if j < k {
                assert(bs[j].end() <= bs[k].addr);
            } else if k < j {
                assert(bs[k].end() <= bs[j].addr);
            }
        }
    }
    let outcome = deallocate(frames, mm, heap, ptr, size);
    proof {
        assert(outcome == heap::DeallocateOutcome::Freed);
        lemma_words_released(h0, *heap, *mm, mem0, frames@, k, before);
        lemma_released_as_planned(plan, h0, *heap, *mm, mem0, frames@, before, ptr - 32);
        blocks::lemma_released(start, h0.current_end as int, bs, k);
        lemma_released_marked(bs, k);
        assert forall|a: int, x: int|
            a != ptr - 32 && blocks::in_use(bs, a, x) implies #[trigger] blocks::in_use(
            heap.blocks(),
            a,
            x,
        ) by {
            blocks::lemma_released_in_use(bs, k, a, x);
        }
        if blocks::has_room(bs, room) {
            blocks::lemma_released_room(bs, k, room);
        }
        heap::lemma_payload_words(h0, *mm, mem0, k);
        assert(blocks::place(start, bs[k].addr, 4) == (ptr - start) / 8);
    }
}

/// Giving a block back keeps every header marked.
pub(crate) proof fn lemma_released_marked(bs: Seq<Block>, k: int)
    requires
        all_marked(bs),
        0 <= k < bs.len(),
    ensures
        all_marked(blocks::released(bs, k)),
{
    let one = blocks::marked_free(bs, k, true);
    let two = blocks::joined_next(one, k);
    let after = blocks::released(bs, k);
    assert forall|i: int| 0 <= i < one.len() implies (#[trigger] one[i]).marked() by {
        assert(bs[i].marked());
    }
    assert forall|i: int| 0 <= i < two.len() implies (#[trigger] two[i]).marked() by {
        assert(one[i].marked());
        if two.len() < one.len() && i > k {
            assert(one[i + 1].marked());
            assert(two[i] == one[i + 1]);
        }
    }
    assert forall|i: int| 0 <= i < after.len() implies (#[trigger] after[i]).marked() by {
        assert(two[i].marked());
        if after.len() < two.len() && i > k - 1 {
            assert(two[i + 1].marked());
            assert(after[i] == two[i + 1]);
        }
    }
}

/// Writing to payloads is as planned.
proof fn lemma_filled_as_planned(
    plan: Plan,
    heap: HeapState,
    mm: MemoryManager,
    mem0: Seq<PageTable>,
    mem1: Seq<PageTable>,
    before: Before,
)
    requires
        heap.placed(mm, mem0),
        on_plan(plan, heap, mm, mem0, before),
        window::only_within(mm, mem0, mem1, heap.start as int, heap.pages()),
    ensures
        on_plan(plan, heap, mm, mem1, before),
        heap_plan::growth_room(mm, mem0, heap.current_end as int, LARGE_PAGES as int)
            ==> heap_plan::growth_room(mm, mem1, heap.current_end as int, LARGE_PAGES as int),
{
    heap_plan::lemma_growth_kept(
        mm,
        mem0,
        mem1,
        heap.start as int,
        heap.pages(),
        heap.current_end as int,
        LARGE_PAGES as int,
    );
    heap_plan::lemma_beside_written(
        before.mm,
        before.mem,
        before.pages,
        heap,
        heap,
        mm,
        mem0,
        mem1,
    );
    assert(plan.blocks == heap.blocks()) by {
        reveal(Plan::met);
    }
    heap_plan::lemma_written_as_planned(
        plan,
        plan,
        heap,
        heap,
        mm,
        mem0,
        mem1,
        before.mm,
        before.mem,
        before.end,
    );
}

/// Fills the first `size` bytes of a block in use with the word `value`.
#[verifier::rlimit(30)]
fn fill(
    frames: &mut [PageTable],
    mm: &MemoryManager,
    heap: &HeapState,
    ptr: u64,
    size: u64,
    value: u64,
    Ghost(s): Ghost<int>,
    Ghost(plan): Ghost<Plan>,
    Ghost(before): Ghost<Before>,
)
    requires
        healthy(*heap, *mm, old(frames)@),
        on_plan(plan, *heap, *mm, old(frames)@, before),
        words_kept(*heap, *mm, old(frames)@, before),
        uses_kept(before.blocks, heap.blocks()),
        unused(before.blocks, ptr - 32),
        ptr > 32,
        blocks::in_use(heap.blocks(), ptr - 32, s),
        0 < size <= s,
        size % 8 == 0,
    ensures
        healthy(*heap, *mm, final(frames)@),
        ptr % 8 == 0,
        blocks::live(heap.blocks(), ptr as int),
        heap.words(*mm, final(frames)@)[(ptr - heap.start) / 8] == value,
        on_plan(plan, *heap, *mm, final(frames)@, before),
        words_kept(*heap, *mm, final(frames)@, before),
        heap_plan::growth_room(*mm, old(frames)@, heap.current_end as int, LARGE_PAGES as int) ==> heap_plan::growth_room(
            *mm,
            final(frames)@,
            heap.current_end as int,
            LARGE_PAGES as int,
        ),
{
    let ghost bs = heap.blocks();
    let ghost k = choose|k: int|
        0 <= k < bs.len() && !bs[k].free && (#[trigger] bs[k]).addr == ptr - 32 && bs[k].size == s;
    proof {
        heap::lemma_block_place(*heap, *mm, frames@, k);
        assert(bs[k].holds(ptr as int));
    }
    let mut i: u64 = 0;
    while i < size
        invariant
            healthy(*heap, *mm, frames@),
            bs == heap.blocks(),
            0 <= k < bs.len(),
            !bs[k].free,
            bs[k].addr == ptr - 32,
            bs[k].size == s,
            bs[k].end() <= heap.current_end,
            heap.start <= bs[k].addr,
            ptr % 8 == 0,
            i % 8 == 0,
            i <= size <= s,
            size % 8 == 0,
            i > 0 ==> heap.words(*mm, frames@)[(ptr - heap.start) / 8] == value,
            on_plan(plan, *heap, *mm, frames@, before),
            words_kept(*heap, *mm, frames@, before),
            uses_kept(before.blocks, bs),
            unused(before.blocks, ptr - 32),
            heap_plan::growth_room(*mm, old(frames)@, heap.current_end as int, LARGE_PAGES as int)
                ==> heap_plan::growth_room(*mm, frames@, heap.current_end as int, LARGE_PAGES as int),
        decreases size - i,
    {
        let ghost mem0 = frames@;
        proof {
            assert(bs[k].holds(ptr + i));
            heap::lemma_word_count(*heap, *mm, frames@);
        }
        write_payload(frames, mm, heap, ptr + i, value);
        proof {
            lemma_filled_as_planned(plan, *heap, *mm, mem0, frames@, before);
            lemma_words_filled(*heap, *mm, mem0, frames@, k, ptr + i, value, before);
        }
        i = i + 8;
    }
}

/// A heap without a fault is marked.
pub(crate) proof fn lemma_no_fault_marked(heap: HeapState, mm: MemoryManager, mem: Seq<PageTable>)
    requires
        heap.wf(mm, mem),
        heap_fault(heap, heap.words(mm, mem)) is None,
    ensures
        all_marked(heap.blocks()),
{
    let ws = heap.words(mm, mem);
    let bs = heap.blocks();
    assert forall|k: int| 0 <= k < bs.len() implies (#[trigger] bs[k]).marked() by {
        lemma_fault_found(ws, heap.start as int, bs, 0, k);
        heap::lemma_header_read(ws, heap.start as int, bs, k);
    }
}

/// If something is wrong with the headers, it is with one of them.
pub(crate) proof fn lemma_first_fault(ws: Seq<u64>, start: int, bs: Seq<Block>, i: int)
    requires
        0 <= i <= bs.len(),
        list_fault(ws, start, bs, i) is Some,
    ensures
        exists|k: int| i <= k < bs.len() && #[trigger] node_fault(ws, start, bs, k) is Some,
    decreases bs.len() - i,
{
    if i < bs.len() && node_fault(ws, start, bs, i) is None {
        lemma_first_fault(ws, start, bs, i + 1);
    }
}

pub(crate) proof fn lemma_fault_found(ws: Seq<u64>, start: int, bs: Seq<Block>, i: int, k: int)
    requires
        0 <= i <= k < bs.len(),
        list_fault(ws, start, bs, i) is None,
    ensures
        node_fault(ws, start, bs, k) is None,
    decreases k - i,
{
    if i < k {
        lemma_fault_found(ws, start, bs, i + 1, k);
    }
}

/// The bytes of free room in one block that the self-test needs at most.
pub const SELF_TEST_ROOM: u64 = 0x4_0000 + 0x1000;

/// The bytes of free room in one block that it needs where the heap can grow.
pub const SMALL_ROOM: u64 = 0x1000;

/// What the self-test does to a sound heap, and which of its requests the heap
/// cannot serve; none if it serves all of them. A request that is not served ends
/// the test: what was handed out before it stays in use.
pub open spec fn course(heap: HeapState, mm: MemoryManager, mem: Seq<PageTable>) -> (
    Plan,
    Option<&'static str>,
) {
    let end = heap.current_end as int;
    let at_first = Plan::first(heap);
    match at_first.request(mm, mem, end, 64) {
        None => (at_first, Some("64-byte allocation returned null!")),
        Some(one) => match one.request(mm, mem, end, 1024) {
            None => (one, Some("1024-byte allocation returned null!")),
            Some(two) => {
                let freed = two.release(at_first.place(64));
                match freed.request(mm, mem, end, 32) {
                    None => (freed, Some("Re-allocation p3 returned null!")),
                    Some(three) => {
                        let empty = three.release(one.place(1024)).release(freed.place(32));
                        match empty.request(mm, mem, end, 0x4_0000) {
                            None => (
                                empty,
                                Some("Large heap expansion allocation returned null!"),
                            ),
                            Some(large) => (large.release(empty.place(0x4_0000)), None),
                        }
                    },
                }
            },
        },
    }
}

/// A self-test that serves all its requests hands out and takes back four times.
proof fn lemma_course_counts(heap: HeapState, mm: MemoryManager, mem: Seq<PageTable>)
    requires
        course(heap, mm, mem).1 is None,
    ensures
        course(heap, mm, mem).0.requests == 4,
        course(heap, mm, mem).0.releases == 4,
{
    reveal(Plan::request);
    reveal(Plan::release);
}

/// The requests of the self-test on a healthy heap.
#[verifier::rlimit(30)]
fn test_requests(frames: &mut [PageTable], mm: &mut MemoryManager, heap: &mut HeapState) -> (r:
    Result<(), &'static str>)
    requires
        healthy(*old(heap), *old(mm), old(frames)@),
        old(heap).stats.allocation_count <= u64::MAX - 4,
        old(heap).stats.expansion_count <= u64::MAX - 4,
        old(heap).stats.free_count <= u64::MAX - 4,
    ensures
        healthy(*final(heap), *final(mm), final(frames)@),
        final(mm).vmm@ == old(mm).vmm@,
        final(mm).vmm.next_dynamic_addr == old(mm).vmm.next_dynamic_addr,
        r == match course(*old(heap), *old(mm), old(frames)@).1 {
            Some(message) => Err::<(), &'static str>(message),
            None => Ok(()),
        },
        r is Ok ==> blocks::payload(final(heap).blocks(), false) == blocks::payload(
            old(heap).blocks(),
            false,
        ),
        course(*old(heap), *old(mm), old(frames)@).0.followed(*old(heap), *final(heap)),
        blocks::keeps(
            old(heap).words(*old(mm), old(frames)@),
            final(heap).words(*final(mm), final(frames)@),
            old(heap).start as int,
            old(heap).blocks(),
        ),
        heap_plan::beside(
            *old(mm),
            old(frames)@,
            old(heap).pages(),
            *final(heap),
            *final(mm),
            final(frames)@,
        ),
        uses_kept(old(heap).blocks(), final(heap).blocks()),
        blocks::has_room(old(heap).blocks(), SELF_TEST_ROOM as int) ==> r is Ok,
        blocks::has_room(old(heap).blocks(), SMALL_ROOM as int) && heap_plan::growth_room(
            *old(mm),
            old(frames)@,
            old(heap).current_end as int,
            LARGE_PAGES as int,
        ) ==> r is Ok,
{
    let ghost room: int = if blocks::has_room(heap.blocks(), SELF_TEST_ROOM as int) {
        SELF_TEST_ROOM as int
    } else {
        SMALL_ROOM as int
    };
    let ghost bs0 = heap.blocks();
    assert(uses_kept(bs0, bs0)) by {
        reveal(uses_kept);
    }
    let ghost before = Before {
        mm: *mm,
        mem: frames@,
        end: heap.current_end as int,
        pages: heap.pages(),
        blocks: bs0,
        words: heap.words(*mm, frames@),
        heap: *heap,
    };
    proof {
        reveal(words_kept);
    }
    let ghost at_first = Plan::first(*heap);
    assert(on_plan(at_first, *heap, *mm, frames@, before)) by {
        reveal(Plan::met);
        heap_plan::lemma_beside_first(*heap, *mm, frames@);
    }
    let p1: u64 = test_allocate(frames, mm, heap, 64, Ghost(room), Ghost(at_first), Ghost(before));
    if p1 == 0 {
        return Err("64-byte allocation returned null!");
    }
    let ghost one = at_first.request(before.mm, before.mem, before.end, 64)->0;
    let ghost s1 = choose|s: int|
        {
            &&& s >= 64
            &&& #[trigger] blocks::in_use(heap.blocks(), p1 - 32, s)
            &&& blocks::payload(heap.blocks(), false) == blocks::payload(bs0, false) + s
        };
    let ghost bs1 = heap.blocks();
    fill(frames, mm, heap, p1, 64, 0xAAAA_AAAA_AAAA_AAAA, Ghost(s1), Ghost(one), Ghost(before));
    if read_payload(frames, mm, heap, p1) % 256 != 0xAA {
        return Err("Memory write/read test failed on p1!");
    }
    let ghost bytes1 = blocks::payload(heap.blocks(), false);
    let p2: u64 = test_allocate(frames, mm, heap, 1024, Ghost(room - 96), Ghost(one), Ghost(before));
    proof {
        if p2 != 0 {
            lemma_uses_allocated(bs0, bs1, heap.blocks(), p2 - 32);
        }
    }
    if p2 == 0 {
        return Err("1024-byte allocation returned null!");
    }
    let ghost two = one.request(before.mm, before.mem, before.end, 1024)->0;
    let ghost s2 = choose|s: int|
        {
            &&& s >= 1024
            &&& #[trigger] blocks::in_use(heap.blocks(), p2 - 32, s)
            &&& blocks::payload(heap.blocks(), false) == bytes1 + s
        };
    let ghost bs2 = heap.blocks();
    assert(p2 != p1 && blocks::in_use(bs2, p1 - 32, s1)) by {
        reveal(uses_kept);
        reveal(unused);
    }
    fill(frames, mm, heap, p2, 1024, 0xBBBB_BBBB_BBBB_BBBB, Ghost(s2), Ghost(two), Ghost(before));
    if read_payload(frames, mm, heap, p2) % 256 != 0xBB {
        return Err("Memory write/read test failed on p2!");
    }
    test_deallocate(frames, mm, heap, p1, 64, Ghost(s1), Ghost(room - 96 - 1056), Ghost(two), Ghost(before));
    if load(frames, mm, heap.start, Ghost(heap.pages()), p1) % 256 != 0xDE {
        return Err("Freed block payload was not poisoned with 0xDE!");
    }
    assert(blocks::in_use(heap.blocks(), p2 - 32, s2));
    let ghost bs3 = heap.blocks();
    let ghost freed = two.release(p1 - 32);
    proof {
        lemma_uses_released(bs0, bs2, bs3, p1 - 32);
    }
    let ghost bytes2 = blocks::payload(heap.blocks(), false);
    let p3: u64 = test_allocate(frames, mm, heap, 32, Ghost(room - 96 - 1056), Ghost(freed), Ghost(before));
    let ghost bs4 = heap.blocks();
    proof {
        if p3 != 0 {
            lemma_uses_allocated(bs0, bs3, bs4, p3 - 32);
        }
    }
    if p3 == 0 {
        return Err("Re-allocation p3 returned null!");
    }
    let ghost three = freed.request(before.mm, before.mem, before.end, 32)->0;
    let ghost s3 = choose|s: int|
        {
            &&& s >= 32
            &&& #[trigger] blocks::in_use(heap.blocks(), p3 - 32, s)
            &&& blocks::payload(heap.blocks(), false) == bytes2 + s
        };
    assert(p3 != p2 && blocks::in_use(bs4, p2 - 32, s2)) by {
        reveal(uses_kept);
        reveal(unused);
    }
    test_deallocate(frames, mm, heap, p2, 1024, Ghost(s2), Ghost(room - 96 - 1056 - 64), Ghost(three), Ghost(before));
    let ghost bs5 = heap.blocks();
    let ghost four = three.release(p2 - 32);
    proof {
        lemma_uses_released(bs0, bs4, bs5, p2 - 32);
    }
    test_deallocate(frames, mm, heap, p3, 32, Ghost(s3), Ghost(room - 96 - 1056 - 64), Ghost(four), Ghost(before));
    let ghost bs6 = heap.blocks();
    let ghost empty = four.release(p3 - 32);
    proof {
        lemma_uses_released(bs0, bs5, bs6, p3 - 32);
    }
    let p_zero: u64 = allocate(frames, mm, heap, 0);
    let _ = deallocate(frames, mm, heap, p_zero, 0);
    let ghost bytes3 = blocks::payload(heap.blocks(), false);
    let p_large: u64 = test_allocate(frames, mm, heap, 0x4_0000, Ghost(room - 96 - 1056 - 64), Ghost(empty), Ghost(before));
    let ghost bs7 = heap.blocks();
    proof {
        if p_large != 0 {
            lemma_uses_allocated(bs0, bs6, bs7, p_large - 32);
        }
    }
    if p_large == 0 {
        return Err("Large heap expansion allocation returned null!");
    }
    let ghost large = empty.request(before.mm, before.mem, before.end, 0x4_0000)->0;
    let ghost s4 = choose|s: int|
        {
            &&& s >= 0x4_0000
            &&& #[trigger] blocks::in_use(heap.blocks(), p_large - 32, s)
            &&& blocks::payload(heap.blocks(), false) == bytes3 + s
        };
    fill(frames, mm, heap, p_large, 8, 0x55, Ghost(s4), Ghost(large), Ghost(before));
    if read_payload(frames, mm, heap, p_large) % 256 != 0x55 {
        return Err("Large allocation write/read failed!");
    }
    test_deallocate(frames, mm, heap, p_large, 0x4_0000, Ghost(s4), Ghost(0), Ghost(large), Ghost(before));
    proof {
        lemma_uses_released(bs0, bs7, heap.blocks(), p_large - 32);
    }
    Ok(())
}

/// Runs the heap through small and medium requests, poisoning, reuse, joining,
/// a request for no bytes and growth, and checks that nothing leaked. It passes
/// on a sound heap unless one of its requests cannot be served; those of a heap
/// that was just set up can.
pub fn test_heap_hardened(
    frames: &mut [PageTable],
    mm: &mut MemoryManager,
    heap: &mut HeapState,
) -> (r: Result<(), &'static str>)
    requires
        old(heap).wf(*old(mm), old(frames)@),
        old(heap).stats.allocation_count <= u64::MAX - 4,
        old(heap).stats.expansion_count <= u64::MAX - 4,
        old(heap).stats.free_count <= u64::MAX - 4,
    ensures
        final(heap).wf(*final(mm), final(frames)@),
        final(mm).vmm@ == old(mm).vmm@,
        final(mm).vmm.next_dynamic_addr == old(mm).vmm.next_dynamic_addr,
        match heap_fault(*old(heap), old(heap).words(*old(mm), old(frames)@)) {
            Some(message) => {
                &&& r == Err::<(), &'static str>(message)
                &&& *final(mm) == *old(mm)
                &&& *final(heap) == *old(heap)
                &&& final(frames)@ == old(frames)@
            },
            None => {
                &&& r == match course(*old(heap), *old(mm), old(frames)@).1 {
                    Some(message) => Err::<(), &'static str>(message),
                    None => Ok(()),
                }
                &&& r is Ok ==> final(heap).stats.allocated_bytes
                    == old(heap).stats.allocated_bytes
                &&& course(*old(heap), *old(mm), old(frames)@).0.followed(
                    *old(heap),
                    *final(heap),
                )
                &&& r is Ok ==> {
                    &&& final(heap).stats.allocation_count == old(heap).stats.allocation_count + 4
                    &&& final(heap).stats.free_count == old(heap).stats.free_count + 4
                }
                &&& final(heap).stats.total_bytes == old(heap).stats.total_bytes + (
                final(heap).current_end - old(heap).current_end)
                &&& r is Ok ==> final(heap).initialized && heap_fault(
                    *final(heap),
                    final(heap).words(*final(mm), final(frames)@),
                ) is None
                &&& uses_kept(old(heap).blocks(), final(heap).blocks())
                &&& blocks::keeps(
                    old(heap).words(*old(mm), old(frames)@),
                    final(heap).words(*final(mm), final(frames)@),
                    old(heap).start as int,
                    old(heap).blocks(),
                )
                &&& heap_plan::since(
                    *old(mm),
                    old(frames)@,
                    old(heap).start as int,
                    old(heap).pages(),
                    final(heap).pages(),
                ).holds(*final(mm), final(frames)@)
                &&& blocks::has_room(old(heap).blocks(), SELF_TEST_ROOM as int) ==> r is Ok
                &&& blocks::has_room(old(heap).blocks(), SMALL_ROOM as int) && heap_plan::growth_room(
                    *old(mm),
                    old(frames)@,
                    old(heap).current_end as int,
                    LARGE_PAGES as int,
                ) ==> r is Ok
            },
        },
{
    proof {
        if heap.initialized {
            lemma_heap_walkable(*heap, *mm, frames@);
        }
    }
    match verify_invariants(frames, mm, heap) {
        Ok(()) => {},
        Err(message) => return Err(message),
    }
    proof {
        lemma_no_fault_marked(*heap, *mm, frames@);
    }
    let initial_alloc_bytes: u64 = stats(heap).allocated_bytes;
    let ghost mm0 = *mm;
    let ghost mem0 = frames@;
    let ghost h0 = *heap;
    let outcome = test_requests(frames, mm, heap);
    proof {
        reveal(heap_plan::beside);
        if outcome is Ok {
            lemma_course_counts(h0, mm0, mem0);
        }
    }
    match outcome {
        Ok(()) => {},
        Err(message) => return Err(message),
    }
    let final_alloc_bytes: u64 = stats(heap).allocated_bytes;
    if initial_alloc_bytes != final_alloc_bytes {
        return Err("Memory leak in Heap self-test!");
    }
    proof {
        lemma_heap_walkable(*heap, *mm, frames@);
        lemma_heap_verifies(*heap, *mm, frames@);
    }
    verify_invariants(frames, mm, heap)
}

/// Runs the heap's self-test.
pub fn test_heap(
    frames: &mut [PageTable],
    mm: &mut MemoryManager,
    heap: &mut HeapState,
) -> (r: Result<(), &'static str>)
    requires
        old(heap).wf(*old(mm), old(frames)@),
        old(heap).stats.allocation_count <= u64::MAX - 4,
        old(heap).stats.expansion_count <= u64::MAX - 4,
        old(heap).stats.free_count <= u64::MAX - 4,
    ensures
        final(heap).wf(*final(mm), final(frames)@),
        final(mm).vmm@ == old(mm).vmm@,
        final(mm).vmm.next_dynamic_addr == old(mm).vmm.next_dynamic_addr,
        match heap_fault(*old(heap), old(heap).words(*old(mm), old(frames)@)) {
            Some(message) => {
                &&& r == Err::<(), &'static str>(message)
                &&& *final(mm) == *old(mm)
                &&& *final(heap) == *old(heap)
                &&& final(frames)@ == old(frames)@
            },
            None => {
                &&& r == match course(*old(heap), *old(mm), old(frames)@).1 {
                    Some(message) => Err::<(), &'static str>(message),
                    None => Ok(()),
                }
                &&& r is Ok ==> final(heap).stats.allocated_bytes
                    == old(heap).stats.allocated_bytes
                &&& course(*old(heap), *old(mm), old(frames)@).0.followed(
                    *old(heap),
                    *final(heap),
                )
                &&& r is Ok ==> {
                    &&& final(heap).stats.allocation_count == old(heap).stats.allocation_count + 4
                    &&& final(heap).stats.free_count == old(heap).stats.free_count + 4
                }
                &&& final(heap).stats.total_bytes == old(heap).stats.total_bytes + (
                final(heap).current_end - old(heap).current_end)
                &&& r is Ok ==> final(heap).initialized && heap_fault(
                    *final(heap),
                    final(heap).words(*final(mm), final(frames)@),
                ) is None
                &&& uses_kept(old(heap).blocks(), final(heap).blocks())
                &&& blocks::keeps(
                    old(heap).words(*old(mm), old(frames)@),
                    final(heap).words(*final(mm), final(frames)@),
                    old(heap).start as int,
                    old(heap).blocks(),
                )
                &&& heap_plan::since(
                    *old(mm),
                    old(frames)@,
                    old(heap).start as int,
                    old(heap).pages(),
                    final(heap).pages(),
                ).holds(*final(mm), final(frames)@)
                &&& blocks::has_room(old(heap).blocks(), SELF_TEST_ROOM as int) ==> r is Ok
                &&& blocks::has_room(old(heap).blocks(), SMALL_ROOM as int) && heap_plan::growth_room(
                    *old(mm),
                    old(frames)@,
                    old(heap).current_end as int,
                    LARGE_PAGES as int,
                ) ==> r is Ok
            },
        },
{
    test_heap_hardened(frames, mm, heap)
}

} // verus!
