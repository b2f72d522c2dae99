//! The kernel heap: first fit over a chain of blocks, with splitting, merging
//! and growth.

use vstd::prelude::*;
use crate::blocks;
use crate::blocks::{Block, HEADER_SIZE, HEAP_MAGIC, MIN_BLOCK_PAYLOAD, POISON};
use crate::memory::PAGE_SIZE;
use crate::paging;
use crate::paging::MemoryManager;
use crate::pmm::MAX_BATCH;
use crate::regions;
use crate::regions::map_fresh_run;
use crate::vmm::{cancel_reservation, register_region, PageTable, RegionPurpose, VirtAddr, VirtPermissions, VirtRegion, VmmError};
use crate::walk;
use crate::window;
use crate::window::{load, store};

verus! {

/// Where the heap starts.
pub const HEAP_START_ADDR: u64 = 0x0000_2000_0000_0000;

/// The pages that the heap starts with.
pub const HEAP_INITIAL_PAGES: usize = 32;

/// The pages that the heap grows by at least.
pub const HEAP_GROWTH_STEP_PAGES: usize = 16;

/// The largest size of a request.
pub const MAX_REQUEST: u64 = 0x7FFF_FFFF_FFFF_FFFF;

/// The heap's running totals.
#[derive(Copy, Clone, Debug, PartialEq, Eq, Structural)]
pub struct HeapStats {
    pub total_bytes: u64,
    pub allocated_bytes: u64,
    pub free_bytes: u64,
    pub allocation_count: u64,
    pub free_count: u64,
    pub expansion_count: u64,
}

impl HeapStats {
    pub open spec fn spec_new() -> HeapStats {
        HeapStats {
            total_bytes: 0,
            allocated_bytes: 0,
            free_bytes: 0,
            allocation_count: 0,
            free_count: 0,
            expansion_count: 0,
        }
    }

    pub fn new() -> (r: Self)
        ensures
            r == HeapStats::spec_new(),
    {
        Self {
            total_bytes: 0,
            allocated_bytes: 0,
            free_bytes: 0,
            allocation_count: 0,
            free_count: 0,
            expansion_count: 0,
        }
    }
}

/// A block header as it is read from memory.
#[derive(Copy, Clone, Debug, PartialEq, Eq, Structural)]
pub struct BlockHeader {
    pub magic: u32,
    pub is_free: bool,
    pub size: u64,
    pub prev: u64,
    pub next: u64,
}

/// The header that the words `ws` from `start` on hold at `addr`: the mark is
/// the low half of the first word, and the byte above it says whether the block
/// is free.
pub open spec fn header_at(ws: Seq<u64>, start: int, addr: int) -> BlockHeader {
    let first = ws[blocks::place(start, addr, 0)];
    BlockHeader {
        magic: (first % 0x1_0000_0000) as u32,
        is_free: (first / 0x1_0000_0000) % 256 != 0,
        size: ws[blocks::place(start, addr, 1)],
        prev: ws[blocks::place(start, addr, 2)],
        next: ws[blocks::place(start, addr, 3)],
    }
}

/// The heap: its addresses, its first block, its totals, and its blocks.
pub struct HeapState {
    pub start: u64,
    pub current_end: u64,
    pub head: u64,
    pub stats: HeapStats,
    pub initialized: bool,
    pub blocks: Ghost<Seq<Block>>,
}

impl HeapState {
    /// The pages of the heap.
    pub open spec fn pages(self) -> int {
        (self.current_end - self.start) / 4096
    }

    /// The blocks of the heap, in order.
    pub open spec fn blocks(self) -> Seq<Block> {
        self.blocks@
    }

    /// The words of the heap.
    pub open spec fn words(self, mm: MemoryManager, mem: Seq<PageTable>) -> Seq<u64> {
        window::words(mm, mem, self.start as int, self.pages())
    }

    /// The heap is whole pages that are backed by memory.
    pub open spec fn placed(self, mm: MemoryManager, mem: Seq<PageTable>) -> bool {
        &&& mm.ready(mem)
        &&& 0 < self.start <= self.current_end
        &&& self.start % 4096 == 0
        &&& self.current_end % 4096 == 0
        &&& window::backed(mm, mem, self.start as int, self.pages())
    }

    /// Before it is set up the heap is empty. After that it is a chain of blocks
    /// in backed memory, and the totals are theirs.
    pub open spec fn wf(self, mm: MemoryManager, mem: Seq<PageTable>) -> bool {
        if self.initialized {
            &&& self.placed(mm, mem)
            &&& self.start == HEAP_START_ADDR
            &&& blocks::image(self.words(mm, mem), self.start as int, self.blocks())
            &&& self.head == self.start
            &&& self.stats.total_bytes == self.current_end - self.start
            &&& self.stats.free_bytes == blocks::payload(self.blocks(), true)
            &&& self.stats.allocated_bytes == blocks::payload(self.blocks(), false)
        } else {
            &&& self.start == HEAP_START_ADDR
            &&& self.current_end == HEAP_START_ADDR
            &&& self.head == 0
            &&& self.stats == HeapStats::spec_new()
            &&& self.blocks() == Seq::<Block>::empty()
        }
    }

    pub fn new() -> (r: Self)
        ensures
            !r.initialized,
            r.start == 0x0000_2000_0000_0000,
            r.current_end == 0x0000_2000_0000_0000,
            r.head == 0,
            r.blocks().len() == 0,
            forall|mm: MemoryManager, mem: Seq<PageTable>| #[trigger] r.wf(mm, mem),
    {
        Self {
            start: HEAP_START_ADDR,
            current_end: HEAP_START_ADDR,
            head: 0,
            stats: HeapStats::new(),
            initialized: false,
            blocks: Ghost(Seq::empty()),
        }
    }
}

/// The heap's running totals.
pub fn stats(heap: &HeapState) -> (r: HeapStats)
    ensures
        r == heap.stats,
{
    heap.stats
}

/// What is read of a header is what was written to it.
pub proof fn lemma_header_read(ws: Seq<u64>, start: int, bs: Seq<Block>, k: int)
    requires
        blocks::image(ws, start, bs),
        0 <= k < bs.len(),
    ensures
        header_at(ws, start, bs[k].addr) == (BlockHeader {
            magic: bs[k].magic,
            is_free: bs[k].free,
            size: bs[k].size as u64,
            prev: blocks::prev_addr(bs, k),
            next: blocks::next_addr(bs, k),
        }),
        0 < bs[k].addr <= u64::MAX,
        16 <= bs[k].size <= u64::MAX,
{
    reveal(blocks::image);
    assert(blocks::header_in(ws, start, bs, k));
    lemma_tag(bs[k].magic, bs[k].free);
}

proof fn lemma_tag(magic: u32, free: bool)
    ensures
        (blocks::tag(magic, free) % 0x1_0000_0000) as u32 == magic,
        (blocks::tag(magic, free) / 0x1_0000_0000) % 256 == if free {
            1u64
        } else {
            0
        },
{
}

/// Reads the header at `addr`.
pub(crate) fn read_header(frames: &[PageTable], mm: &MemoryManager, heap: &HeapState, addr: u64) -> (r:
    BlockHeader)
    requires
        heap.placed(*mm, frames@),
        heap.start <= addr,
        addr + 32 <= heap.current_end,
        addr % 8 == 0,
    ensures
        r == header_at(heap.words(*mm, frames@), heap.start as int, addr as int),
{
    let ghost n = heap.pages();
    let first: u64 = load(frames, mm, heap.start, Ghost(n), addr);
    let size: u64 = load(frames, mm, heap.start, Ghost(n), addr + 8);
    let prev: u64 = load(frames, mm, heap.start, Ghost(n), addr + 16);
    let next: u64 = load(frames, mm, heap.start, Ghost(n), addr + 24);
    BlockHeader {
        magic: (first % 0x1_0000_0000) as u32,
        is_free: (first / 0x1_0000_0000) % 256 != 0,
        size,
        prev,
        next,
    }
}

/// Writes word `j` of the header at `addr`.
fn write_field(
    frames: &mut [PageTable],
    mm: &MemoryManager,
    heap: &HeapState,
    addr: u64,
    j: u64,
    value: u64,
)
    requires
        heap.placed(*mm, old(frames)@),
        heap.start <= addr,
        addr + 32 <= heap.current_end,
        addr % 8 == 0,
        j < 4,
    ensures
        heap.placed(*mm, final(frames)@),
        heap.words(*mm, final(frames)@) == heap.words(*mm, old(frames)@).update(
            blocks::place(heap.start as int, addr as int, j as int),
            value,
        ),
        window::only_within(
            *mm,
            old(frames)@,
            final(frames)@,
            heap.start as int,
            heap.pages(),
        ),
{
    store(frames, mm, heap.start, Ghost(heap.pages()), addr + 8 * j, value);
}

/// Writes the header at `addr` of a free block.
fn write_header(
    frames: &mut [PageTable],
    mm: &MemoryManager,
    heap: &HeapState,
    addr: u64,
    size: u64,
    prev: u64,
    next: u64,
)
    requires
        heap.placed(*mm, old(frames)@),
        heap.start <= addr,
        addr + 32 <= heap.current_end,
        addr % 8 == 0,
    ensures
        heap.placed(*mm, final(frames)@),
        heap.words(*mm, final(frames)@) == blocks::header_words(
            heap.words(*mm, old(frames)@),
            heap.start as int,
            addr as int,
            size,
            prev,
            next,
        ),
        window::only_within(
            *mm,
            old(frames)@,
            final(frames)@,
            heap.start as int,
            heap.pages(),
        ),
{
    let ghost mem0 = frames@;
    let ghost s = heap.start as int;
    let ghost n = heap.pages();
    write_field(frames, mm, heap, addr, 0, HEAP_MAGIC as u64 + 0x1_0000_0000);
    let ghost mem1 = frames@;
    write_field(frames, mm, heap, addr, 1, size);
    let ghost mem2 = frames@;
    write_field(frames, mm, heap, addr, 2, prev);
    let ghost mem3 = frames@;
    write_field(frames, mm, heap, addr, 3, next);
    proof {
        window::lemma_only_within_transitive(*mm, mem0, mem1, mem2, s, n);
        window::lemma_only_within_transitive(*mm, mem0, mem2, mem3, s, n);
        window::lemma_only_within_transitive(*mm, mem0, mem3, frames@, s, n);
    }
}

/// From one heap to another, at most the blocks changed.
pub open spec fn same_frame(h0: HeapState, h1: HeapState) -> bool {
    &&& h1.start == h0.start
    &&& h1.current_end == h0.current_end
    &&& h1.head == h0.head
    &&& h1.initialized == h0.initialized
}

/// The memory of a heap holds its blocks.
pub open spec fn sound(heap: HeapState, mm: MemoryManager, mem: Seq<PageTable>) -> bool {
    &&& heap.placed(mm, mem)
    &&& blocks::image(heap.words(mm, mem), heap.start as int, heap.blocks())
}

/// The words of a heap are as many as it has.
pub proof fn lemma_word_count(heap: HeapState, mm: MemoryManager, mem: Seq<PageTable>)
    requires
        heap.placed(mm, mem),
    ensures
        heap.words(mm, mem).len() == 512 * heap.pages(),
        heap.start + 8 * heap.words(mm, mem).len() == heap.current_end,
{
}

/// The blocks of a heap fill it.
pub proof fn lemma_chain(heap: HeapState, mm: MemoryManager, mem: Seq<PageTable>)
    requires
        sound(heap, mm, mem),
    ensures
        blocks::chained(heap.start as int, heap.current_end as int, heap.blocks()),
{
    reveal(blocks::image);
    lemma_word_count(heap, mm, mem);
}

/// A heap has a first block.
pub proof fn lemma_first(heap: HeapState, mm: MemoryManager, mem: Seq<PageTable>)
    requires
        sound(heap, mm, mem),
    ensures
        heap.blocks().len() > 0,
        heap.blocks()[0].addr == heap.start,
{
    lemma_chain(heap, mm, mem);
}

proof fn lemma_units(x: int)
    requires
        x % 16 == 0,
    ensures
        x % 8 == 0,
{
}

proof fn lemma_rest_units(addr: int, size: int)
    requires
        addr % 16 == 0,
        size % 16 == 0,
    ensures
        (addr + 32 + size) % 8 == 0,
{
    lemma_units(addr);
    lemma_units(size);
}

/// The heap lies in the lower half.
proof fn lemma_heap_low(heap: HeapState, mm: MemoryManager, mem: Seq<PageTable>)
    requires
        heap.placed(mm, mem),
    ensures
        heap.current_end <= window::LOWER_HALF_END,
{
    reveal(window::backed);
}

/// Block `k` lies in the heap.
pub proof fn lemma_block_place(heap: HeapState, mm: MemoryManager, mem: Seq<PageTable>, k: int)
    requires
        sound(heap, mm, mem),
        0 <= k < heap.blocks().len(),
    ensures
        heap.start <= heap.blocks()[k].addr,
        heap.blocks()[k].end() <= heap.current_end,
        heap.blocks()[k].addr % 16 == 0,
        heap.blocks()[k].addr % 8 == 0,
        heap.blocks()[k].size % 16 == 0,
        heap.blocks()[k].size % 8 == 0,
        heap.blocks()[k].size >= 16,
        heap.current_end <= window::LOWER_HALF_END,
{
    lemma_chain(heap, mm, mem);
    lemma_heap_low(heap, mm, mem);
    let b = heap.blocks()[k];
    lemma_units(b.addr);
    lemma_units(b.size);
}

/// Marks the block at `addr` as free or not.
fn mark_block(
    frames: &mut [PageTable],
    mm: &MemoryManager,
    heap: &mut HeapState,
    addr: u64,
    magic: u32,
    free: bool,
    Ghost(k): Ghost<int>,
)
    requires
        sound(*old(heap), *mm, old(frames)@),
        0 <= k < old(heap).blocks().len(),
        old(heap).blocks()[k].addr == addr,
        old(heap).blocks()[k].magic == magic,
    ensures
        sound(*final(heap), *mm, final(frames)@),
        same_frame(*old(heap), *final(heap)),
        final(heap).stats == old(heap).stats,
        final(heap).blocks() == blocks::marked_free(old(heap).blocks(), k, free),
        window::only_within(
            *mm,
            old(frames)@,
            final(frames)@,
            old(heap).start as int,
            old(heap).pages(),
        ),
        blocks::keeps(
            old(heap).words(*mm, old(frames)@),
            final(heap).words(*mm, final(frames)@),
            old(heap).start as int,
            old(heap).blocks(),
        ),
        final(heap).words(*mm, final(frames)@) == old(heap).words(*mm, old(frames)@).update(
            blocks::place(old(heap).start as int, addr as int, 0),
            blocks::tag(magic, free),
        ),
{
    let ghost mem0 = frames@;
    let ghost bs = heap.blocks();
    let first: u64 = if free {
        magic as u64 + 0x1_0000_0000
    } else {
        magic as u64
    };
    proof {
        lemma_block_place(*heap, *mm, mem0, k);
        blocks::lemma_image_marked(heap.words(*mm, mem0), heap.start as int, bs, k, free);
    }
    write_field(frames, mm, heap, addr, 0, first);
    heap.blocks = Ghost(blocks::marked_free(bs, k, free));
}

/// Writes the two links between the block at `addr` and the one at `next`, if
/// there is one, and the size of the first.
fn relink(
    frames: &mut [PageTable],
    mm: &MemoryManager,
    heap: &HeapState,
    addr: u64,
    size: u64,
    next: u64,
    after: u64,
    before: u64,
)
    requires
        heap.placed(*mm, old(frames)@),
        heap.start <= addr,
        addr + 32 <= heap.current_end,
        addr % 8 == 0,
        after != 0 ==> heap.start <= after && after + 32 <= heap.current_end && after % 8 == 0,
    ensures
        heap.placed(*mm, final(frames)@),
        heap.words(*mm, final(frames)@) == relink_words(
            heap.words(*mm, old(frames)@),
            heap.start as int,
            addr as int,
            size,
            next,
            after as int,
            before,
        ),
        window::only_within(
            *mm,
            old(frames)@,
            final(frames)@,
            heap.start as int,
            heap.pages(),
        ),
{
    let ghost mem0 = frames@;
    let ghost s = heap.start as int;
    let ghost n = heap.pages();
    write_field(frames, mm, heap, addr, 1, size);
    let ghost mem1 = frames@;
    write_field(frames, mm, heap, addr, 3, next);
    let ghost mem2 = frames@;
    proof {
        window::lemma_only_within_transitive(*mm, mem0, mem1, mem2, s, n);
    }
    if after != 0 {
        write_field(frames, mm, heap, after, 2, before);
        proof {
            window::lemma_only_within_transitive(*mm, mem0, mem2, frames@, s, n);
        }
    }
}

/// The words that `relink` leaves.
spec fn relink_words(
    ws: Seq<u64>,
    start: int,
    addr: int,
    size: u64,
    next: u64,
    after: int,
    before: u64,
) -> Seq<u64> {
    let ws1 = ws.update(blocks::place(start, addr, 1), size).update(
        blocks::place(start, addr, 3),
        next,
    );
    if after != 0 {
        ws1.update(blocks::place(start, after, 2), before)
    } else {
        ws1
    }
}

/// The order of the writes of a split does not matter.
proof fn lemma_split_order(ws: Seq<u64>, start: int, bs: Seq<Block>, k: int, size: int)
    requires
        blocks::image(ws, start, bs),
        blocks::chained(start, start + 8 * ws.len(), blocks::split(bs, k, size)),
        0 <= k < bs.len(),
        0 <= size <= u64::MAX,
    ensures
        ({
            let rest = bs[k].addr + 32 + size;
            let next = blocks::next_addr(bs, k);
            relink_words(
                blocks::header_words(
                    ws,
                    start,
                    rest,
                    (bs[k].size - size - 32) as u64,
                    bs[k].addr as u64,
                    next,
                ),
                start,
                bs[k].addr,
                size as u64,
                rest as u64,
                next as int,
                rest as u64,
            ) == blocks::split_words(ws, start, bs, k, size)
        }),
{
    reveal(blocks::image);
    let after = blocks::split(bs, k, size);
    blocks::lemma_places(ws, start, after, k, k + 1);
    blocks::lemma_places(ws, start, bs, k, k);
    assert(after[k].addr == bs[k].addr);
    assert(after[k + 1].addr == bs[k].addr + 32 + size);
    if k + 1 < bs.len() {
        blocks::lemma_places(ws, start, bs, k, k + 1);
        assert(bs[k + 1].addr > 0);
    }
    let rest = bs[k].addr + 32 + size;
    let next = blocks::next_addr(bs, k);
    assert(relink_words(
        blocks::header_words(
            ws,
            start,
            rest,
            (bs[k].size - size - 32) as u64,
            bs[k].addr as u64,
            next,
        ),
        start,
        bs[k].addr,
        size as u64,
        rest as u64,
        next as int,
        rest as u64,
    ) =~= blocks::split_words(ws, start, bs, k, size));
}

/// Cuts the free block at `addr` down to `size` bytes; the rest becomes a free
/// block of its own.
fn split_block(
    frames: &mut [PageTable],
    mm: &MemoryManager,
    heap: &mut HeapState,
    addr: u64,
    header: &BlockHeader,
    size: u64,
    Ghost(k): Ghost<int>,
)
    requires
        sound(*old(heap), *mm, old(frames)@),
        0 <= k < old(heap).blocks().len(),
        old(heap).blocks()[k].addr == addr,
        old(heap).blocks()[k].free,
        header.size == old(heap).blocks()[k].size,
        header.next == blocks::next_addr(old(heap).blocks(), k),
        size % 16 == 0,
        16 <= size,
        header.size - size >= 48,
    ensures
        sound(*final(heap), *mm, final(frames)@),
        same_frame(*old(heap), *final(heap)),
        final(heap).stats == old(heap).stats,
        final(heap).blocks() == blocks::split(old(heap).blocks(), k, size as int),
        window::only_within(
            *mm,
            old(frames)@,
            final(frames)@,
            old(heap).start as int,
            old(heap).pages(),
        ),
        blocks::keeps(
            old(heap).words(*mm, old(frames)@),
            final(heap).words(*mm, final(frames)@),
            old(heap).start as int,
            old(heap).blocks(),
        ),
{
    let ghost mem0 = frames@;
    let ghost bs = heap.blocks();
    let ghost s = heap.start as int;
    let ghost ws0 = heap.words(*mm, mem0);
    proof {
        lemma_word_count(*heap, *mm, mem0);
        lemma_block_place(*heap, *mm, mem0, k);
        if k + 1 < bs.len() {
            lemma_block_place(*heap, *mm, mem0, k + 1);
        }
        assert(blocks::chained(s, s + 8 * ws0.len(), blocks::split(bs, k, size as int))) by {
            lemma_chain(*heap, *mm, mem0);
            blocks::lemma_split(s, heap.current_end as int, bs, k, size as int);
        }
        blocks::lemma_image_split(ws0, s, bs, k, size as int);
        lemma_split_order(ws0, s, bs, k, size as int);
        lemma_rest_units(bs[k].addr, size as int);
    }
    let rest: u64 = addr + HEADER_SIZE + size;
    write_header(frames, mm, heap, rest, header.size - size - HEADER_SIZE, addr, header.next);
    let ghost mem1 = frames@;
    relink(frames, mm, heap, addr, size, rest, header.next, rest);
    proof {
        window::lemma_only_within_transitive(*mm, mem0, mem1, frames@, s, heap.pages());
    }
    heap.blocks = Ghost(blocks::split(bs, k, size as int));
}

/// Lets the free block at `addr` take in the free block after it.
fn merge_block(
    frames: &mut [PageTable],
    mm: &MemoryManager,
    heap: &mut HeapState,
    addr: u64,
    size: u64,
    next: u64,
    Ghost(k): Ghost<int>,
)
    requires
        sound(*old(heap), *mm, old(frames)@),
        0 <= k,
        k + 1 < old(heap).blocks().len(),
        old(heap).blocks()[k].addr == addr,
        old(heap).blocks()[k].size == size,
        old(heap).blocks()[k].free,
        old(heap).blocks()[k + 1].addr == next,
        old(heap).blocks()[k + 1].free,
    ensures
        sound(*final(heap), *mm, final(frames)@),
        same_frame(*old(heap), *final(heap)),
        final(heap).stats == old(heap).stats,
        final(heap).blocks() == blocks::merged(old(heap).blocks(), k),
        window::only_within(
            *mm,
            old(frames)@,
            final(frames)@,
            old(heap).start as int,
            old(heap).pages(),
        ),
        blocks::keeps(
            old(heap).words(*mm, old(frames)@),
            final(heap).words(*mm, final(frames)@),
            old(heap).start as int,
            old(heap).blocks(),
        ),
        final(heap).words(*mm, final(frames)@) == blocks::merge_words(
            old(heap).words(*mm, old(frames)@),
            old(heap).start as int,
            old(heap).blocks(),
            k,
        ),
{
    let ghost mem0 = frames@;
    let ghost bs = heap.blocks();
    let ghost s = heap.start as int;
    let ghost ws0 = heap.words(*mm, mem0);
    proof {
        lemma_block_place(*heap, *mm, mem0, k);
        lemma_block_place(*heap, *mm, mem0, k + 1);
        if k + 2 < bs.len() {
            lemma_block_place(*heap, *mm, mem0, k + 2);
        }
        lemma_header_read(ws0, s, bs, k + 1);
        blocks::lemma_image_merged(ws0, s, bs, k);
        assert(bs[k + 1].addr == bs[k].end()) by {
            lemma_chain(*heap, *mm, mem0);
            assert(blocks::follows(bs, k + 1));
        }
    }
    let absorbed = read_header(frames, mm, heap, next);
    relink(
        frames,
        mm,
        heap,
        addr,
        size + HEADER_SIZE + absorbed.size,
        absorbed.next,
        absorbed.next,
        addr,
    );
    heap.blocks = Ghost(blocks::merged(bs, k));
}

/// What a search for a block came to.
enum Search {
    Found(u64),
    Corrupt,
    Nothing,
}

/// Searches the first block that fits a request for `size` bytes; a header that
/// lost its mark ends the search.
fn find_fit(frames: &[PageTable], mm: &MemoryManager, heap: &HeapState, size: u64) -> (r: Search)
    requires
        sound(*heap, *mm, frames@),
        heap.head == heap.start,
    ensures
        match blocks::stop_from(heap.blocks(), size as int, 0) {
            Some(k) => if heap.blocks()[k].marked() {
                r == Search::Found(heap.blocks()[k].addr as u64)
            } else {
                r == Search::Corrupt
            },
            None => r == Search::Nothing,
        },
{
    let ghost bs = heap.blocks();
    let ghost mut i: int = 0;
    let mut curr: u64 = heap.head;
    proof {
        lemma_first(*heap, *mm, frames@);
    }
    while curr != 0
        invariant
            sound(*heap, *mm, frames@),
            bs == heap.blocks(),
            0 <= i <= bs.len(),
            curr == if i < bs.len() {
                bs[i].addr as u64
            } else {
                0
            },
            blocks::stop_from(bs, size as int, 0) == blocks::stop_from(bs, size as int, i),
        decreases bs.len() - i,
    {
        proof {
            lemma_block_place(*heap, *mm, frames@, i);
            lemma_header_read(heap.words(*mm, frames@), heap.start as int, bs, i);
            if i + 1 < bs.len() {
                lemma_block_place(*heap, *mm, frames@, i + 1);
            }
        }
        let header = read_header(frames, mm, heap, curr);
        if header.magic != HEAP_MAGIC {
            return Search::Corrupt;
        }
        if header.is_free && header.size >= size {
            return Search::Found(curr);
        }
        curr = header.next;
        proof {
            i = i + 1;
        }
    }
    proof {
        if i < bs.len() {
            lemma_block_place(*heap, *mm, frames@, i);
        }
    }
    Search::Nothing
}

/// From one heap to another, block `k` was taken for `size` bytes.
pub open spec fn block_taken(h0: HeapState, h1: HeapState, k: int, size: int) -> bool {
    &&& same_frame(h0, h1)
    &&& h1.blocks() == blocks::taken(h0.blocks(), k, size)
    &&& h1.stats.allocation_count == h0.stats.allocation_count + 1
    &&& h1.stats.free_count == h0.stats.free_count
    &&& h1.stats.expansion_count == h0.stats.expansion_count
}

/// Takes the free block at `addr` for `size` bytes.
fn take_block(
    frames: &mut [PageTable],
    mm: &MemoryManager,
    heap: &mut HeapState,
    addr: u64,
    size: u64,
    Ghost(k): Ghost<int>,
)
    requires
        old(heap).wf(*mm, old(frames)@),
        old(heap).initialized,
        0 <= k < old(heap).blocks().len(),
        old(heap).blocks()[k].addr == addr,
        old(heap).blocks()[k].fits(size as int),
        size % 16 == 0,
        16 <= size,
        old(heap).stats.allocation_count < u64::MAX,
    ensures
        final(heap).wf(*mm, final(frames)@),
        block_taken(*old(heap), *final(heap), k, size as int),
        window::only_within(
            *mm,
            old(frames)@,
            final(frames)@,
            old(heap).start as int,
            old(heap).pages(),
        ),
        blocks::keeps(
            old(heap).words(*mm, old(frames)@),
            final(heap).words(*mm, final(frames)@),
            old(heap).start as int,
            old(heap).blocks(),
        ),
{
    let ghost mem0 = frames@;
    let ghost bs = heap.blocks();
    let ghost s = heap.start as int;
    let ghost end = heap.current_end as int;
    let ghost ws0 = heap.words(*mm, mem0);
    proof {
        lemma_word_count(*heap, *mm, mem0);
        lemma_block_place(*heap, *mm, mem0, k);
        lemma_header_read(ws0, s, bs, k);
        lemma_chain(*heap, *mm, mem0);
    }
    let header = read_header(frames, mm, heap, addr);
    let remaining: u64 = header.size - size;
    let ghost mut bs1 = bs;
    let ghost mut mem1 = mem0;
    let mut payload: u64 = header.size;
    let mut used: u64 = header.size;
    if remaining >= HEADER_SIZE + MIN_BLOCK_PAYLOAD {
        split_block(frames, mm, heap, addr, &header, size, Ghost(k));
        payload = size;
        used = size + HEADER_SIZE;
        proof {
            blocks::lemma_split(s, end, bs, k, size as int);
            bs1 = heap.blocks();
            mem1 = frames@;
        }
    }
    proof {
        lemma_word_count(*heap, *mm, mem1);
        blocks::lemma_marked_free(s, end, bs1, k, false);
        blocks::lemma_payload_bound(blocks::marked_free(bs1, k, false), true);
        blocks::lemma_payload_bound(blocks::marked_free(bs1, k, false), false);
        blocks::lemma_payload_total(s, blocks::marked_free(bs1, k, false));
    }
    mark_block(frames, mm, heap, addr, header.magic, false, Ghost(k));
    heap.stats.allocated_bytes = heap.stats.allocated_bytes + payload;
    heap.stats.free_bytes = heap.stats.free_bytes - used;
    heap.stats.allocation_count = heap.stats.allocation_count + 1;
    proof {
        if mem1 != mem0 {
            window::lemma_only_within_transitive(*mm, mem0, mem1, frames@, s, heap.pages());
        }
        if remaining >= 48 {
            assert forall|x: int| blocks::live(bs, x) implies #[trigger] blocks::live(bs1, x) by {
                blocks::lemma_split_live(bs, k, size as int, x);
            }
            blocks::lemma_keeps_transitive(
                ws0,
                heap.words(*mm, mem1),
                heap.words(*mm, frames@),
                s,
                bs,
                bs1,
            );
        }
    }
}

/// The flags that the heap's pages are mapped with.
pub open spec fn heap_flags() -> crate::vmm::PageTableFlags {
    crate::vmm::PageTableFlags(0x8000_0000_0000_0003)
}

pub proof fn lemma_heap_flags()
    ensures
        heap_flags().0 & 1 != 0,
        heap_flags().0 & crate::vmm::ENTRY_ADDRESS_MASK == 0,
{
    assert(0x8000_0000_0000_0003u64 & 1 != 0) by (bit_vector);
    assert(0x8000_0000_0000_0003u64 & 0x000F_FFFF_FFFF_F000 == 0) by (bit_vector);
}

/// The pages that the heap grows by for a request of `needed` bytes.
pub open spec fn growth_pages(needed: int) -> int {
    let pages = (needed + 32 + 4095) / 4096;
    if pages > HEAP_GROWTH_STEP_PAGES {
        pages
    } else {
        HEAP_GROWTH_STEP_PAGES as int
    }
}

/// The heap cannot grow by `pages` pages.
pub open spec fn growth_refused(
    heap: HeapState,
    mm: MemoryManager,
    mem: Seq<PageTable>,
    pages: int,
) -> bool {
    pages > MAX_BATCH || regions::fresh_refusal(mm, mem, heap.current_end, pages) is Some
}

/// What is left of an attempt to grow by `pages` pages that was refused: nothing,
/// unless the frames for them could be had but a page could not be mapped; then
/// the tables that were created on the way stay, empty.
pub open spec fn growth_left(
    mm0: MemoryManager,
    mem0: Seq<PageTable>,
    mm1: MemoryManager,
    mem1: Seq<PageTable>,
    pages: int,
) -> bool {
    &&& regions::fresh_refused(mm0, mem0, mm1, mem1, pages)
    &&& pages > MAX_BATCH ==> mm1 == mm0 && mem1 == mem0
}

/// From one state to another, fresh pages were mapped from `start` on, and
/// memory was written within the `n` pages from `base` on.
pub open spec fn mapped_and_written(
    mm0: MemoryManager,
    mem0: Seq<PageTable>,
    mm1: MemoryManager,
    mem1: Seq<PageTable>,
    start: u64,
    pages: int,
    base: int,
    n: int,
) -> bool {
    exists|mid: Seq<PageTable>|
        {
            &&& #[trigger] regions::fresh_mapped(
                mm0,
                mem0,
                mm1,
                mid,
                start,
                pages,
                heap_flags(),
            )
            &&& mm1.ready(mid)
            &&& window::backed(mm1, mid, base, n)
            &&& window::only_within(mm1, mid, mem1, base, n)
        }
}

/// From one heap to another, `pages` pages were added.
pub open spec fn heap_grown(h0: HeapState, h1: HeapState, pages: int) -> bool {
    &&& h1.start == h0.start
    &&& h1.current_end == h0.current_end + 4096 * pages
    &&& h1.head == h0.head
    &&& h1.initialized
    &&& h1.blocks() == blocks::extended(h0.blocks(), 4096 * pages)
    &&& h1.stats.allocation_count == h0.stats.allocation_count
    &&& h1.stats.free_count == h0.stats.free_count
    &&& h1.stats.expansion_count == h0.stats.expansion_count + 1
}

/// A failed attempt to map pages leaves the heap as it was.
pub proof fn lemma_heap_rolled_back(
    heap: HeapState,
    mm0: MemoryManager,
    mem0: Seq<PageTable>,
    mm1: MemoryManager,
    mem1: Seq<PageTable>,
)
    requires
        heap.wf(mm0, mem0),
        mm1.wf(mem1),
        regions::rolled_back(mm0, mem0, mm1, mem1),
    ensures
        heap.wf(mm1, mem1),
        heap.words(mm1, mem1) == heap.words(mm0, mem0) || !heap.initialized,
{
    reveal(window::backed);
    if heap.initialized {
        let s = heap.start as int;
        let n = heap.pages();
        let r = mm0.root.0 as int / 4096;
        assert(mm0.is_table(r));
        assert forall|i: int| 0 <= i < n implies #[trigger] walk::mapping(mem1, r, s / 4096 + i)
            == walk::mapping(mem0, r, s / 4096 + i) by {
            assert(0 <= s / 4096 + i < walk::page_limit());
        }
        assert forall|i: int| 0 <= i < n implies {
            let f = #[trigger] window::frame_at(mm0, mem0, s, i);
            mm1.pmm@.used[f] && !mm1.is_table(f) && mem1[f] == mem0[f]
        } by {
            assert(window::holds(mm0, mem0, s, i));
        }
        window::lemma_backed_kept(mm0, mem0, mm1, mem1, s, n);
    }
}

/// Finds the last block.
fn find_last(frames: &[PageTable], mm: &MemoryManager, heap: &HeapState) -> (r: u64)
    requires
        sound(*heap, *mm, frames@),
        heap.head == heap.start,
    ensures
        r == heap.blocks()[heap.blocks().len() - 1].addr,
{
    let ghost bs = heap.blocks();
    let ghost mut i: int = 0;
    let mut curr: u64 = heap.head;
    proof {
        lemma_first(*heap, *mm, frames@);
        lemma_header_read(heap.words(*mm, frames@), heap.start as int, bs, 0);
        lemma_block_place(*heap, *mm, frames@, 0);
    }
    let mut header = read_header(frames, mm, heap, curr);
    while header.next != 0
        invariant
            sound(*heap, *mm, frames@),
            bs == heap.blocks(),
            0 <= i < bs.len(),
            curr == bs[i].addr,
            header == header_at(heap.words(*mm, frames@), heap.start as int, bs[i].addr),
        decreases bs.len() - i,
    {
        proof {
            lemma_header_read(heap.words(*mm, frames@), heap.start as int, bs, i);
            lemma_block_place(*heap, *mm, frames@, i + 1);
            i = i + 1;
        }
        curr = header.next;
        header = read_header(frames, mm, heap, curr);
    }
    proof {
        lemma_header_read(heap.words(*mm, frames@), heap.start as int, bs, i);
        if i + 1 < bs.len() {
            lemma_block_place(*heap, *mm, frames@, i + 1);
        }
    }
    curr
}

/// The heap's pages and fresh ones behind them are one backed run.
proof fn lemma_heap_extended(
    heap: HeapState,
    mm0: MemoryManager,
    mem0: Seq<PageTable>,
    mm1: MemoryManager,
    mem1: Seq<PageTable>,
    pages: int,
)
    requires
        heap.wf(mm0, mem0),
        heap.initialized,
        mm1.ready(mem1),
        0 < pages <= MAX_BATCH,
        pages <= mm0.pmm@.free_count(),
        regions::fresh_mapped(mm0, mem0, mm1, mem1, heap.current_end, pages, heap_flags()),
    ensures
        window::backed(mm1, mem1, heap.start as int, heap.pages() + pages),
        heap.current_end + 4096 * pages <= window::LOWER_HALF_END,
        ({
            let ws = window::words(mm1, mem1, heap.start as int, heap.pages() + pages);
            &&& ws.len() == heap.words(mm0, mem0).len() + 512 * pages
            &&& forall|x: int|
                0 <= x < heap.words(mm0, mem0).len() ==> #[trigger] ws[x] == heap.words(
                    mm0,
                    mem0,
                )[x]
        }),
{
    let s = heap.start as int;
    let n = heap.pages();
    let e = heap.current_end;
    reveal(window::backed);
    lemma_heap_flags();
    window::lemma_backed_bound(mm0, mem0, s, n);
    assert(e == s + 4096 * n);
    window::lemma_fresh_backed(mm0, mem0, mm1, mem1, e, pages, heap_flags());
    window::lemma_fresh_beside(mm0, mem0, mm1, mem1, e, pages, heap_flags(), s, n);
    assert forall|i: int, j: int|
        0 <= i < n && 0 <= j < pages implies #[trigger] window::frame_at(mm1, mem1, s, i)
        != #[trigger] window::frame_at(mm1, mem1, e as int, j) by {
        assert(window::holds(mm0, mem0, s, i));
        assert(window::frame_at(mm1, mem1, s, i) == window::frame_at(mm0, mem0, s, i));
        crate::pmm::lemma_nth_free(mm0.pmm@, j);
    }
    window::lemma_join(mm1, mem1, s, n, pages);
}

/// Where the last block lies.
proof fn lemma_attach_place(ws: Seq<u64>, start: int, bs: Seq<Block>)
    requires
        blocks::image(ws, start, bs),
    ensures
        ({
            let b = bs[bs.len() - 1];
            &&& bs.len() > 0
            &&& start <= b.addr
            &&& b.end() == start + 8 * ws.len()
            &&& b.addr % 8 == 0
            &&& b.size >= 16
        }),
{
    reveal(blocks::image);
    lemma_units(bs[bs.len() - 1].addr);
}

/// Writes the header of a free block at `addr` and links the block at `last` to
/// it.
fn put_behind(
    frames: &mut [PageTable],
    mm: &MemoryManager,
    heap: &HeapState,
    last: u64,
    addr: u64,
    bytes: u64,
)
    requires
        heap.placed(*mm, old(frames)@),
        heap.start <= last,
        last + 32 <= heap.current_end,
        last % 8 == 0,
        heap.start <= addr,
        addr + 32 <= heap.current_end,
        addr % 8 == 0,
        bytes >= 32,
    ensures
        heap.placed(*mm, final(frames)@),
        heap.words(*mm, final(frames)@) == blocks::header_words(
            heap.words(*mm, old(frames)@),
            heap.start as int,
            addr as int,
            (bytes - 32) as u64,
            last,
            0,
        ).update(blocks::place(heap.start as int, last as int, 3), addr),
        window::only_within(
            *mm,
            old(frames)@,
            final(frames)@,
            heap.start as int,
            heap.pages(),
        ),
{
    let ghost mem0 = frames@;
    write_header(frames, mm, heap, addr, bytes - HEADER_SIZE, last, 0);
    let ghost mem1 = frames@;
    write_field(frames, mm, heap, last, 3, addr);
    proof {
        window::lemma_only_within_transitive(
            *mm,
            mem0,
            mem1,
            frames@,
            heap.start as int,
            heap.pages(),
        );
    }
}

/// Puts a free block of `bytes` bytes at `addr`, behind the last block; a free
/// last block takes it in.
fn attach_block(
    frames: &mut [PageTable],
    mm: &MemoryManager,
    heap: &mut HeapState,
    last: u64,
    header: &BlockHeader,
    addr: u64,
    bytes: u64,
    Ghost(ws0): Ghost<Seq<u64>>,
)
    requires
        old(heap).placed(*mm, old(frames)@),
        blocks::image(ws0, old(heap).start as int, old(heap).blocks()),
        old(heap).start + 8 * ws0.len() == addr,
        addr + bytes == old(heap).current_end,
        bytes % 4096 == 0,
        bytes > 0,
        forall|x: int|
            0 <= x < ws0.len() ==> #[trigger] old(heap).words(*mm, old(frames)@)[x] == ws0[x],
        ({
            let bs = old(heap).blocks();
            &&& last == bs[bs.len() - 1].addr
            &&& header.is_free == bs[bs.len() - 1].free
            &&& header.size == bs[bs.len() - 1].size
        }),
    ensures
        sound(*final(heap), *mm, final(frames)@),
        same_frame(*old(heap), *final(heap)),
        final(heap).stats == old(heap).stats,
        final(heap).blocks() == blocks::extended(old(heap).blocks(), bytes as int),
        window::only_within(
            *mm,
            old(frames)@,
            final(frames)@,
            old(heap).start as int,
            old(heap).pages(),
        ),
        blocks::keeps(
            ws0,
            final(heap).words(*mm, final(frames)@),
            old(heap).start as int,
            old(heap).blocks(),
        ),
{
    let ghost mem0 = frames@;
    let ghost bs = heap.blocks();
    let ghost s = heap.start as int;
    let ghost n = heap.pages();
    let ghost ws = heap.words(*mm, mem0);
    let ghost l = bs.len() - 1;
    proof {
        lemma_word_count(*heap, *mm, mem0);
        lemma_attach_place(ws0, s, bs);
        assert(ws.len() == ws0.len() + bytes as int / 8);
        blocks::lemma_image_appended(ws0, ws, s, bs, bytes as int);
    }
    put_behind(frames, mm, heap, last, addr, bytes);
    assert(heap.words(*mm, frames@) == blocks::append_words(ws, s, bs, bytes as int));
    heap.blocks = Ghost(blocks::appended(bs, bytes as int));
    if header.is_free && last + HEADER_SIZE + header.size == addr {
        let ghost mem2 = frames@;
        let ghost bs2 = heap.blocks();
        assert(bs2[l] == bs[l]);
        merge_block(frames, mm, heap, last, header.size, addr, Ghost(l));
        proof {
            window::lemma_only_within_transitive(*mm, mem0, mem2, frames@, s, n);
            assert forall|x: int| blocks::live(bs, x) implies #[trigger] blocks::live(bs2, x) by {
                let k = choose|k: int|
                    0 <= k < bs.len() && !bs[k].free && (#[trigger] bs[k]).holds(x);
                assert(bs2[k] == bs[k]);
                assert(bs2[k].holds(x));
            }
            blocks::lemma_keeps_transitive(
                ws0,
                heap.words(*mm, mem2),
                heap.words(*mm, frames@),
                s,
                bs,
                bs2,
            );
        }
    }
}

/// The payloads after `bytes` bytes were added.
pub proof fn lemma_extended_totals(start: int, end: int, bs: Seq<Block>, bytes: int)
    requires
        blocks::chained(start, end, bs),
        bytes % 16 == 0,
        bytes >= 48,
    ensures
        blocks::chained(start, end + bytes, blocks::extended(bs, bytes)),
        blocks::payload(blocks::extended(bs, bytes), true) == blocks::payload(bs, true) + bytes
            - if bs[bs.len() - 1].free {
            0int
        } else {
            32
        },
        blocks::payload(blocks::extended(bs, bytes), false) == blocks::payload(bs, false),
{
    let l = bs.len() - 1;
    blocks::lemma_appended(start, end, bs, bytes);
    if bs[l].free {
        assert(blocks::appended(bs, bytes)[l] == bs[l]);
        blocks::lemma_merged(start, end + bytes, blocks::appended(bs, bytes), l);
    }
}

/// What an attempt to grow a heap for a request of `needed_bytes` bytes does to it,
/// and whether it succeeds.
pub open spec fn expansion(
    h0: HeapState,
    mm0: MemoryManager,
    mem0: Seq<PageTable>,
    h1: HeapState,
    mm1: MemoryManager,
    mem1: Seq<PageTable>,
    needed_bytes: u64,
    r: bool,
) -> bool {
    let pages = growth_pages(needed_bytes as int);
    &&& r == !growth_refused(h0, mm0, mem0, pages)
    &&& r ==> {
        &&& heap_grown(h0, h1, pages)
        &&& mapped_and_written(
            mm0,
            mem0,
            mm1,
            mem1,
            h0.current_end,
            pages,
            h1.start as int,
            h1.pages(),
        )
        &&& blocks::keeps(
            h0.words(mm0, mem0),
            h1.words(mm1, mem1),
            h0.start as int,
            h0.blocks(),
        )
    }
    &&& !r ==> {
        &&& h1 == h0
        &&& growth_left(mm0, mem0, mm1, mem1, pages)
    }
}

/// Adds pages behind the heap for a request of `needed` bytes: at least a
/// growth step, at most `MAX_BATCH`. A free last block takes them in.
///
/// A failure takes everything back; where a page could not be mapped, the tables
/// that were created on the way stay, empty.
#[verifier::rlimit(40)]
pub fn expand_heap(
    frames: &mut [PageTable],
    mm: &mut MemoryManager,
    heap: &mut HeapState,
    needed_bytes: u64,
) -> (r: bool)
    requires
        old(heap).wf(*old(mm), old(frames)@),
        old(heap).initialized,
        needed_bytes <= MAX_REQUEST + 1,
        old(heap).stats.expansion_count < u64::MAX,
    ensures
        final(heap).wf(*final(mm), final(frames)@),
        expansion(
            *old(heap),
            *old(mm),
            old(frames)@,
            *final(heap),
            *final(mm),
            final(frames)@,
            needed_bytes,
            r,
        ),
        final(mm).vmm@ == old(mm).vmm@,
        final(mm).vmm.next_dynamic_addr == old(mm).vmm.next_dynamic_addr,
{
    let ghost mm0 = *mm;
    let ghost mem0 = frames@;
    let ghost h0 = *heap;
    let ghost s = heap.start as int;
    let ghost bs = heap.blocks();
    let ghost ws0 = heap.words(*mm, mem0);
    let growth: u64 = HEAP_GROWTH_STEP_PAGES as u64;
    let pages_needed: u64 = (needed_bytes + HEADER_SIZE + PAGE_SIZE - 1) / PAGE_SIZE;
    let pages_to_alloc: u64 = if pages_needed > growth {
        pages_needed
    } else {
        growth
    };
    let ghost pages = pages_to_alloc as int;
    if pages_to_alloc > MAX_BATCH as u64 {
        proof {
            paging::lemma_grown_reflexive(mm0, mem0);
        }
        return false;
    }
    let expand_bytes: u64 = pages_to_alloc * PAGE_SIZE;
    let new_start: u64 = heap.current_end;
    let flags = VirtPermissions::kernel_data().to_page_flags();
    let ghost l = bs.len() - 1;
    proof {
        lemma_heap_flags();
        lemma_word_count(h0, mm0, mem0);
        lemma_first(h0, mm0, mem0);
        lemma_block_place(h0, mm0, mem0, l);
        lemma_header_read(ws0, s, bs, l);
        window::lemma_backed_bound(mm0, mem0, s, heap.pages());
    }
    let last: u64 = find_last(frames, mm, heap);
    let header = read_header(frames, mm, heap, last);
    if map_fresh_run(frames, mm, VirtAddr::new(new_start), pages_to_alloc as usize, flags).is_err() {
        proof {
            lemma_heap_rolled_back(h0, mm0, mem0, *mm, frames@);
        }
        return false;
    }
    let ghost mem1 = frames@;
    proof {
        lemma_heap_extended(h0, mm0, mem0, *mm, mem1, pages);
        assert(h0.current_end + 4096 * pages <= window::LOWER_HALF_END);
    }
    heap.current_end = new_start + expand_bytes;
    proof {
        assert(heap.pages() == h0.pages() + pages);
        assert(s + 8 * ws0.len() == new_start);
    }
    attach_block(frames, mm, heap, last, &header, new_start, expand_bytes, Ghost(ws0));
    proof {
        lemma_word_count(*heap, *mm, frames@);
        assert(mapped_and_written(
            mm0,
            mem0,
            *mm,
            frames@,
            h0.current_end,
            pages,
            s,
            heap.pages(),
        ));
        lemma_chain(h0, mm0, mem0);
        lemma_extended_totals(s, h0.current_end as int, bs, expand_bytes as int);
        blocks::lemma_payload_total(s, heap.blocks());
        blocks::lemma_payload_bound(heap.blocks(), true);
        blocks::lemma_payload_bound(heap.blocks(), false);
    }
    let added: u64 = if header.is_free {
        expand_bytes
    } else {
        expand_bytes - HEADER_SIZE
    };
    heap.stats.total_bytes = heap.stats.total_bytes + expand_bytes;
    heap.stats.free_bytes = heap.stats.free_bytes + added;
    heap.stats.expansion_count = heap.stats.expansion_count + 1;
    true
}

/// The bytes that a request for `size` bytes takes: whole units of 16.
pub open spec fn rounded(size: int) -> int {
    (size + 15) / 16 * 16
}

/// A request for `size` bytes was served from block `k` of the heap as it is.
pub open spec fn served(
    h0: HeapState,
    mm0: MemoryManager,
    mem0: Seq<PageTable>,
    h1: HeapState,
    mm1: MemoryManager,
    mem1: Seq<PageTable>,
    k: int,
    size: int,
) -> bool {
    &&& mm1 == mm0
    &&& block_taken(h0, h1, k, size)
    &&& window::only_within(mm0, mem0, mem1, h0.start as int, h0.pages())
}

/// A request for `size` bytes was served from the last block of the heap once it
/// had grown.
pub open spec fn served_by_growth(
    h0: HeapState,
    mm0: MemoryManager,
    mem0: Seq<PageTable>,
    h1: HeapState,
    mm1: MemoryManager,
    mem1: Seq<PageTable>,
    size: int,
) -> bool {
    let pages = growth_pages(size);
    let bs = blocks::extended(h0.blocks(), 4096 * pages);
    &&& h1.start == h0.start
    &&& h1.current_end == h0.current_end + 4096 * pages
    &&& h1.head == h0.head
    &&& h1.initialized
    &&& h1.blocks() == blocks::taken(bs, bs.len() - 1, size)
    &&& h1.stats.allocation_count == h0.stats.allocation_count + 1
    &&& h1.stats.free_count == h0.stats.free_count
    &&& h1.stats.expansion_count == h0.stats.expansion_count + 1
    &&& mapped_and_written(
        mm0,
        mem0,
        mm1,
        mem1,
        h0.current_end,
        pages,
        h1.start as int,
        h1.pages(),
    )
}

/// What a request for `size` bytes does to a heap, and where it says that they
/// are.
pub open spec fn allocation(
    h0: HeapState,
    mm0: MemoryManager,
    mem0: Seq<PageTable>,
    h1: HeapState,
    mm1: MemoryManager,
    mem1: Seq<PageTable>,
    size: u64,
    r: u64,
) -> bool {
    if size == 0 || !h0.initialized {
        &&& r == if size == 0 {
            1u64
        } else {
            0
        }
        &&& mm1 == mm0
        &&& h1 == h0
        &&& mem1 == mem0
    } else {
        let bs = h0.blocks();
        let wanted = rounded(size as int);
        match blocks::stop_from(bs, wanted, 0) {
            Some(k) => if bs[k].marked() {
                &&& r == bs[k].addr + 32
                &&& served(h0, mm0, mem0, h1, mm1, mem1, k, wanted)
            } else {
                &&& r == 0
                &&& mm1 == mm0
                &&& h1 == h0
                &&& mem1 == mem0
            },
            None => if growth_refused(h0, mm0, mem0, growth_pages(wanted)) {
                &&& r == 0
                &&& h1 == h0
                &&& growth_left(mm0, mem0, mm1, mem1, growth_pages(wanted))
            } else {
                let grown = blocks::extended(bs, 4096 * growth_pages(wanted));
                &&& r == grown[grown.len() - 1].addr + 32
                &&& served_by_growth(h0, mm0, mem0, h1, mm1, mem1, wanted)
            },
        }
    }
}

/// Hands out `size` bytes and says where they are; 0 if they cannot be had, 1
/// for no bytes.
///
/// The first block that fits serves the request. Where none fits the heap
/// grows, and its last block does. A header that lost its mark ends the search.
pub fn allocate(
    frames: &mut [PageTable],
    mm: &mut MemoryManager,
    heap: &mut HeapState,
    size: u64,
) -> (r: u64)
    requires
        old(heap).wf(*old(mm), old(frames)@),
        size <= MAX_REQUEST,
        old(heap).stats.allocation_count < u64::MAX,
        old(heap).stats.expansion_count < u64::MAX,
    ensures
        final(heap).wf(*final(mm), final(frames)@),
        final(mm).vmm@ == old(mm).vmm@,
        final(mm).vmm.next_dynamic_addr == old(mm).vmm.next_dynamic_addr,
        old(heap).initialized ==> blocks::keeps(
            old(heap).words(*old(mm), old(frames)@),
            final(heap).words(*final(mm), final(frames)@),
            old(heap).start as int,
            old(heap).blocks(),
        ),
        allocation(
            *old(heap),
            *old(mm),
            old(frames)@,
            *final(heap),
            *final(mm),
            final(frames)@,
            size,
            r,
        ),
{
    if size == 0 {
        return 1;
    }
    if !heap.initialized {
        return 0;
    }
    let ghost mm0 = *mm;
    let ghost mem0 = frames@;
    let ghost h0 = *heap;
    let ghost bs = heap.blocks();
    let ghost s = heap.start as int;
    let requested_size: u64 = (size + 15) / 16 * 16;
    proof {
        blocks::lemma_stop(bs, requested_size as int, 0);
    }
    match find_fit(frames, mm, heap, requested_size) {
        Search::Corrupt => 0,
        Search::Found(addr) => {
            let ghost k = blocks::stop_from(bs, requested_size as int, 0)->0;
            proof {
                lemma_block_place(h0, mm0, mem0, k);
            }
            take_block(frames, mm, heap, addr, requested_size, Ghost(k));
            addr + HEADER_SIZE
        },
        Search::Nothing => {
            if !expand_heap(frames, mm, heap, requested_size) {
                proof {
                    lemma_heap_rolled_back(h0, mm0, mem0, *mm, frames@);
                }
                return 0;
            }
            let ghost pages = growth_pages(requested_size as int);
            let ghost mem1 = frames@;
            let ghost h1 = *heap;
            proof {
                lemma_grown_has_room(h0, mm0, mem0, requested_size as int);
                let bs1 = h1.blocks();
                lemma_block_place(h1, *mm, mem1, bs1.len() - 1);
            }
            let addr: u64 = match find_fit(frames, mm, heap, requested_size) {
                Search::Found(addr) => addr,
                _ => 0,
            };
            take_block(frames, mm, heap, addr, requested_size, Ghost(h1.blocks().len() - 1));
            proof {
                let mid = choose|mid: Seq<PageTable>|
                    {
                        &&& #[trigger] regions::fresh_mapped(
                            mm0,
                            mem0,
                            *mm,
                            mid,
                            h0.current_end,
                            pages,
                            heap_flags(),
                        )
                        &&& mm.ready(mid)
                        &&& window::backed(*mm, mid, s, h1.pages())
                        &&& window::only_within(*mm, mid, mem1, s, h1.pages())
                    };
                window::lemma_only_within_transitive(*mm, mid, mem1, frames@, s, h1.pages());
                assert(mapped_and_written(
                    mm0,
                    mem0,
                    *mm,
                    frames@,
                    h0.current_end,
                    pages,
                    s,
                    h1.pages(),
                ));
                assert forall|x: int| blocks::live(bs, x) implies #[trigger] blocks::live(
                    h1.blocks(),
                    x,
                ) by {
                    lemma_extended_live(bs, 4096 * pages, x);
                }
                blocks::lemma_keeps_transitive(
                    h0.words(mm0, mem0),
                    h1.words(*mm, mem1),
                    heap.words(*mm, frames@),
                    s,
                    bs,
                    h1.blocks(),
                );
            }
            addr + HEADER_SIZE
        },
    }
}

/// What a heap grows by suffices for the request.
pub proof fn lemma_grown_has_room(heap: HeapState, mm: MemoryManager, mem: Seq<PageTable>, size: int)
    requires
        heap.wf(mm, mem),
        heap.initialized,
        0 <= size,
        blocks::stop_from(heap.blocks(), size, 0) is None,
    ensures
        ({
            let after = blocks::extended(heap.blocks(), 4096 * growth_pages(size));
            &&& blocks::stop_from(after, size, 0) == Some(after.len() - 1)
            &&& after[after.len() - 1].marked()
            &&& after[after.len() - 1].fits(size)
        }),
{
    reveal(blocks::image);
    assert(size + 32 <= 4096 * growth_pages(size));
    blocks::lemma_extended_stop(heap.blocks(), size, 4096 * growth_pages(size));
}

/// Live payloads stay live when bytes are added.
proof fn lemma_extended_live(bs: Seq<Block>, bytes: int, x: int)
    requires
        bs.len() > 0,
        blocks::live(bs, x),
    ensures
        blocks::live(blocks::extended(bs, bytes), x),
{
    let k = choose|k: int| 0 <= k < bs.len() && !bs[k].free && (#[trigger] bs[k]).holds(x);
    let after = blocks::extended(bs, bytes);
    assert(after[k] == bs[k]);
    assert(after[k].holds(x));
}

/// Where the word `i` bytes behind `addr` is, in words from `s` on.
proof fn lemma_fill_place(s: int, addr: int, i: int)
    requires
        s <= addr,
        s % 8 == 0,
        addr % 8 == 0,
        i % 8 == 0,
    ensures
        (addr + i - s) / 8 == (addr - s) / 8 + i / 8,
        (i + 8) / 8 == i / 8 + 1,
{
}

/// Fills `size` bytes from `addr` on with the poison pattern.
fn poison(
    frames: &mut [PageTable],
    mm: &MemoryManager,
    heap: &HeapState,
    addr: u64,
    size: u64,
)
    requires
        heap.placed(*mm, old(frames)@),
        heap.start <= addr,
        addr + size <= heap.current_end,
        addr % 8 == 0,
        size % 8 == 0,
    ensures
        heap.placed(*mm, final(frames)@),
        heap.words(*mm, final(frames)@) == blocks::filled(
            heap.words(*mm, old(frames)@),
            (addr - heap.start) / 8,
            size as int / 8,
            POISON,
        ),
        window::only_within(
            *mm,
            old(frames)@,
            final(frames)@,
            heap.start as int,
            heap.pages(),
        ),
{
    let ghost mem0 = frames@;
    let ghost s = heap.start as int;
    let ghost n = heap.pages();
    let ghost from = (addr - heap.start) / 8;
    let ghost ws0 = heap.words(*mm, mem0);
    let mut i: u64 = 0;
    proof {
        lemma_word_count(*heap, *mm, mem0);
        window::lemma_only_within_reflexive(*mm, mem0, s, n);
        assert(blocks::filled(ws0, from, 0, POISON) =~= ws0);
    }
    while i < size
        invariant
            mem0 == old(frames)@,
            heap.placed(*mm, mem0),
            heap.placed(*mm, frames@),
            heap.start <= addr,
            heap.start % 8 == 0,
            addr + size <= heap.current_end,
            addr % 8 == 0,
            size % 8 == 0,
            i % 8 == 0,
            i <= size,
            s == heap.start as int,
            n == heap.pages(),
            from == (addr - heap.start) / 8,
            ws0 == heap.words(*mm, mem0),
            heap.words(*mm, frames@) == blocks::filled(ws0, from, i as int / 8, POISON),
            window::only_within(*mm, mem0, frames@, s, n),
        decreases size - i,
    {
        let ghost mem1 = frames@;
        store(frames, mm, heap.start, Ghost(n), addr + i, POISON);
        proof {
            lemma_word_count(*heap, *mm, mem0);
            window::lemma_only_within_transitive(*mm, mem0, mem1, frames@, s, n);
            lemma_fill_place(s, addr as int, i as int);
            blocks::lemma_fill_step(ws0, from, i as int / 8, POISON);
        }
        i = i + 8;
    }
}

/// The header of the block at `addr`, if the block after it is free.
fn before_free(
    frames: &[PageTable],
    mm: &MemoryManager,
    heap: &HeapState,
    addr: u64,
    Ghost(k): Ghost<int>,
) -> (r: Option<BlockHeader>)
    requires
        sound(*heap, *mm, frames@),
        0 <= k < heap.blocks().len(),
        heap.blocks()[k].addr == addr,
    ensures
        r is Some <==> k + 1 < heap.blocks().len() && heap.blocks()[k + 1].free,
        r matches Some(header) ==> header.size == heap.blocks()[k].size && header.next
            == heap.blocks()[k + 1].addr,
{
    let ghost bs = heap.blocks();
    let ghost ws = heap.words(*mm, frames@);
    proof {
        lemma_block_place(*heap, *mm, frames@, k);
        lemma_header_read(ws, heap.start as int, bs, k);
        if k + 1 < bs.len() {
            lemma_block_place(*heap, *mm, frames@, k + 1);
            lemma_header_read(ws, heap.start as int, bs, k + 1);
        }
    }
    let header = read_header(frames, mm, heap, addr);
    assert(header.size == bs[k].size && header.next == blocks::next_addr(bs, k));
    if header.next == 0 {
        return None;
    }
    assert(header.next == bs[k + 1].addr);
    let next = read_header(frames, mm, heap, header.next);
    if next.is_free {
        Some(header)
    } else {
        None
    }
}

/// Lets the free block at `addr` take in the next one, if that is free. Says
/// whether it was.
fn join_next(
    frames: &mut [PageTable],
    mm: &MemoryManager,
    heap: &mut HeapState,
    addr: u64,
    Ghost(k): Ghost<int>,
) -> (r: bool)
    requires
        sound(*old(heap), *mm, old(frames)@),
        0 <= k < old(heap).blocks().len(),
        old(heap).blocks()[k].addr == addr,
        old(heap).blocks()[k].free,
    ensures
        sound(*final(heap), *mm, final(frames)@),
        same_frame(*old(heap), *final(heap)),
        final(heap).stats == old(heap).stats,
        r == (k + 1 < old(heap).blocks().len() && old(heap).blocks()[k + 1].free),
        final(heap).blocks() == blocks::joined_next(old(heap).blocks(), k),
        window::only_within(
            *mm,
            old(frames)@,
            final(frames)@,
            old(heap).start as int,
            old(heap).pages(),
        ),
        blocks::keeps(
            old(heap).words(*mm, old(frames)@),
            final(heap).words(*mm, final(frames)@),
            old(heap).start as int,
            old(heap).blocks(),
        ),
        blocks::links_only(
            old(heap).words(*mm, old(frames)@),
            final(heap).words(*mm, final(frames)@),
            old(heap).start as int,
            old(heap).blocks(),
        ),
{
    let ghost mem0 = frames@;
    let ghost bs = heap.blocks();
    let ghost s = heap.start as int;
    match before_free(frames, mm, heap, addr, Ghost(k)) {
        Some(header) => {
            proof {
                blocks::lemma_merge_links(heap.words(*mm, mem0), s, bs, k);
            }
            merge_block(frames, mm, heap, addr, header.size, header.next, Ghost(k));
            true
        },
        None => {
            proof {
                window::lemma_only_within_reflexive(*mm, mem0, s, heap.pages());
            }
            false
        },
    }
}

/// What came of an attempt to give bytes back.
#[derive(Copy, Clone, Debug, PartialEq, Eq, Structural)]
pub enum DeallocateOutcome {
    /// There was nothing to give back.
    Ignored,
    /// The header lost its mark, or there never was one.
    InvalidMagic,
    /// The bytes had been given back before.
    DoubleFree,
    Freed,
}

/// `ptr` is behind a header in the heap, and where that header says that its
/// block is in use, it is a block of the heap.
pub open spec fn may_release(
    heap: HeapState,
    mm: MemoryManager,
    mem: Seq<PageTable>,
    ptr: u64,
) -> bool {
    let header = header_at(heap.words(mm, mem), heap.start as int, ptr - 32);
    &&& heap.start + 32 <= ptr <= heap.current_end
    &&& ptr % 8 == 0
    &&& header.magic == HEAP_MAGIC && !header.is_free ==> blocks::has_block(
        heap.blocks(),
        ptr - 32,
    )
}

/// From one heap to another, block `k` was released.
pub open spec fn block_released(h0: HeapState, h1: HeapState, k: int) -> bool {
    &&& same_frame(h0, h1)
    &&& h1.blocks() == blocks::released(h0.blocks(), k)
    &&& h1.stats.allocation_count == h0.stats.allocation_count
    &&& h1.stats.free_count == h0.stats.free_count + 1
    &&& h1.stats.expansion_count == h0.stats.expansion_count
}

/// From one memory of the heap to another, block `k` of `bs` was released: its
/// payload holds the poison pattern, its header still says that it is free, and
/// the other payloads in use are as they were.
pub open spec fn words_released(
    ws0: Seq<u64>,
    ws1: Seq<u64>,
    start: int,
    bs: Seq<Block>,
    k: int,
) -> bool {
    &&& blocks::keeps(ws0, ws1, start, blocks::marked_free(bs, k, true))
    &&& forall|x: int|
        blocks::place(start, bs[k].addr, 4) <= x < blocks::place(start, bs[k].end(), 0)
            ==> #[trigger] ws1[x] == POISON
    &&& ws1[blocks::place(start, bs[k].addr, 0)] == blocks::tag(bs[k].magic, true)
}

/// Merging leaves what was said of a released block.
proof fn lemma_still_released(
    ws0: Seq<u64>,
    ws1: Seq<u64>,
    ws2: Seq<u64>,
    start: int,
    bs: Seq<Block>,
    k: int,
    bs1: Seq<Block>,
    j: int,
)
    requires
        words_released(ws0, ws1, start, bs, k),
        blocks::image(ws1, start, bs1),
        0 <= k < bs.len(),
        bs[k].size >= 16,
        bs[k].addr >= start,
        0 <= j < bs1.len(),
        bs1[j].addr == bs[k].addr,
        bs1[j].size >= bs[k].size,
        blocks::keeps(ws1, ws2, start, bs1),
        blocks::links_only(ws1, ws2, start, bs1),
        forall|x: int|
            blocks::live(blocks::marked_free(bs, k, true), x) ==> #[trigger] blocks::live(bs1, x),
    ensures
        words_released(ws0, ws2, start, bs, k),
{
    reveal(blocks::image);
    blocks::lemma_keeps_transitive(ws0, ws1, ws2, start, blocks::marked_free(bs, k, true), bs1);
    blocks::lemma_places(ws1, start, bs1, j, j);
    let p = blocks::place(start, bs[k].addr, 0);
    assert forall|x: int|
        x == p || blocks::place(start, bs[k].addr, 4) <= x < blocks::place(
            start,
            bs[k].end(),
            0,
        ) implies #[trigger] ws2[x] == ws1[x] by {
        assert(bs1[j].end() <= start + 8 * ws1.len());
        blocks::lemma_not_link(ws1, start, bs1, j, x);
    }
    assert(ws2[p] == ws1[p]);
}

/// Other blocks in use stay in use while a released block is merged.
proof fn lemma_joined_live(bs: Seq<Block>, k: int, x: int)
    requires
        0 <= k < bs.len(),
        bs[k].free,
    ensures
        blocks::live(blocks::joined_next(bs, k), x) <==> blocks::live(bs, x),
{
    if k + 1 < bs.len() && bs[k + 1].free {
        blocks::lemma_merged_live(bs, k, x);
    }
}

/// Fills the payload of the block at `addr` and marks it as free.
fn poison_and_mark(
    frames: &mut [PageTable],
    mm: &MemoryManager,
    heap: &mut HeapState,
    addr: u64,
    header: &BlockHeader,
    Ghost(k): Ghost<int>,
)
    requires
        sound(*old(heap), *mm, old(frames)@),
        0 <= k < old(heap).blocks().len(),
        old(heap).blocks()[k].addr == addr,
        old(heap).blocks()[k].size == header.size,
        old(heap).blocks()[k].magic == header.magic,
    ensures
        sound(*final(heap), *mm, final(frames)@),
        same_frame(*old(heap), *final(heap)),
        final(heap).stats == old(heap).stats,
        final(heap).blocks() == blocks::marked_free(old(heap).blocks(), k, true),
        window::only_within(
            *mm,
            old(frames)@,
            final(frames)@,
            old(heap).start as int,
            old(heap).pages(),
        ),
        words_released(
            old(heap).words(*mm, old(frames)@),
            final(heap).words(*mm, final(frames)@),
            old(heap).start as int,
            old(heap).blocks(),
            k,
        ),
{
    let ghost mem0 = frames@;
    let ghost bs = heap.blocks();
    let ghost s = heap.start as int;
    let ghost ws0 = heap.words(*mm, mem0);
    let ghost from = blocks::place(s, bs[k].addr, 4);
    proof {
        lemma_block_place(*heap, *mm, mem0, k);
        blocks::lemma_filled(ws0, s, bs, k, POISON);
        lemma_payload_words(*heap, *mm, mem0, k);
    }
    poison(frames, mm, heap, addr + HEADER_SIZE, header.size);
    let ghost mem1 = frames@;
    let ghost ws1 = heap.words(*mm, mem1);
    mark_block(frames, mm, heap, addr, header.magic, true, Ghost(k));
    proof {
        let ws2 = heap.words(*mm, frames@);
        window::lemma_only_within_transitive(*mm, mem0, mem1, frames@, s, heap.pages());
        let others = blocks::marked_free(bs, k, true);
        assert forall|x: int| blocks::live(others, x) implies #[trigger] blocks::live(bs, x) by {
            let j = choose|j: int|
                0 <= j < others.len() && !others[j].free && (#[trigger] others[j]).holds(x);
            assert(bs[j] == others[j]);
            assert(bs[j].holds(x));
        }
        blocks::lemma_keeps_transitive(ws0, ws1, ws2, s, others, bs);
        assert forall|x: int|
            blocks::place(s, bs[k].addr, 4) <= x < blocks::place(
                s,
                bs[k].end(),
                0,
            ) implies #[trigger] ws2[x] == POISON by {
            assert(ws1[x] == POISON);
        }
    }
}

/// The words of a payload lie behind the header and within the heap.
pub proof fn lemma_payload_words(heap: HeapState, mm: MemoryManager, mem: Seq<PageTable>, k: int)
    requires
        sound(heap, mm, mem),
        0 <= k < heap.blocks().len(),
    ensures
        ({
            let b = heap.blocks()[k];
            let s = heap.start as int;
            &&& blocks::place(s, b.addr, 4) == (b.addr + 32 - s) / 8
            &&& blocks::place(s, b.end(), 0) == blocks::place(s, b.addr, 4) + b.size / 8
            &&& 0 <= blocks::place(s, b.addr, 0)
            &&& blocks::place(s, b.end(), 0) <= heap.words(mm, mem).len()
        }),
{
    lemma_block_place(heap, mm, mem, k);
    lemma_word_count(heap, mm, mem);
}

/// Joins a released block with its free neighbours. Says how many headers were
/// taken in.
fn join_neighbours(
    frames: &mut [PageTable],
    mm: &MemoryManager,
    heap: &mut HeapState,
    addr: u64,
    prev: u64,
    Ghost(k): Ghost<int>,
    Ghost(bs): Ghost<Seq<Block>>,
    Ghost(ws0): Ghost<Seq<u64>>,
) -> (r: u64)
    requires
        sound(*old(heap), *mm, old(frames)@),
        0 <= k < bs.len(),
        old(heap).blocks() == blocks::marked_free(bs, k, true),
        bs[k].addr == addr,
        prev == blocks::prev_addr(bs, k),
        words_released(
            ws0,
            old(heap).words(*mm, old(frames)@),
            old(heap).start as int,
            bs,
            k,
        ),
    ensures
        sound(*final(heap), *mm, final(frames)@),
        same_frame(*old(heap), *final(heap)),
        final(heap).stats == old(heap).stats,
        final(heap).blocks() == blocks::released(bs, k),
        r == (if k + 1 < bs.len() && bs[k + 1].free {
            1int
        } else {
            0
        }) + (if k > 0 && bs[k - 1].free {
            1int
        } else {
            0
        }),
        window::only_within(
            *mm,
            old(frames)@,
            final(frames)@,
            old(heap).start as int,
            old(heap).pages(),
        ),
        words_released(
            ws0,
            final(heap).words(*mm, final(frames)@),
            old(heap).start as int,
            bs,
            k,
        ),
{
    let ghost mem0 = frames@;
    let ghost s = heap.start as int;
    let ghost one = heap.blocks();
    let ghost ws1 = heap.words(*mm, mem0);
    let mut count: u64 = 0;
    proof {
        assert(one[k].addr == bs[k].addr && one[k].size == bs[k].size && one[k].free);
        lemma_block_place(*heap, *mm, mem0, k);
        if k > 0 {
            assert(one[k - 1] == bs[k - 1]);
            lemma_block_place(*heap, *mm, mem0, k - 1);
        }
    }
    if join_next(frames, mm, heap, addr, Ghost(k)) {
        count = 1;
    }
    let ghost mem1 = frames@;
    let ghost two = heap.blocks();
    let ghost ws2 = heap.words(*mm, mem1);
    proof {
        if k + 1 < bs.len() {
            assert(one[k + 1] == bs[k + 1]);
        }
        assert(two[k].addr == bs[k].addr && two[k].free && two[k].size >= bs[k].size) by {
            if k + 1 < bs.len() {
                lemma_block_place(*old(heap), *mm, mem0, k + 1);
            }
        }
        lemma_still_released(ws0, ws1, ws2, s, bs, k, one, k);
    }
    if prev != 0 {
        proof {
            if k == 0 {
                assert(false);
            }
            assert(two[k - 1] == bs[k - 1]);
            lemma_block_place(*heap, *mm, mem1, k - 1);
            lemma_header_read(ws2, s, two, k - 1);
        }
        let before = read_header(frames, mm, heap, prev);
        if before.is_free {
            proof {
                assert forall|x: int|
                    blocks::live(blocks::marked_free(bs, k, true), x) implies #[trigger] blocks::live(
                    two,
                    x,
                ) by {
                    lemma_joined_live(one, k, x);
                }
            }
            if join_next(frames, mm, heap, prev, Ghost(k - 1)) {
                count = count + 1;
            }
            proof {
                lemma_still_released(
                    ws0,
                    ws2,
                    heap.words(*mm, frames@),
                    s,
                    bs,
                    k,
                    two,
                    k,
                );
            }
        } else {
            proof {
                window::lemma_only_within_reflexive(*mm, mem1, s, heap.pages());
            }
        }
    } else {
        proof {
            window::lemma_only_within_reflexive(*mm, mem1, s, heap.pages());
        }
    }
    proof {
        window::lemma_only_within_transitive(*mm, mem0, mem1, frames@, s, heap.pages());
    }
    count
}

/// What giving back the `size` bytes at `ptr` does to a heap, and what comes of
/// it.
pub open spec fn deallocation(
    h0: HeapState,
    mm: MemoryManager,
    mem0: Seq<PageTable>,
    h1: HeapState,
    mem1: Seq<PageTable>,
    ptr: u64,
    size: u64,
    r: DeallocateOutcome,
) -> bool {
    let ws = h0.words(mm, mem0);
    let header = header_at(ws, h0.start as int, ptr - 32);
    &&& r == if ptr == 0 || size == 0 || !h0.initialized {
        DeallocateOutcome::Ignored
    } else if header.magic != HEAP_MAGIC {
        DeallocateOutcome::InvalidMagic
    } else if header.is_free {
        DeallocateOutcome::DoubleFree
    } else {
        DeallocateOutcome::Freed
    }
    &&& r != DeallocateOutcome::Freed ==> {
        &&& h1 == h0
        &&& mem1 == mem0
    }
    &&& r == DeallocateOutcome::Freed ==> {
        let k = blocks::block_at(h0.blocks(), ptr - 32);
        &&& 0 <= k < h0.blocks().len()
        &&& h0.blocks()[k].addr == ptr - 32
        &&& block_released(h0, h1, k)
        &&& window::only_within(mm, mem0, mem1, h0.start as int, h0.pages())
        &&& words_released(ws, h1.words(mm, mem1), h0.start as int, h0.blocks(), k)
    }
}

/// Gives back the bytes at `ptr`: their block is poisoned and joined with its
/// free neighbours.
///
/// Nothing happens for no bytes, for a header without the mark and for a block
/// that is free already.
pub fn deallocate(
    frames: &mut [PageTable],
    mm: &MemoryManager,
    heap: &mut HeapState,
    ptr: u64,
    size: u64,
) -> (r: DeallocateOutcome)
    requires
        old(heap).wf(*mm, old(frames)@),
        ptr != 0 && size != 0 && old(heap).initialized ==> may_release(
            *old(heap),
            *mm,
            old(frames)@,
            ptr,
        ),
        old(heap).stats.free_count < u64::MAX,
    ensures
        final(heap).wf(*mm, final(frames)@),
        deallocation(*old(heap), *mm, old(frames)@, *final(heap), final(frames)@, ptr, size, r),
{
    if ptr == 0 || size == 0 {
        return DeallocateOutcome::Ignored;
    }
    if !heap.initialized {
        return DeallocateOutcome::Ignored;
    }
    let ghost mem0 = frames@;
    let ghost bs = heap.blocks();
    let ghost s = heap.start as int;
    let ghost end = heap.current_end as int;
    let ghost ws0 = heap.words(*mm, mem0);
    let addr: u64 = ptr - HEADER_SIZE;
    let header = read_header(frames, mm, heap, addr);
    if header.magic != HEAP_MAGIC {
        return DeallocateOutcome::InvalidMagic;
    }
    if header.is_free {
        return DeallocateOutcome::DoubleFree;
    }
    let ghost k = blocks::block_at(bs, addr as int);
    proof {
        assert(0 <= k < bs.len() && bs[k].addr == addr);
        lemma_header_read(ws0, s, bs, k);
        lemma_block_place(*heap, *mm, mem0, k);
        assert(bs[k].size <= blocks::payload(bs, false) && blocks::chained(
            s,
            end,
            blocks::released(bs, k),
        ) && blocks::payload(blocks::released(bs, k), true) <= end - s) by {
            lemma_chain(*heap, *mm, mem0);
            blocks::lemma_payload_bound(bs, false);
            blocks::lemma_released(s, end, bs, k);
            blocks::lemma_payload_bound(blocks::released(bs, k), false);
            blocks::lemma_payload_total(s, blocks::released(bs, k));
        }
    }
    poison_and_mark(frames, mm, heap, addr, &header, Ghost(k));
    let ghost mem1 = frames@;
    let count: u64 = join_neighbours(
        frames,
        mm,
        heap,
        addr,
        header.prev,
        Ghost(k),
        Ghost(bs),
        Ghost(ws0),
    );
    proof {
        window::lemma_only_within_transitive(*mm, mem0, mem1, frames@, s, heap.pages());
        assert(blocks::payload(blocks::released(bs, k), true) == blocks::payload(bs, true)
            + header.size + 32 * count && blocks::payload(blocks::released(bs, k), false)
            == blocks::payload(bs, false) - header.size) by {
            lemma_chain(*old(heap), *mm, mem0);
            blocks::lemma_released(s, end, bs, k);
        }
    }
    heap.stats.allocated_bytes = heap.stats.allocated_bytes - header.size;
    heap.stats.free_bytes = heap.stats.free_bytes + (header.size + count * HEADER_SIZE);
    heap.stats.free_count = heap.stats.free_count + 1;
    DeallocateOutcome::Freed
}

/// The bytes that the heap starts with.
pub open spec fn initial_bytes() -> int {
    4096 * HEAP_INITIAL_PAGES
}

/// The region that the heap starts with.
pub open spec fn heap_region() -> VirtRegion {
    VirtRegion {
        start: VirtAddr(HEAP_START_ADDR),
        size_bytes: initial_bytes() as u64,
        permissions: VirtPermissions {
            readable: true,
            writable: true,
            executable: false,
            user: false,
        },
        purpose: RegionPurpose::DynamicKernel,
        owns_physical_pages: false,
    }
}

/// Why the heap cannot be set up; none if it can.
pub open spec fn init_refusal(mm: MemoryManager, mem: Seq<PageTable>) -> Option<VmmError> {
    match crate::vmm::register_refusal(mm.vmm@, heap_region()) {
        Some(e) => Some(e),
        None => regions::fresh_refusal(mm, mem, HEAP_START_ADDR, HEAP_INITIAL_PAGES as int),
    }
}

/// The heap was set up: its first pages were registered, mapped to fresh frames, and
/// made one free block.
pub open spec fn set_up(
    mm0: MemoryManager,
    mem0: Seq<PageTable>,
    h1: HeapState,
    mm1: MemoryManager,
    mem1: Seq<PageTable>,
) -> bool {
    &&& h1.initialized
    &&& h1.current_end == HEAP_START_ADDR + initial_bytes()
    &&& h1.blocks() == blocks::single(HEAP_START_ADDR as int, initial_bytes())
    &&& h1.stats == (HeapStats {
        total_bytes: initial_bytes() as u64,
        free_bytes: (initial_bytes() - 32) as u64,
        ..HeapStats::spec_new()
    })
    &&& mm1.vmm@ == mm0.vmm@.push(heap_region())
    &&& mapped_and_written(
        mm0,
        mem0,
        mm1,
        mem1,
        HEAP_START_ADDR,
        HEAP_INITIAL_PAGES as int,
        HEAP_START_ADDR as int,
        HEAP_INITIAL_PAGES as int,
    )
}

/// Sets the heap up: its first pages are registered, mapped to fresh frames, and
/// made one free block.
///
/// A heap that is set up already stays as it is. A failure takes everything
/// back; where a page could not be mapped, the tables that were created on the
/// way stay, empty.
pub fn init(frames: &mut [PageTable], mm: &mut MemoryManager, heap: &mut HeapState) -> (r: Result<
    (),
    VmmError,
>)
    requires
        old(mm).ready(old(frames)@),
        old(heap).wf(*old(mm), old(frames)@),
    ensures
        final(mm).ready(final(frames)@),
        final(heap).wf(*final(mm), final(frames)@),
        final(mm).vmm.next_dynamic_addr == old(mm).vmm.next_dynamic_addr,
        if old(heap).initialized {
            &&& r == Ok::<(), VmmError>(())
            &&& *final(mm) == *old(mm)
            &&& *final(heap) == *old(heap)
            &&& final(frames)@ == old(frames)@
        } else {
            match init_refusal(*old(mm), old(frames)@) {
                Some(e) => {
                    &&& r == Err::<(), VmmError>(e)
                    &&& *final(heap) == *old(heap)
                    &&& regions::fresh_refused(
                        *old(mm),
                        old(frames)@,
                        *final(mm),
                        final(frames)@,
                        HEAP_INITIAL_PAGES as int,
                    )
                    &&& crate::vmm::register_refusal(old(mm).vmm@, heap_region()) is Some ==> {
                        &&& *final(mm) == *old(mm)
                        &&& final(frames)@ == old(frames)@
                    }
                },
                None => {
                    &&& r == Ok::<(), VmmError>(())
                    &&& set_up(
                        *old(mm),
                        old(frames)@,
                        *final(heap),
                        *final(mm),
                        final(frames)@,
                    )
                },
            }
        },
{
    if heap.initialized {
        return Ok(());
    }
    let ghost mm0 = *mm;
    let ghost mem0 = frames@;
    let next: u64 = mm.vmm.next_dynamic_addr;
    let initial_bytes: u64 = (HEAP_INITIAL_PAGES as u64) * PAGE_SIZE;
    let permissions = VirtPermissions::kernel_data();
    let region = VirtRegion {
        start: VirtAddr::new(HEAP_START_ADDR),
        size_bytes: initial_bytes,
        permissions,
        purpose: RegionPurpose::DynamicKernel,
        owns_physical_pages: false,
    };
    proof {
        paging::lemma_grown_reflexive(mm0, mem0);
        assert(region == heap_region());
    }
    match register_region(&mut mm.vmm, region) {
        Ok(()) => {},
        Err(e) => return Err(e),
    }
    let ghost mm1 = *mm;
    proof {
        assert(mm1.vmm@.drop_last() =~= mm0.vmm@);
        assert forall|f: int| #[trigger] mm1.is_table(f) implies f < mm1.pmm@.total()
            && mm1.pmm@.used[f] by {
            assert(mm0.is_table(f));
        }
        lemma_heap_flags();
    }
    let flags = permissions.to_page_flags();
    match map_fresh_run(frames, mm, region.start, HEAP_INITIAL_PAGES, flags) {
        Ok(()) => {},
        Err(e) => {
            let ghost mm2 = *mm;
            cancel_reservation(&mut mm.vmm, next);
            proof {
                regions::lemma_cancelled(mm0, mem0, mm1, mm2, *mm, frames@);
            }
            return Err(e);
        },
    }
    let ghost mem1 = frames@;
    proof {
        regions::lemma_backed_elsewhere(
            mm0,
            mem0,
            mm1,
            *mm,
            mem1,
            HEAP_START_ADDR,
            HEAP_INITIAL_PAGES as int,
            heap_flags(),
        );
        window::lemma_fresh_backed(
            mm0,
            mem0,
            *mm,
            mem1,
            HEAP_START_ADDR,
            HEAP_INITIAL_PAGES as int,
            heap_flags(),
        );
    }
    heap.current_end = HEAP_START_ADDR + initial_bytes;
    let usable_payload: u64 = initial_bytes - HEADER_SIZE;
    proof {
        assert(heap.pages() == HEAP_INITIAL_PAGES);
        lemma_word_count(*heap, *mm, mem1);
        blocks::lemma_image_single(heap.words(*mm, mem1), HEAP_START_ADDR as int);
    }
    write_header(frames, mm, heap, HEAP_START_ADDR, usable_payload, 0, 0);
    proof {
        assert(mapped_and_written(
            mm0,
            mem0,
            *mm,
            frames@,
            HEAP_START_ADDR,
            HEAP_INITIAL_PAGES as int,
            HEAP_START_ADDR as int,
            HEAP_INITIAL_PAGES as int,
        ));
    }
    heap.blocks = Ghost(blocks::single(HEAP_START_ADDR as int, initial_bytes as int));
    heap.head = HEAP_START_ADDR;
    heap.stats.total_bytes = initial_bytes;
    heap.stats.free_bytes = usable_payload;
    heap.initialized = true;
    Ok(())
}

/// An address in use lies in the heap.
proof fn lemma_live_place(heap: HeapState, mm: MemoryManager, mem: Seq<PageTable>, addr: int)
    requires
        sound(heap, mm, mem),
        blocks::live(heap.blocks(), addr),
    ensures
        heap.start <= addr < heap.current_end,
{
    let bs = heap.blocks();
    let k = choose|k: int| 0 <= k < bs.len() && !bs[k].free && (#[trigger] bs[k]).holds(addr);
    lemma_block_place(heap, mm, mem, k);
}

/// Reads the word at `addr`, in bytes that were handed out.
pub fn read_payload(frames: &[PageTable], mm: &MemoryManager, heap: &HeapState, addr: u64) -> (r:
    u64)
    requires
        heap.wf(*mm, frames@),
        heap.initialized,
        blocks::live(heap.blocks(), addr as int),
        addr % 8 == 0,
    ensures
        r == heap.words(*mm, frames@)[(addr - heap.start) / 8],
{
    proof {
        lemma_live_place(*heap, *mm, frames@, addr as int);
    }
    load(frames, mm, heap.start, Ghost(heap.pages()), addr)
}

/// Writes the word at `addr`, in bytes that were handed out.
pub fn write_payload(
    frames: &mut [PageTable],
    mm: &MemoryManager,
    heap: &HeapState,
    addr: u64,
    value: u64,
)
    requires
        heap.wf(*mm, old(frames)@),
        heap.initialized,
        blocks::live(heap.blocks(), addr as int),
        addr % 8 == 0,
    ensures
        heap.wf(*mm, final(frames)@),
        heap.words(*mm, final(frames)@) == heap.words(*mm, old(frames)@).update(
            (addr - heap.start) / 8,
            value,
        ),
        window::only_within(
            *mm,
            old(frames)@,
            final(frames)@,
            heap.start as int,
            heap.pages(),
        ),
{
    let ghost ws = heap.words(*mm, frames@);
    let ghost i = (addr - heap.start) / 8;
    proof {
        lemma_live_place(*heap, *mm, frames@, addr as int);
        lemma_word_count(*heap, *mm, frames@);
        assert(heap.start + 8 * i == addr);
        blocks::lemma_payload_write(ws, heap.start as int, heap.blocks(), i, value);
    }
    store(frames, mm, heap.start, Ghost(heap.pages()), addr, value);
}

} // verus!
