//! What holds of the heap's pages, blocks, headers and totals from one operation to
//! the next.

use vstd::prelude::*;
use crate::blocks;
use crate::blocks::Block;
use crate::boot_laws;
use crate::heap;
use crate::heap::{DeallocateOutcome, HeapState};
use crate::heap_check;
use crate::paging;
use crate::paging::MemoryManager;
use crate::paging_laws;
use crate::region_laws;
use crate::regions;
use crate::vmm::{PageTable, PageTableFlags, RegionPurpose, VirtAddr, VmmError};
use crate::walk;
use crate::window;

verus! {

/// Every address of the heap translates to memory that the kernel can write and not
/// run, and user code cannot reach: the flags are present, writable and no execute.
pub open spec fn writable_throughout(
    heap: HeapState,
    mm: MemoryManager,
    mem: Seq<PageTable>,
) -> bool {
    forall|addr: u64|
        heap.start <= addr < heap.current_end ==> (#[trigger] paging::translation(
            mem,
            mm.root,
            VirtAddr(addr),
        ) matches Some(t) && t.1 == PageTableFlags(0x8000_0000_0000_0003))
}

/// The bits of the flags that the heap's pages have.
pub proof fn lemma_writable_bits(
    heap: HeapState,
    mm: MemoryManager,
    mem: Seq<PageTable>,
    addr: u64,
)
    requires
        writable_throughout(heap, mm, mem),
        heap.start <= addr < heap.current_end,
    ensures
        ({
            let flags = (paging::translation(mem, mm.root, VirtAddr(addr))->0).1.0;
            &&& flags & 1 != 0
            &&& flags & 2 != 0
            &&& flags & 4 == 0
            &&& flags & 0x8000_0000_0000_0000 != 0
        }),
{
    assert(paging::translation(mem, mm.root, VirtAddr(addr)) is Some);
    assert(0x8000_0000_0000_0003u64 & 1 != 0 && 0x8000_0000_0000_0003u64 & 2 != 0
        && 0x8000_0000_0000_0003u64 & 4 == 0 && 0x8000_0000_0000_0003u64 & 0x8000_0000_0000_0000
        != 0) by (bit_vector);
}

/// What addresses translate to after pages were mapped for the heap and written to.
proof fn lemma_mapped_for_heap(
    mm0: MemoryManager,
    mem0: Seq<PageTable>,
    mm1: MemoryManager,
    mem1: Seq<PageTable>,
    start: u64,
    pages: int,
    base: int,
    n: int,
    addr: u64,
)
    requires
        mm0.ready(mem0),
        heap::mapped_and_written(mm0, mem0, mm1, mem1, start, pages, base, n),
        0 <= pages <= mm0.pmm@.free_count(),
        start % 4096 == 0,
        start + 4096 * pages <= 0x0000_8000_0000_0000,
    ensures
        mm1.root == mm0.root,
        start <= addr < start + 4096 * pages ==> (paging::translation(
            mem1,
            mm1.root,
            VirtAddr(addr),
        ) matches Some(t) && t.1 == PageTableFlags(0x8000_0000_0000_0003)),
        !(start <= addr < start + 4096 * pages) ==> paging::translation(
            mem1,
            mm1.root,
            VirtAddr(addr),
        ) == paging::translation(mem0, mm0.root, VirtAddr(addr)),
{
    let flags = heap::heap_flags();
    let mid = choose|mid: Seq<PageTable>|
        {
            &&& #[trigger] regions::fresh_mapped(mm0, mem0, mm1, mid, start, pages, flags)
            &&& mm1.ready(mid)
            &&& window::backed(mm1, mid, base, n)
            &&& window::only_within(mm1, mid, mem1, base, n)
        };
    heap::lemma_heap_flags();
    paging_laws::lemma_within_translates(mm1, mid, mem1, base, n, mm1.root, addr);
    if start <= addr < start + 4096 * pages {
        paging_laws::lemma_fresh_translates(mm0, mem0, mm1, mid, start, pages, flags, addr);
    } else {
        paging_laws::lemma_fresh_elsewhere(
            mm0,
            mem0,
            mm1,
            mid,
            start,
            pages,
            flags,
            mm0.root,
            addr,
        );
    }
}

/// A heap that was set up starts at 0x2000_0000_0000 with 32 pages, all of which the
/// kernel can write. They are registered, as writable and not executable. The heap is
/// one free block, with a header of 32 bytes; nothing was handed out or taken back.
pub proof fn lemma_heap_set_up(
    mm0: MemoryManager,
    mem0: Seq<PageTable>,
    h1: HeapState,
    mm1: MemoryManager,
    mem1: Seq<PageTable>,
)
    requires
        mm0.ready(mem0),
        heap::init_refusal(mm0, mem0) is None,
        h1.wf(mm1, mem1),
        heap::set_up(mm0, mem0, h1, mm1, mem1),
    ensures
        writable_throughout(h1, mm1, mem1),
        h1.start == 0x0000_2000_0000_0000,
        h1.current_end == 0x0000_2000_0002_0000,
        h1.head == 0x0000_2000_0000_0000,
        h1.blocks().len() == 1,
        h1.blocks()[0].addr == 0x0000_2000_0000_0000,
        h1.blocks()[0].size == 0x1_FFE0,
        h1.blocks()[0].free,
        h1.blocks()[0].magic == 0x5645_4E54,
        h1.stats.total_bytes == 0x2_0000,
        h1.stats.free_bytes == 0x1_FFE0,
        h1.stats.allocated_bytes == 0,
        h1.stats.allocation_count == 0,
        h1.stats.free_count == 0,
        h1.stats.expansion_count == 0,
        mm1.vmm@.len() == mm0.vmm@.len() + 1,
        mm1.vmm@.drop_last() == mm0.vmm@,
        ({
            let region = mm1.vmm@.last();
            &&& region.start.0 == 0x0000_2000_0000_0000
            &&& region.size_bytes == 0x2_0000
            &&& region.permissions.readable
            &&& region.permissions.writable
            &&& !region.permissions.executable
            &&& !region.permissions.user
            &&& region.purpose == RegionPurpose::DynamicKernel
        }),
{
    assert(mm0.vmm@.push(heap::heap_region()).drop_last() =~= mm0.vmm@);
    assert forall|addr: u64| h1.start <= addr < h1.current_end implies (#[trigger] paging::translation(
        mem1,
        mm1.root,
        VirtAddr(addr),
    ) matches Some(t) && t.1 == PageTableFlags(0x8000_0000_0000_0003)) by {
        lemma_mapped_for_heap(
            mm0,
            mem0,
            mm1,
            mem1,
            0x0000_2000_0000_0000,
            32,
            0x0000_2000_0000_0000,
            32,
            addr,
        );
    }
}

/// When the heap can be set up, and why it cannot: its region must be free of others,
/// the registry have room, and the free frames suffice for 32 pages that are not
/// mapped and for the tables that are missing.
pub proof fn lemma_set_up_when(mm: MemoryManager, mem: Seq<PageTable>)
    requires
        mm.ready(mem),
    ensures
        ({
            let start = 0x0000_2000_0000_0000int;
            let free = mm.pmm@.free_count();
            let tables = walk::run_missing(
                mem,
                mm.root.0 as int / 4096,
                walk::page_of(start as u64),
                32,
            );
            heap::init_refusal(mm, mem) == if mm.vmm@.len() >= 64 {
                Some(VmmError::RegionTableFull)
            } else if !boot_laws::clear_of(mm.vmm@, start, start + 0x2_0000) {
                Some(VmmError::RegionOverlaps)
            } else if free < 32 {
                Some(VmmError::PhysicalAllocationFailed)
            } else if !region_laws::untranslated(mem, mm.root, start, 32) || free < 32 + tables {
                Some(VmmError::PageTableMappingFailed)
            } else {
                None
            }
        }),
{
    let start = 0x0000_2000_0000_0000u64;
    boot_laws::lemma_taken_or_clear(mm.vmm@, start as int, start + 0x2_0000);
    region_laws::lemma_fresh_when(mm, mem, start, 32);
}

/// The pages that a heap grows by for a request of `needed` bytes are the fewest, from
/// 16 on, that hold them and a header of 32 bytes.
pub proof fn lemma_growth_pages(needed: int)
    requires
        0 <= needed,
    ensures
        heap::growth_pages(needed) >= 16,
        4096 * heap::growth_pages(needed) >= needed + 32,
        heap::growth_pages(needed) == 16 || 4096 * (heap::growth_pages(needed) - 1) < needed + 32,
{
    let pages = (needed + 32 + 4095) / 4096;
    assert(4096 * pages <= needed + 32 + 4095 < 4096 * pages + 4096);
}

/// When a heap can grow by `pages` pages: at most 128 at once, behind its end, where
/// none is mapped, and if the free frames suffice for them and for the tables that are
/// missing.
pub proof fn lemma_growth_when(heap: HeapState, mm: MemoryManager, mem: Seq<PageTable>, pages: int)
    requires
        heap.wf(mm, mem),
        heap.initialized,
        0 <= pages,
        heap.current_end + 4096 * pages <= 0x0000_8000_0000_0000,
    ensures
        ({
            let free = mm.pmm@.free_count();
            let tables = walk::run_missing(
                mem,
                mm.root.0 as int / 4096,
                walk::page_of(heap.current_end),
                pages as nat,
            );
            heap::growth_refused(heap, mm, mem, pages) == (pages > 128 || free < pages
                || !region_laws::untranslated(mem, mm.root, heap.current_end as int, pages) || free
                < pages + tables)
        }),
{
    region_laws::lemma_fresh_when(mm, mem, heap.current_end, pages);
}

/// The totals of a heap in terms of its blocks: all its bytes are headers of 32 bytes
/// each, free bytes and bytes in use.
pub proof fn lemma_bytes_add_up(heap: HeapState, mm: MemoryManager, mem: Seq<PageTable>)
    requires
        heap.wf(mm, mem),
        heap.initialized,
    ensures
        heap.stats.total_bytes == heap.current_end - heap.start,
        heap.stats.free_bytes + heap.stats.allocated_bytes + 32 * heap.blocks().len()
            == heap.stats.total_bytes,
{
    heap::lemma_chain(heap, mm, mem);
    blocks::lemma_payload_total(heap.start as int, heap.blocks());
}

/// What one block more adds to the bytes of the free blocks, or of those in use.
pub proof fn lemma_bytes_of_block(bs: Seq<Block>, b: Block)
    ensures
        blocks::payload(Seq::<Block>::empty(), true) == 0,
        blocks::payload(Seq::<Block>::empty(), false) == 0,
        b.free ==> blocks::payload(bs.push(b), true) == blocks::payload(bs, true) + b.size
            && blocks::payload(bs.push(b), false) == blocks::payload(bs, false),
        !b.free ==> blocks::payload(bs.push(b), false) == blocks::payload(bs, false) + b.size
            && blocks::payload(bs.push(b), true) == blocks::payload(bs, true),
{
    assert(bs.push(b).drop_last() =~= bs);
}

/// The words of a block's header as they are in the heap's memory: the mark in the
/// lower half of the first word and above it 1 if the block is free, the size, and the
/// addresses of the blocks before and after, 0 where there is none. The blocks follow
/// each other without gaps, from the start of the heap to its end.
pub proof fn lemma_header_in_memory(
    heap: HeapState,
    mm: MemoryManager,
    mem: Seq<PageTable>,
    k: int,
)
    requires
        heap.wf(mm, mem),
        heap.initialized,
        0 <= k < heap.blocks().len(),
    ensures
        ({
            let bs = heap.blocks();
            let at = (bs[k].addr - heap.start) / 8;
            let ws = heap.words(mm, mem);
            &&& bs[k].addr % 16 == 0
            &&& bs[k].size % 16 == 0
            &&& bs[k].size >= 16
            &&& ws[at] == bs[k].magic + if bs[k].free {
                0x1_0000_0000int
            } else {
                0
            }
            &&& ws[at + 1] == bs[k].size
            &&& ws[at + 2] == if k > 0 {
                bs[k - 1].addr
            } else {
                0
            }
            &&& ws[at + 3] == if k + 1 < bs.len() {
                bs[k + 1].addr
            } else {
                0
            }
            &&& k == 0 ==> bs[k].addr == heap.start
            &&& k > 0 ==> bs[k].addr == bs[k - 1].addr + 32 + bs[k - 1].size
            &&& k + 1 == bs.len() ==> bs[k].addr + 32 + bs[k].size == heap.current_end
        }),
{
    let bs = heap.blocks();
    let ws = heap.words(mm, mem);
    heap::lemma_chain(heap, mm, mem);
    heap::lemma_header_read(ws, heap.start as int, bs, k);
    assert(blocks::header_in(ws, heap.start as int, bs, k)) by {
        reveal(blocks::image);
    }
    if k > 0 {
        assert(blocks::follows(bs, k));
        heap::lemma_header_read(ws, heap.start as int, bs, k - 1);
    }
    if k + 1 < bs.len() {
        heap::lemma_header_read(ws, heap.start as int, bs, k + 1);
    }
}

/// Where the word at `addr` is among the pages from `s` on.
proof fn lemma_word_place(s: int, n: int, addr: u64)
    requires
        0 <= s,
        s % 4096 == 0,
        s + 4096 * n <= 0x0000_8000_0000_0000,
        s <= addr < s + 4096 * n,
        addr % 8 == 0,
    ensures
        ({
            let x = (addr - s) / 8;
            &&& 0 <= x / 512 < n
            &&& 0 <= x < 512 * n
            &&& walk::page_of(addr) == s / 4096 + x / 512
            &&& (addr as int % 4096) / 8 == x % 512
        }),
{
    let a = s / 4096;
    let x = (addr - s) / 8;
    assert(s == 4096 * a);
    assert(addr == s + 8 * x);
    assert(addr as int / 4096 == a + x / 512);
    assert(addr as int % 4096 == 8 * (x % 512));
}

/// The words of the heap are those that its addresses translate to.
pub proof fn lemma_words_where_translated(
    heap: HeapState,
    mm: MemoryManager,
    mem: Seq<PageTable>,
    addr: u64,
)
    requires
        heap.wf(mm, mem),
        heap.initialized,
        heap.start <= addr < heap.current_end,
        addr % 8 == 0,
    ensures
        paging::translation(mem, mm.root, VirtAddr(addr)) is Some,
        ({
            let phys = (paging::translation(mem, mm.root, VirtAddr(addr))->0).0.0 as int;
            heap.words(mm, mem)[(addr - heap.start) / 8] == mem[phys / 4096].entries@[phys % 4096
                / 8].0
        }),
{
    let s = heap.start as int;
    let n = heap.pages();
    let x = (addr - s) / 8;
    assert(heap.current_end == s + 4096 * n);
    window::lemma_backed_bound(mm, mem, s, n);
    lemma_word_place(s, n, addr);
    assert(window::holds(mm, mem, s, x / 512)) by {
        reveal(window::backed);
    }
    paging_laws::lemma_word_where_translated(mem, mm.root, addr);
}

/// Growing a heap keeps it writable throughout: the pages that it grows by are mapped
/// like those that it had. An attempt that fails leaves it so too.
pub proof fn lemma_growth_writable(
    h0: HeapState,
    mm0: MemoryManager,
    mem0: Seq<PageTable>,
    h1: HeapState,
    mm1: MemoryManager,
    mem1: Seq<PageTable>,
    needed_bytes: u64,
    r: bool,
)
    requires
        h0.wf(mm0, mem0),
        h0.initialized,
        h1.wf(mm1, mem1),
        writable_throughout(h0, mm0, mem0),
        heap::expansion(h0, mm0, mem0, h1, mm1, mem1, needed_bytes, r),
    ensures
        writable_throughout(h1, mm1, mem1),
        r ==> h1.start == h0.start && h1.current_end == h0.current_end + 4096 * heap::growth_pages(
            needed_bytes as int,
        ),
{
    let pages = heap::growth_pages(needed_bytes as int);
    lemma_growth_pages(needed_bytes as int);
    if r {
        lemma_grown_writable(h0, mm0, mem0, h1, mm1, mem1, pages);
    } else {
        lemma_left_writable(h0, mm0, mem0, mm1, mem1, pages);
    }
}

/// Pages that are mapped behind a heap keep it writable throughout.
proof fn lemma_grown_writable(
    h0: HeapState,
    mm0: MemoryManager,
    mem0: Seq<PageTable>,
    h1: HeapState,
    mm1: MemoryManager,
    mem1: Seq<PageTable>,
    pages: int,
)
    requires
        h0.wf(mm0, mem0),
        h0.initialized,
        h1.wf(mm1, mem1),
        h1.initialized,
        writable_throughout(h0, mm0, mem0),
        !heap::growth_refused(h0, mm0, mem0, pages),
        0 <= pages,
        h1.start == h0.start,
        h1.current_end == h0.current_end + 4096 * pages,
        heap::mapped_and_written(
            mm0,
            mem0,
            mm1,
            mem1,
            h0.current_end,
            pages,
            h1.start as int,
            h1.pages(),
        ),
    ensures
        writable_throughout(h1, mm1, mem1),
{
    window::lemma_backed_bound(mm1, mem1, h1.start as int, h1.pages());
    assert(h1.current_end == h1.start + 4096 * h1.pages());
    assert forall|addr: u64| h1.start <= addr < h1.current_end implies (#[trigger] paging::translation(
        mem1,
        mm1.root,
        VirtAddr(addr),
    ) matches Some(t) && t.1 == PageTableFlags(0x8000_0000_0000_0003)) by {
        lemma_mapped_for_heap(
            mm0,
            mem0,
            mm1,
            mem1,
            h0.current_end,
            pages,
            h1.start as int,
            h1.pages(),
            addr,
        );
        if addr < h0.current_end {
            assert(paging::translation(mem0, mm0.root, VirtAddr(addr)) is Some);
        }
    }
}

/// An attempt to grow that fails leaves what the heap's addresses translate to.
proof fn lemma_left_writable(
    heap: HeapState,
    mm0: MemoryManager,
    mem0: Seq<PageTable>,
    mm1: MemoryManager,
    mem1: Seq<PageTable>,
    pages: int,
)
    requires
        mm0.ready(mem0),
        writable_throughout(heap, mm0, mem0),
        heap::growth_left(mm0, mem0, mm1, mem1, pages),
    ensures
        writable_throughout(heap, mm1, mem1),
{
    let r = mm0.root.0 as int / 4096;
    assert forall|addr: u64|
        heap.start <= addr < heap.current_end implies (#[trigger] paging::translation(
        mem1,
        mm1.root,
        VirtAddr(addr),
    ) matches Some(t) && t.1 == PageTableFlags(0x8000_0000_0000_0003)) by {
        assert(paging::translation(mem0, mm0.root, VirtAddr(addr)) is Some);
        let p = walk::page_of(addr);
        assert(0 <= p < walk::page_limit());
        assert(walk::mapping(mem1, r, p) == walk::mapping(mem0, r, p));
    }
}

/// Writing within the heap keeps it writable throughout.
proof fn lemma_written_writable(
    heap: HeapState,
    mm: MemoryManager,
    mem0: Seq<PageTable>,
    mem1: Seq<PageTable>,
    start: int,
    n: int,
)
    requires
        mm.ready(mem0),
        writable_throughout(heap, mm, mem0),
        window::only_within(mm, mem0, mem1, start, n),
    ensures
        writable_throughout(heap, mm, mem1),
{
    assert forall|addr: u64|
        heap.start <= addr < heap.current_end implies (#[trigger] paging::translation(
        mem1,
        mm.root,
        VirtAddr(addr),
    ) matches Some(t) && t.1 == PageTableFlags(0x8000_0000_0000_0003)) by {
        assert(paging::translation(mem0, mm.root, VirtAddr(addr)) is Some);
        paging_laws::lemma_within_translates(mm, mem0, mem1, start, n, mm.root, addr);
    }
}

/// A request keeps the heap writable throughout, whatever comes of it.
pub proof fn lemma_request_writable(
    h0: HeapState,
    mm0: MemoryManager,
    mem0: Seq<PageTable>,
    h1: HeapState,
    mm1: MemoryManager,
    mem1: Seq<PageTable>,
    size: u64,
    r: u64,
)
    requires
        h0.wf(mm0, mem0),
        h0.initialized,
        h1.wf(mm1, mem1),
        writable_throughout(h0, mm0, mem0),
        heap::allocation(h0, mm0, mem0, h1, mm1, mem1, size, r),
    ensures
        writable_throughout(h1, mm1, mem1),
{
    if size > 0 {
        let wanted = heap::rounded(size as int);
        let pages = heap::growth_pages(wanted);
        lemma_growth_pages(wanted);
        match blocks::stop_from(h0.blocks(), wanted, 0) {
            Some(k) => {
                if h0.blocks()[k].marked() {
                    lemma_written_writable(
                        h0,
                        mm0,
                        mem0,
                        mem1,
                        h0.start as int,
                        h0.pages(),
                    );
                }
            },
            None => {
                if heap::growth_refused(h0, mm0, mem0, pages) {
                    lemma_left_writable(h0, mm0, mem0, mm1, mem1, pages);
                } else {
                    lemma_grown_writable(h0, mm0, mem0, h1, mm1, mem1, pages);
                }
            },
        }
    }
}

/// Giving bytes back keeps the heap writable throughout.
pub proof fn lemma_release_writable(
    h0: HeapState,
    mm: MemoryManager,
    mem0: Seq<PageTable>,
    h1: HeapState,
    mem1: Seq<PageTable>,
    ptr: u64,
    size: u64,
    r: DeallocateOutcome,
)
    requires
        h0.wf(mm, mem0),
        h0.initialized,
        writable_throughout(h0, mm, mem0),
        heap::deallocation(h0, mm, mem0, h1, mem1, ptr, size, r),
    ensures
        writable_throughout(h1, mm, mem1),
{
    if r == DeallocateOutcome::Freed {
        lemma_written_writable(h0, mm, mem0, mem1, h0.start as int, h0.pages());
    }
}

/// The bytes that a request takes are the fewest that hold it in units of 16.
pub proof fn lemma_rounded(size: int)
    requires
        0 <= size,
    ensures
        heap::rounded(size) % 16 == 0,
        size <= heap::rounded(size) < size + 16,
{
    let q = (size + 15) / 16;
    assert(16 * q <= size + 15 < 16 * q + 16);
    vstd::arithmetic::div_mod::lemma_mod_multiples_basic(q, 16);
}

/// Block `k` is the first that is free and has `wanted` bytes, and all before it carry
/// the mark.
pub open spec fn first_with_room(bs: Seq<Block>, wanted: int, k: int) -> bool {
    &&& 0 <= k < bs.len()
    &&& bs[k].free && bs[k].size >= wanted && bs[k].magic == 0x5645_4E54
    &&& forall|j: int|
        0 <= j < k ==> (#[trigger] bs[j]).magic == 0x5645_4E54 && !(bs[j].free && bs[j].size
            >= wanted)
}

/// Block `k` is the first that lost its mark, and none before it is free and has
/// `wanted` bytes.
pub open spec fn first_unmarked(bs: Seq<Block>, wanted: int, k: int) -> bool {
    &&& 0 <= k < bs.len()
    &&& bs[k].magic != 0x5645_4E54
    &&& forall|j: int|
        0 <= j < k ==> (#[trigger] bs[j]).magic == 0x5645_4E54 && !(bs[j].free && bs[j].size
            >= wanted)
}

/// What a request for `size` bytes gives. `wanted` is what it takes of a block.
///
/// The first block with room serves it, and the address is that of the block's payload,
/// 32 bytes behind its header. A header without the mark ends the search before that:
/// nothing is given, and nothing changes. Where every header carries the mark and no
/// block has room, the heap grows and the request is served, unless it cannot grow.
pub proof fn lemma_request_answered(
    h0: HeapState,
    mm0: MemoryManager,
    mem0: Seq<PageTable>,
    h1: HeapState,
    mm1: MemoryManager,
    mem1: Seq<PageTable>,
    size: u64,
    r: u64,
    wanted: int,
)
    requires
        h0.wf(mm0, mem0),
        h0.initialized,
        size > 0,
        wanted % 16 == 0,
        size <= wanted < size + 16,
        heap::allocation(h0, mm0, mem0, h1, mm1, mem1, size, r),
    ensures
        forall|k: int| #[trigger]
            first_with_room(h0.blocks(), wanted, k) ==> {
                &&& r == h0.blocks()[k].addr + 32
                &&& h1.blocks() == blocks::taken(h0.blocks(), k, wanted)
                &&& h1.current_end == h0.current_end
                &&& h1.stats.expansion_count == h0.stats.expansion_count
                &&& h1.stats.allocation_count == h0.stats.allocation_count + 1
                &&& mm1 == mm0
            },
        forall|k: int| #[trigger]
            first_unmarked(h0.blocks(), wanted, k) ==> r == 0 && h1 == h0 && mm1 == mm0 && mem1
                == mem0,
        (forall|j: int|
            0 <= j < h0.blocks().len() ==> (#[trigger] h0.blocks()[j]).magic == 0x5645_4E54 && !(
            h0.blocks()[j].free && h0.blocks()[j].size >= wanted)) ==> {
            let pages = heap::growth_pages(wanted);
            if heap::growth_refused(h0, mm0, mem0, pages) {
                r == 0 && h1 == h0
            } else {
                &&& r >= h0.blocks()[h0.blocks().len() - 1].addr + 32
                &&& r != 0
                &&& h1.current_end == h0.current_end + 4096 * pages
                &&& h1.stats.expansion_count == h0.stats.expansion_count + 1
                &&& h1.stats.allocation_count == h0.stats.allocation_count + 1
            }
        },
{
    let bs = h0.blocks();
    lemma_rounded(size as int);
    assert(wanted == heap::rounded(size as int)) by {
        let a = wanted / 16;
        let b = heap::rounded(size as int) / 16;
        assert(wanted == 16 * a);
        assert(heap::rounded(size as int) == 16 * b);
    }
    blocks::lemma_stop(bs, wanted, 0);
    assert forall|k: int| #[trigger] first_with_room(bs, wanted, k) implies blocks::stop_from(
        bs,
        wanted,
        0,
    ) == Some(k) by {
        assert(bs[k].fits(wanted));
        assert(blocks::stop_from(bs, wanted, 0) is Some);
        let j = blocks::stop_from(bs, wanted, 0)->0;
        if j < k {
            assert(bs[j].magic == 0x5645_4E54);
        }
    }
    assert forall|k: int| #[trigger] first_unmarked(bs, wanted, k) implies blocks::stop_from(
        bs,
        wanted,
        0,
    ) == Some(k) by {
        assert(!bs[k].marked());
        assert(blocks::stop_from(bs, wanted, 0) is Some);
        let j = blocks::stop_from(bs, wanted, 0)->0;
        if j < k {
            assert(bs[j].magic == 0x5645_4E54);
        }
    }
    if forall|j: int|
        0 <= j < bs.len() ==> (#[trigger] bs[j]).magic == 0x5645_4E54 && !(bs[j].free && bs[j].size
            >= wanted) {
        if blocks::stop_from(bs, wanted, 0) is Some {
            let j = blocks::stop_from(bs, wanted, 0)->0;
            assert(bs[j].magic == 0x5645_4E54);
        }
        heap::lemma_chain(h0, mm0, mem0);
        let pages = heap::growth_pages(wanted);
        lemma_growth_pages(wanted);
        lemma_extended_last(bs, 4096 * pages);
        let last = bs[bs.len() - 1];
        assert(last.addr >= h0.start && last.size >= 16);
    }
}

/// A request for no bytes gives the address 1, and one before the heap is set up gives
/// nothing. Neither changes anything.
pub proof fn lemma_nothing_asked(
    h0: HeapState,
    mm0: MemoryManager,
    mem0: Seq<PageTable>,
    h1: HeapState,
    mm1: MemoryManager,
    mem1: Seq<PageTable>,
    size: u64,
    r: u64,
)
    requires
        size == 0 || !h0.initialized,
        heap::allocation(h0, mm0, mem0, h1, mm1, mem1, size, r),
    ensures
        size == 0 ==> r == 1,
        size > 0 ==> r == 0,
        h1 == h0,
        mm1 == mm0,
        mem1 == mem0,
{
}

/// What adding bytes behind a heap does to its blocks: a free last block takes them in,
/// and behind one in use they are a free block of their own, with a header of 32 bytes.
/// The blocks before are as they were.
pub proof fn lemma_extended_last(bs: Seq<Block>, bytes: int)
    requires
        bs.len() > 0,
    ensures
        ({
            let last = bs[bs.len() - 1];
            let after = blocks::extended(bs, bytes);
            &&& last.free ==> {
                &&& after.len() == bs.len()
                &&& after[bs.len() - 1].addr == last.addr
                &&& after[bs.len() - 1].size == last.size + bytes
                &&& after[bs.len() - 1].free
                &&& after[bs.len() - 1].magic == last.magic
            }
            &&& !last.free ==> {
                &&& after.len() == bs.len() + 1
                &&& after[bs.len() - 1] == last
                &&& after[bs.len() as int].addr == last.addr + 32 + last.size
                &&& after[bs.len() as int].size == bytes - 32
                &&& after[bs.len() as int].free
                &&& after[bs.len() as int].magic == 0x5645_4E54
            }
            &&& forall|j: int| 0 <= j < bs.len() - 1 ==> #[trigger] after[j] == bs[j]
        }),
{
}

/// What taking `wanted` bytes of free block `k` does to the blocks. If 48 bytes or more
/// are left of it, they are a free block behind it, with a header of 32 bytes; else it
/// is taken whole. The other blocks are as they were.
pub proof fn lemma_taken_split(bs: Seq<Block>, k: int, wanted: int)
    requires
        0 <= k < bs.len(),
    ensures
        ({
            let after = blocks::taken(bs, k, wanted);
            let rest = bs[k].size - wanted;
            &&& after[k].addr == bs[k].addr
            &&& !after[k].free
            &&& after[k].magic == bs[k].magic
            &&& rest >= 48 ==> {
                &&& after.len() == bs.len() + 1
                &&& after[k].size == wanted
                &&& after[k + 1].addr == bs[k].addr + 32 + wanted
                &&& after[k + 1].size == rest - 32
                &&& after[k + 1].free
                &&& after[k + 1].magic == 0x5645_4E54
                &&& forall|j: int| k < j < bs.len() ==> after[j + 1] == #[trigger] bs[j]
            }
            &&& rest < 48 ==> {
                &&& after.len() == bs.len()
                &&& after[k].size == bs[k].size
                &&& forall|j: int| k < j < bs.len() ==> after[j] == #[trigger] bs[j]
            }
            &&& forall|j: int| 0 <= j < k ==> after[j] == #[trigger] bs[j]
        }),
{
}

/// What releasing block `k` does to the blocks: it and its free neighbours are one free
/// block, headers and all. The other blocks are as they were.
pub proof fn lemma_released_joined(bs: Seq<Block>, k: int)
    requires
        0 <= k < bs.len(),
    ensures
        ({
            let after = blocks::released(bs, k);
            let left = k > 0 && bs[k - 1].free;
            let right = k + 1 < bs.len() && bs[k + 1].free;
            let at = if left {
                k - 1
            } else {
                k
            };
            let gone = (if left {
                1int
            } else {
                0
            }) + (if right {
                1int
            } else {
                0
            });
            &&& after.len() == bs.len() - gone
            &&& after[at].addr == bs[at].addr
            &&& after[at].magic == bs[at].magic
            &&& after[at].free
            &&& after[at].size == bs[k].size + (if left {
                bs[k - 1].size + 32
            } else {
                0
            }) + (if right {
                bs[k + 1].size + 32
            } else {
                0
            })
            &&& forall|j: int| 0 <= j < at ==> after[j] == #[trigger] bs[j]
            &&& forall|j: int|
                at + gone < j < bs.len() ==> after[j - gone] == #[trigger] bs[j]
        }),
{
    let one = blocks::marked_free(bs, k, true);
    let two = blocks::joined_next(one, k);
    assert(one[k].free);
    if k + 1 < bs.len() {
        assert(one[k + 1] == bs[k + 1]);
    }
    if k > 0 {
        assert(two[k - 1] == bs[k - 1]);
    }
}

/// What comes of giving bytes back, by the two words in front of them: the mark in the
/// lower half of the first, and the byte above it, which is not 0 if they are free.
pub proof fn lemma_release_answered(
    h0: HeapState,
    mm: MemoryManager,
    mem0: Seq<PageTable>,
    h1: HeapState,
    mem1: Seq<PageTable>,
    ptr: u64,
    size: u64,
    r: DeallocateOutcome,
)
    requires
        heap::deallocation(h0, mm, mem0, h1, mem1, ptr, size, r),
    ensures
        ({
            let first = h0.words(mm, mem0)[(ptr - 32 - h0.start) / 8];
            &&& ptr == 0 || size == 0 || !h0.initialized ==> r == DeallocateOutcome::Ignored
            &&& ptr != 0 && size != 0 && h0.initialized ==> {
                &&& first % 0x1_0000_0000 != 0x5645_4E54 ==> r == DeallocateOutcome::InvalidMagic
                &&& first % 0x1_0000_0000 == 0x5645_4E54 && first / 0x1_0000_0000 % 256 != 0 ==> r
                    == DeallocateOutcome::DoubleFree
                &&& first % 0x1_0000_0000 == 0x5645_4E54 && first / 0x1_0000_0000 % 256 == 0 ==> r
                    == DeallocateOutcome::Freed
            }
            &&& r != DeallocateOutcome::Freed ==> h1 == h0 && mem1 == mem0
        }),
{
}

/// What giving back the bytes of a block does to the totals: its bytes are no longer in
/// use, one more release is counted, and the heap is no larger or smaller. Each of its
/// words holds the poison pattern.
pub proof fn lemma_release_counted(
    h0: HeapState,
    mm: MemoryManager,
    mem0: Seq<PageTable>,
    h1: HeapState,
    mem1: Seq<PageTable>,
    ptr: u64,
    size: u64,
    k: int,
)
    requires
        h0.wf(mm, mem0),
        h0.initialized,
        h1.wf(mm, mem1),
        0 <= k < h0.blocks().len(),
        h0.blocks()[k].addr == ptr - 32,
        !h0.blocks()[k].free,
        heap::deallocation(h0, mm, mem0, h1, mem1, ptr, size, DeallocateOutcome::Freed),
    ensures
        h1.blocks() == blocks::released(h0.blocks(), k),
        h1.stats.allocated_bytes == h0.stats.allocated_bytes - h0.blocks()[k].size,
        h1.stats.free_count == h0.stats.free_count + 1,
        h1.stats.allocation_count == h0.stats.allocation_count,
        h1.stats.expansion_count == h0.stats.expansion_count,
        h1.stats.total_bytes == h0.stats.total_bytes,
        h1.current_end == h0.current_end,
        forall|x: int|
            (ptr - h0.start) / 8 <= x < (ptr + h0.blocks()[k].size - h0.start) / 8
                ==> #[trigger] h1.words(mm, mem1)[x] == 0xDEDE_DEDE_DEDE_DEDE,
{
    let bs = h0.blocks();
    let j = blocks::block_at(bs, ptr - 32);
    heap::lemma_chain(h0, mm, mem0);
    if j < k {
        assert(bs[j].end() <= bs[k].addr);
    } else if k < j {
        assert(bs[k].end() <= bs[j].addr);
    }
    assert(j == k);
    blocks::lemma_released(h0.start as int, h0.current_end as int, bs, k);
    heap::lemma_block_place(h0, mm, mem0, k);
}

/// What serving a request does to the totals where the heap does not grow: the bytes of
/// the block that serves it are in use, and one more request is counted.
pub proof fn lemma_request_counted(
    h0: HeapState,
    mm0: MemoryManager,
    mem0: Seq<PageTable>,
    h1: HeapState,
    mm1: MemoryManager,
    mem1: Seq<PageTable>,
    k: int,
    wanted: int,
)
    requires
        h0.wf(mm0, mem0),
        h0.initialized,
        h1.wf(mm1, mem1),
        h1.initialized,
        h1.current_end == h0.current_end,
        0 <= k < h0.blocks().len(),
        h0.blocks()[k].free,
        h0.blocks()[k].size >= wanted,
        wanted % 16 == 0,
        wanted >= 16,
        h1.blocks() == blocks::taken(h0.blocks(), k, wanted),
    ensures
        h1.stats.allocated_bytes == h0.stats.allocated_bytes + h1.blocks()[k].size,
        h1.stats.total_bytes == h0.stats.total_bytes,
        h1.stats.free_bytes == h0.stats.free_bytes - h1.blocks()[k].size - 32 * (h1.blocks().len()
            - h0.blocks().len()),
{
    let bs = h0.blocks();
    let s = h0.start as int;
    let e = h0.current_end as int;
    heap::lemma_chain(h0, mm0, mem0);
    let cut = if bs[k].size - wanted >= 48 {
        blocks::split(bs, k, wanted)
    } else {
        bs
    };
    if bs[k].size - wanted >= 48 {
        blocks::lemma_split(s, e, bs, k, wanted);
    }
    blocks::lemma_marked_free(s, e, cut, k, false);
}

/// When the check of a heap finds nothing wrong: the heap is set up, every header
/// carries the mark and is at a multiple of 16, the one after it leads back to it, and
/// the totals are what the headers add up to.
pub proof fn lemma_nothing_wrong_when(heap: HeapState, ws: Seq<u64>)
    ensures
        heap_check::heap_fault(heap, ws) is None <==> {
            let bs = heap.blocks();
            let start = heap.start as int;
            &&& heap.initialized
            &&& forall|k: int|
                0 <= k < bs.len() ==> ws[((#[trigger] bs[k]).addr - start) / 8] % 0x1_0000_0000
                    == 0x5645_4E54
            &&& forall|k: int|
                0 <= k < bs.len() - 1 ==> ws[(bs[k + 1].addr - start) / 8 + 2] == (
                #[trigger] bs[k]).addr
            &&& forall|k: int| 0 <= k < bs.len() ==> (#[trigger] bs[k]).addr % 16 == 0
            &&& heap_check::weight(ws, start, bs, bs.len()) == heap.stats.total_bytes
            &&& heap_check::payload_read(ws, start, bs, bs.len(), true) == heap.stats.free_bytes
            &&& heap_check::payload_read(ws, start, bs, bs.len(), false)
                == heap.stats.allocated_bytes
        },
{
    let bs = heap.blocks();
    let start = heap.start as int;
    assert forall|k: int| 0 <= k < bs.len() implies (heap_check::node_fault(ws, start, bs, k) is None
        <==> {
        &&& ws[((#[trigger] bs[k]).addr - start) / 8] % 0x1_0000_0000 == 0x5645_4E54
        &&& k < bs.len() - 1 ==> ws[(bs[k + 1].addr - start) / 8 + 2] == bs[k].addr
        &&& bs[k].addr % 16 == 0
    }) by {
        assert((bs[k].addr + 32) % 16 == bs[k].addr % 16);
    }
    if heap_check::list_fault(ws, start, bs, 0) is None {
        assert forall|k: int| 0 <= k < bs.len() implies heap_check::node_fault(
            ws,
            start,
            bs,
            k,
        ) is None by {
            heap_check::lemma_fault_found(ws, start, bs, 0, k);
        }
    } else {
        heap_check::lemma_first_fault(ws, start, bs, 0);
        let k = choose|k: int|
            0 <= k < bs.len() && #[trigger] heap_check::node_fault(ws, start, bs, k) is Some;
        assert(bs[k] == bs[k]);
    }
}

/// What is said of the first header that something is wrong with, and before that of a
/// heap that is not set up.
pub proof fn lemma_wrong_told(heap: HeapState, ws: Seq<u64>, k: int)
    requires
        0 <= k < heap.blocks().len(),
        forall|j: int|
            0 <= j < k ==> #[trigger] heap_check::node_fault(
                ws,
                heap.start as int,
                heap.blocks(),
                j,
            ) is None,
    ensures
        !heap.initialized ==> heap_check::heap_fault(heap, ws) == Some("Heap is not initialized"),
        ({
            let bs = heap.blocks();
            let at = (bs[k].addr - heap.start) / 8;
            let marked = ws[at] % 0x1_0000_0000 == 0x5645_4E54;
            let linked = k + 1 < bs.len() ==> ws[(bs[k + 1].addr - heap.start) / 8 + 2]
                == bs[k].addr;
            &&& heap.initialized && !marked ==> heap_check::heap_fault(heap, ws) == Some(
                "Heap invariant failure: Block header magic corruption",
            )
            &&& heap.initialized && marked && !linked ==> heap_check::heap_fault(heap, ws) == Some(
                "Heap invariant failure: Doubly-linked list pointer mismatch",
            )
            &&& heap.initialized && marked && linked && bs[k].addr % 16 != 0
                ==> heap_check::heap_fault(heap, ws) == Some(
                "Heap invariant failure: Payload address unaligned to 16 bytes",
            )
        }),
{
    let bs = heap.blocks();
    let start = heap.start as int;
    assert((bs[k].addr + 32) % 16 == bs[k].addr % 16);
    if heap_check::node_fault(ws, start, bs, k) is Some {
        lemma_fault_reached(ws, start, bs, 0, k);
    }
}

/// The first header that something is wrong with decides what is said.
proof fn lemma_fault_reached(ws: Seq<u64>, start: int, bs: Seq<Block>, i: int, k: int)
    requires
        0 <= i <= k < bs.len(),
        heap_check::node_fault(ws, start, bs, k) is Some,
        forall|j: int|
            0 <= j < k ==> #[trigger] heap_check::node_fault(ws, start, bs, j) is None,
    ensures
        heap_check::list_fault(ws, start, bs, i) == heap_check::node_fault(ws, start, bs, k),
    decreases k - i,
{
    if i < k {
        assert(heap_check::node_fault(ws, start, bs, i) is None);
        lemma_fault_reached(ws, start, bs, i + 1, k);
    }
}

/// What one header more adds to what the headers add up to: 32 bytes for itself and its
/// size, and the size to the free bytes or to those in use, by the byte above its mark.
pub proof fn lemma_header_added(ws: Seq<u64>, start: int, bs: Seq<Block>, n: nat)
    ensures
        heap_check::weight(ws, start, bs, 0) == 0,
        heap_check::payload_read(ws, start, bs, 0, true) == 0,
        heap_check::payload_read(ws, start, bs, 0, false) == 0,
        ({
            let at = (bs[n as int].addr - start) / 8;
            let free = ws[at] / 0x1_0000_0000 % 256 != 0;
            &&& heap_check::weight(ws, start, bs, n + 1) == heap_check::weight(ws, start, bs, n) + 32
                + ws[at + 1]
            &&& heap_check::payload_read(ws, start, bs, n + 1, free) == heap_check::payload_read(
                ws,
                start,
                bs,
                n,
                free,
            ) + ws[at + 1]
            &&& heap_check::payload_read(ws, start, bs, n + 1, !free) == heap_check::payload_read(
                ws,
                start,
                bs,
                n,
                !free,
            )
        }),
{
    assert((n + 1) - 1 == n);
}

} // verus!
