//! Runs of virtual pages that are backed by memory, read and written as words.

use vstd::prelude::*;
use crate::paging;
use crate::paging::{read_word, write_word, MemoryManager};
use crate::regions;
use crate::vmm::{PageTable, PageTableFlags, VirtAddr};
use crate::walk;

verus! {

/// The end of the lower half of the virtual addresses.
pub const LOWER_HALF_END: u64 = 0x0000_8000_0000_0000;

/// The frame behind page `i` of the run from `start` on, under the kernel's
/// root.
pub open spec fn frame_at(mm: MemoryManager, mem: Seq<PageTable>, start: int, i: int) -> int {
    paging::frame_of(mem, mm.root.0 as int / 4096, start / 4096 + i)
}

/// Page `i` of the run from `start` on is mapped under the kernel's root to a
/// frame that is in use and is no table.
pub open spec fn holds(mm: MemoryManager, mem: Seq<PageTable>, start: int, i: int) -> bool {
    let f = frame_at(mm, mem, start, i);
    &&& walk::mapping(mem, mm.root.0 as int / 4096, start / 4096 + i) is Some
    &&& 0 <= f < mm.pmm@.total()
    &&& mm.pmm@.used[f]
    &&& !mm.is_table(f)
}

/// The `n` pages from `start` on, in the lower half, are mapped under the
/// kernel's root, each to a frame of its own that is in use and is no table.
#[verifier::opaque]
pub open spec fn backed(mm: MemoryManager, mem: Seq<PageTable>, start: int, n: int) -> bool {
    &&& 0 <= n
    &&& 0 <= start
    &&& start % 4096 == 0
    &&& start + 4096 * n <= LOWER_HALF_END
    &&& forall|i: int|
        #![trigger frame_at(mm, mem, start, i)]
        #![trigger holds(mm, mem, start, i)]
        0 <= i < n ==> holds(mm, mem, start, i)
    &&& forall|i: int, j: int|
        0 <= i < j < n ==> #[trigger] frame_at(mm, mem, start, i) != #[trigger] frame_at(
            mm,
            mem,
            start,
            j,
        )
}

/// The words of the `n` pages from `start` on.
pub open spec fn words(mm: MemoryManager, mem: Seq<PageTable>, start: int, n: int) -> Seq<u64> {
    Seq::new(
        (512 * n) as nat,
        |k: int| walk::word(mem, frame_at(mm, mem, start, k / 512), k % 512).0,
    )
}

/// The page and the word of an address in the lower half.
proof fn lemma_word_place(start: int, addr: u64)
    requires
        0 <= start <= addr,
        start % 4096 == 0,
        addr < LOWER_HALF_END,
        addr % 8 == 0,
    ensures
        walk::page_of(addr) == start / 4096 + (addr - start) / 8 / 512,
        (addr as int % 4096) / 8 == ((addr - start) / 8) % 512,
        0 <= (addr - start) / 8 / 512,
        crate::vmm::canonical(addr),
        (addr - start) / 8 * 8 == addr - start,
{
    let q = start / 4096;
    let d = addr - start;
    assert(start == 4096 * q);
    assert(addr as int % 0x1_0000_0000_0000 == addr as int);
    assert(addr as int / 4096 == q + d / 4096);
    assert(d / 8 / 512 == d / 4096);
    assert((addr as int % 4096) == d % 4096);
    assert((d % 4096) / 8 == (d / 8) % 512);
}

/// Distinct frames in use are no more than there are frames.
pub proof fn lemma_backed_bound(mm: MemoryManager, mem: Seq<PageTable>, start: int, n: int)
    requires
        backed(mm, mem, start, n),
    ensures
        n <= mm.pmm@.total(),
{
    reveal(backed);
    let s = Seq::new(n as nat, |i: int| frame_at(mm, mem, start, i));
    assert(s.no_duplicates());
    s.unique_seq_to_set();
    let all = vstd::set_lib::set_int_range(0, mm.pmm@.total());
    vstd::set_lib::lemma_int_range(0, mm.pmm@.total());
    assert(s.to_set().subset_of(all)) by {
        assert forall|f: int| s.to_set().contains(f) implies all.contains(f) by {
            let i = choose|i: int| 0 <= i < s.len() && s[i] == f;
            assert(f == frame_at(mm, mem, start, i));
        }
    }
    vstd::set_lib::lemma_len_subset(s.to_set(), all);
}

/// Reads the word at `addr`, one of the `n` pages from `start` on.
pub(crate) fn load(
    frames: &[PageTable],
    mm: &MemoryManager,
    start: u64,
    Ghost(n): Ghost<int>,
    addr: u64,
) -> (r: u64)
    requires
        mm.ready(frames@),
        backed(*mm, frames@, start as int, n),
        start <= addr < start + 4096 * n,
        addr % 8 == 0,
    ensures
        r == words(*mm, frames@, start as int, n)[(addr - start) / 8],
{
    proof {
        reveal(backed);
        reveal(only_within);
    }
    proof {
        lemma_word_place(start as int, addr);
        let i = (addr - start) / 8 / 512;
        assert(0 <= i < n);
        assert(frame_at(*mm, frames@, start as int, i) < mm.pmm@.total());
    }
    read_word(frames, mm, mm.root, VirtAddr::new(addr))
}

/// Memory changed in the frames of the `n` pages from `start` on at most.
#[verifier::opaque]
pub open spec fn only_within(
    mm: MemoryManager,
    mem0: Seq<PageTable>,
    mem1: Seq<PageTable>,
    start: int,
    n: int,
) -> bool {
    &&& mem1.len() == mem0.len()
    &&& walk::same_mappings(mem0, mem1, mm.tables())
    &&& forall|f: int|
        0 <= f < mem0.len() && (forall|i: int|
            0 <= i < n ==> f != #[trigger] frame_at(mm, mem0, start, i))
            ==> #[trigger] mem1[f] == mem0[f]
}

/// Writing to pages that are backed leaves the tables on every way.
pub proof fn lemma_tables_kept(
    mm: MemoryManager,
    mem0: Seq<PageTable>,
    mem1: Seq<PageTable>,
    start: int,
    n: int,
)
    requires
        mm.ready(mem0),
        backed(mm, mem0, start, n),
        only_within(mm, mem0, mem1, start, n),
    ensures
        forall|r: int, p: int, l: nat|
            walk::is_root(mm.tables(), r) && 0 <= p < walk::page_limit() && 1 <= l <= 4
                ==> #[trigger] walk::table_at(mem1, r, p, l) == walk::table_at(mem0, r, p, l),
        walk::same_mappings(mem0, mem1, mm.tables()),
{
    reveal(only_within);
    reveal(backed);
    assert forall|f: int, i: int|
        mm.tables().contains_key(f) && 0 <= i < 512 implies #[trigger] walk::word(mem1, f, i)
        == walk::word(mem0, f, i) by {
        assert(mm.is_table(f));
        assert forall|j: int| 0 <= j < n implies f != #[trigger] frame_at(mm, mem0, start, j) by {
            assert(holds(mm, mem0, start, j));
        }
        assert(mem1[f] == mem0[f]);
    }
    walk::lemma_data_change(mem0, mem1, mm.tables());
}

/// Under the same mappings pages have the same frames.
pub proof fn lemma_frames_kept(
    mm: MemoryManager,
    mem0: Seq<PageTable>,
    mem1: Seq<PageTable>,
    start: int,
    n: int,
)
    requires
        mm.ready(mem0),
        0 <= start,
        start + 4096 * n <= LOWER_HALF_END,
        walk::same_mappings(mem0, mem1, mm.tables()),
    ensures
        forall|i: int|
            0 <= i < n ==> #[trigger] frame_at(mm, mem1, start, i) == frame_at(mm, mem0, start, i),
{
    let r = mm.root.0 as int / 4096;
    assert(mm.is_table(r));
    assert forall|i: int| 0 <= i < n implies #[trigger] frame_at(mm, mem1, start, i) == frame_at(
        mm,
        mem0,
        start,
        i,
    ) by {
        assert(0 <= start / 4096 + i < walk::page_limit());
        assert(walk::mapping(mem1, r, start / 4096 + i) == walk::mapping(
            mem0,
            r,
            start / 4096 + i,
        ));
    }
}

/// Two memories with the same mappings have the same frames behind a run.
pub proof fn lemma_same_frames(
    mm: MemoryManager,
    mem0: Seq<PageTable>,
    mem1: Seq<PageTable>,
    start: int,
    n: int,
)
    requires
        mm.ready(mem0),
        backed(mm, mem0, start, n),
        walk::same_mappings(mem0, mem1, mm.tables()),
    ensures
        backed(mm, mem1, start, n),
        forall|i: int|
            0 <= i < n ==> #[trigger] frame_at(mm, mem1, start, i) == frame_at(mm, mem0, start, i),
{
    reveal(backed);
    let r = mm.root.0 as int / 4096;
    assert forall|i: int| 0 <= i < n implies #[trigger] frame_at(mm, mem1, start, i) == frame_at(
        mm,
        mem0,
        start,
        i,
    ) && walk::mapping(mem1, r, start / 4096 + i) == walk::mapping(
        mem0,
        r,
        start / 4096 + i,
    ) by {
        assert(0 <= start / 4096 + i < walk::page_limit());
        assert(walk::mapping(mem1, r, start / 4096 + i) == walk::mapping(
            mem0,
            r,
            start / 4096 + i,
        ));
    }
    assert forall|i: int| 0 <= i < n implies #[trigger] holds(mm, mem1, start, i) by {
        assert(holds(mm, mem0, start, i));
        assert(frame_at(mm, mem1, start, i) == frame_at(mm, mem0, start, i));
    }
    assert forall|i: int, j: int|
        0 <= i < j < n implies #[trigger] frame_at(mm, mem1, start, i) != #[trigger] frame_at(
        mm,
        mem1,
        start,
        j,
    ) by {
        assert(frame_at(mm, mem0, start, i) != frame_at(mm, mem0, start, j));
    }
}

/// No change is a change within any run.
pub proof fn lemma_only_within_reflexive(
    mm: MemoryManager,
    mem: Seq<PageTable>,
    start: int,
    n: int,
)
    ensures
        only_within(mm, mem, mem, start, n),
{
    reveal(only_within);
}

/// Changes within a run, one after the other.
pub proof fn lemma_only_within_transitive(
    mm: MemoryManager,
    mem0: Seq<PageTable>,
    mem1: Seq<PageTable>,
    mem2: Seq<PageTable>,
    start: int,
    n: int,
)
    requires
        mm.ready(mem0),
        backed(mm, mem0, start, n),
        only_within(mm, mem0, mem1, start, n),
        only_within(mm, mem1, mem2, start, n),
    ensures
        only_within(mm, mem0, mem2, start, n),
{
    reveal(backed);
    reveal(only_within);
    lemma_same_frames(mm, mem0, mem1, start, n);
    assert forall|r: int, p: int|
        walk::is_root(mm.tables(), r) && 0 <= p < walk::page_limit() implies #[trigger] walk::mapping(
        mem2,
        r,
        p,
    ) == walk::mapping(mem0, r, p) by {
        assert(walk::mapping(mem1, r, p) == walk::mapping(mem0, r, p));
    }
    assert forall|f: int|
        0 <= f < mem0.len() && (forall|i: int|
            0 <= i < n ==> f != #[trigger] frame_at(mm, mem0, start, i)) implies #[trigger] mem2[f]
        == mem0[f] by {
        assert forall|i: int| 0 <= i < n implies f != #[trigger] frame_at(mm, mem1, start, i) by {
            assert(f != frame_at(mm, mem0, start, i));
        }
        assert(mem1[f] == mem0[f]);
    }
}

/// Writes the word at `addr`, one of the `n` pages from `start` on.
pub(crate) fn store(
    frames: &mut [PageTable],
    mm: &MemoryManager,
    start: u64,
    Ghost(n): Ghost<int>,
    addr: u64,
    value: u64,
)
    requires
        mm.ready(old(frames)@),
        backed(*mm, old(frames)@, start as int, n),
        start <= addr < start + 4096 * n,
        addr % 8 == 0,
    ensures
        mm.ready(final(frames)@),
        backed(*mm, final(frames)@, start as int, n),
        only_within(*mm, old(frames)@, final(frames)@, start as int, n),
        words(*mm, final(frames)@, start as int, n) == words(
            *mm,
            old(frames)@,
            start as int,
            n,
        ).update((addr - start) / 8, value),
{
    proof {
        reveal(backed);
        reveal(only_within);
    }
    let ghost mem0 = frames@;
    let ghost s = start as int;
    let ghost k = (addr - start) / 8;
    proof {
        lemma_word_place(s, addr);
        assert(0 <= k / 512 < n);
        assert(frame_at(*mm, mem0, s, k / 512) < mm.pmm@.total());
    }
    write_word(frames, mm, mm.root, VirtAddr::new(addr), value);
    proof {
        let mem1 = frames@;
        lemma_same_frames(*mm, mem0, mem1, s, n);
        let before = words(*mm, mem0, s, n);
        let after = words(*mm, mem1, s, n);
        assert forall|j: int| 0 <= j < 512 * n implies #[trigger] after[j] == before.update(
            k,
            value,
        )[j] by {
            let f = frame_at(*mm, mem0, s, j / 512);
            assert(frame_at(*mm, mem1, s, j / 512) == f);
            assert(0 <= j / 512 < n && 0 <= j % 512 < 512);
            assert(f < mm.pmm@.total());
            assert(walk::word(mem1, f, j % 512).0 == if f == frame_at(*mm, mem0, s, k / 512) && j
                % 512 == k % 512 {
                value
            } else {
                walk::word(mem0, f, j % 512).0
            });
            if j / 512 < k / 512 {
                assert(frame_at(*mm, mem0, s, j / 512) != frame_at(*mm, mem0, s, k / 512));
            } else if k / 512 < j / 512 {
                assert(frame_at(*mm, mem0, s, k / 512) != frame_at(*mm, mem0, s, j / 512));
            } else {
                assert(j % 512 == k % 512 <==> j == k);
            }
        }
        assert(after =~= before.update(k, value));
        assert forall|f: int|
            0 <= f < mem0.len() && (forall|i: int|
                0 <= i < n ==> f != #[trigger] frame_at(
                    *mm,
                    mem0,
                    s,
                    i,
                )) implies #[trigger] mem1[f] == mem0[f] by {
            assert(f != frame_at(*mm, mem0, s, k / 512));
            assert forall|i: int| 0 <= i < 512 implies mem1[f].entries@[i]
                == mem0[f].entries@[i] by {
                assert(walk::word(mem1, f, i) == walk::word(mem0, f, i));
            }
            assert(mem1[f].entries@ =~= mem0[f].entries@);
            assert(mem1[f].entries == mem0[f].entries);
        }
    }
}

/// What is handed out and mapped elsewhere leaves a run as it was.
pub proof fn lemma_backed_kept(
    mm0: MemoryManager,
    mem0: Seq<PageTable>,
    mm1: MemoryManager,
    mem1: Seq<PageTable>,
    start: int,
    n: int,
)
    requires
        backed(mm0, mem0, start, n),
        mm1.root == mm0.root,
        mm1.pmm@.total() == mm0.pmm@.total(),
        forall|i: int|
            0 <= i < n ==> #[trigger] walk::mapping(
                mem1,
                mm0.root.0 as int / 4096,
                start / 4096 + i,
            ) == walk::mapping(mem0, mm0.root.0 as int / 4096, start / 4096 + i),
        forall|i: int|
            0 <= i < n ==> {
                let f = #[trigger] frame_at(mm0, mem0, start, i);
                mm1.pmm@.used[f] && !mm1.is_table(f) && mem1[f] == mem0[f]
            },
    ensures
        backed(mm1, mem1, start, n),
        words(mm1, mem1, start, n) == words(mm0, mem0, start, n),
{
    reveal(backed);
    let r = mm0.root.0 as int / 4096;
    assert forall|i: int| 0 <= i < n implies #[trigger] holds(mm1, mem1, start, i) && frame_at(
        mm1,
        mem1,
        start,
        i,
    ) == frame_at(mm0, mem0, start, i) by {
        assert(holds(mm0, mem0, start, i));
        assert(walk::mapping(mem1, r, start / 4096 + i) == walk::mapping(
            mem0,
            r,
            start / 4096 + i,
        ));
        assert(frame_at(mm1, mem1, start, i) == frame_at(mm0, mem0, start, i));
    }
    assert forall|i: int, j: int|
        0 <= i < j < n implies #[trigger] frame_at(mm1, mem1, start, i) != #[trigger] frame_at(
        mm1,
        mem1,
        start,
        j,
    ) by {
        assert(holds(mm1, mem1, start, i) && holds(mm1, mem1, start, j));
        assert(frame_at(mm0, mem0, start, i) != frame_at(mm0, mem0, start, j));
    }
    assert forall|k: int| 0 <= k < 512 * n implies #[trigger] words(mm1, mem1, start, n)[k]
        == words(mm0, mem0, start, n)[k] by {
        assert(0 <= k / 512 < n);
        assert(holds(mm1, mem1, start, k / 512));
        assert(mem1[frame_at(mm0, mem0, start, k / 512)] == mem0[frame_at(
            mm0,
            mem0,
            start,
            k / 512,
        )]);
    }
    assert(words(mm1, mem1, start, n) =~= words(mm0, mem0, start, n));
}

/// Fresh pages are backed.
pub proof fn lemma_fresh_backed(
    mm0: MemoryManager,
    mem0: Seq<PageTable>,
    mm1: MemoryManager,
    mem1: Seq<PageTable>,
    start: u64,
    n: int,
    flags: PageTableFlags,
)
    requires
        mm0.ready(mem0),
        regions::fresh_mapped(mm0, mem0, mm1, mem1, start, n, flags),
        0 <= n <= mm0.pmm@.free_count(),
        start % 4096 == 0,
        start + 4096 * n <= LOWER_HALF_END,
        flags.0 & 1 != 0,
        flags.0 & crate::vmm::ENTRY_ADDRESS_MASK == 0,
    ensures
        backed(mm1, mem1, start as int, n),
        forall|i: int|
            0 <= i < n ==> #[trigger] frame_at(mm1, mem1, start as int, i)
                == mm0.pmm@.nth_free(i),
{
    reveal(backed);
    let r = mm0.root.0 as int / 4096;
    let first = walk::page_of(start);
    let s = start as int;
    let pool = mm0.pmm@;
    let entries = regions::entries_for(regions::fresh_pages(pool, n), flags);
    assert(mm0.is_table(r));
    assert(n > 0 ==> first == s / 4096);
    assert forall|i: int| 0 <= i < n implies #[trigger] holds(mm1, mem1, s, i) && frame_at(
        mm1,
        mem1,
        s,
        i,
    ) == pool.nth_free(i) by {
        crate::pmm::lemma_nth_free(pool, i);
        let f = pool.nth_free(i);
        let p = first + i;
        assert(0 <= p < walk::page_limit());
        assert(walk::mapping(mem1, r, p) == Some(entries[i]));
        assert(entries[i] == crate::vmm::entry_for((4096 * f) as u64, flags));
        crate::vmm::lemma_entry_round_trip((4096 * f) as u64, flags);
        assert(mm1.pmm@.used[f]);
        if mm1.is_table(f) {
            if mm0.is_table(f) {
                assert(pool.used[f]);
            }
        }
    }
    assert forall|i: int, j: int|
        0 <= i < j < n implies #[trigger] frame_at(mm1, mem1, s, i) != #[trigger] frame_at(
        mm1,
        mem1,
        s,
        j,
    ) by {
        assert(holds(mm1, mem1, s, i) && holds(mm1, mem1, s, j));
        crate::pmm::lemma_nth_free_distinct(pool, i, j);
    }
    assert forall|i: int| 0 <= i < n implies #[trigger] frame_at(mm1, mem1, s, i)
        == pool.nth_free(i) by {
        assert(holds(mm1, mem1, s, i));
    }
}

/// Mapping fresh pages leaves a run that was backed as it was.
pub proof fn lemma_fresh_beside(
    mm0: MemoryManager,
    mem0: Seq<PageTable>,
    mm1: MemoryManager,
    mem1: Seq<PageTable>,
    start: u64,
    n: int,
    flags: PageTableFlags,
    s: int,
    k: int,
)
    requires
        mm0.ready(mem0),
        regions::fresh_mapped(mm0, mem0, mm1, mem1, start, n, flags),
        backed(mm0, mem0, s, k),
    ensures
        backed(mm1, mem1, s, k),
        words(mm1, mem1, s, k) == words(mm0, mem0, s, k),
        forall|i: int|
            0 <= i < k ==> #[trigger] frame_at(mm1, mem1, s, i) == frame_at(mm0, mem0, s, i),
{
    reveal(backed);
    let r = mm0.root.0 as int / 4096;
    let first = walk::page_of(start);
    assert(mm0.is_table(r));
    assert forall|i: int| 0 <= i < k implies #[trigger] walk::mapping(mem1, r, s / 4096 + i)
        == walk::mapping(mem0, r, s / 4096 + i) by {
        let p = s / 4096 + i;
        assert(holds(mm0, mem0, s, i));
        assert(0 <= p < walk::page_limit());
        if first <= p < first + n {
            assert(walk::table_at(mem1, r, p, 1) == walk::table_at(mem1, r, p, 1));
        }
    }
    assert forall|i: int| 0 <= i < k implies {
        let f = #[trigger] frame_at(mm0, mem0, s, i);
        mm1.pmm@.used[f] && !mm1.is_table(f) && mem1[f] == mem0[f]
    } by {
        assert(holds(mm0, mem0, s, i));
        let f = frame_at(mm0, mem0, s, i);
        assert(!mm0.is_table(f));
        assert(mm1.pmm@.used[f]);
        assert(!mm1.is_table(f));
    }
    lemma_backed_kept(mm0, mem0, mm1, mem1, s, k);
    assert forall|i: int| 0 <= i < k implies #[trigger] frame_at(mm1, mem1, s, i) == frame_at(
        mm0,
        mem0,
        s,
        i,
    ) by {
        assert(walk::mapping(mem1, r, s / 4096 + i) == walk::mapping(mem0, r, s / 4096 + i));
    }
}

/// Two backed runs, one behind the other, with frames of their own make one.
pub proof fn lemma_join(mm: MemoryManager, mem: Seq<PageTable>, start: int, n: int, k: int)
    requires
        backed(mm, mem, start, n),
        backed(mm, mem, start + 4096 * n, k),
        forall|i: int, j: int|
            0 <= i < n && 0 <= j < k ==> #[trigger] frame_at(mm, mem, start, i)
                != #[trigger] frame_at(mm, mem, start + 4096 * n, j),
    ensures
        backed(mm, mem, start, n + k),
        words(mm, mem, start, n + k) == words(mm, mem, start, n) + words(
            mm,
            mem,
            start + 4096 * n,
            k,
        ),
{
    reveal(backed);
    let s2 = start + 4096 * n;
    assert(s2 / 4096 == start / 4096 + n);
    assert forall|i: int| n <= i < n + k implies #[trigger] frame_at(mm, mem, start, i)
        == frame_at(mm, mem, s2, i - n) by {
        assert(s2 / 4096 + (i - n) == start / 4096 + i);
    }
    assert forall|i: int| 0 <= i < n + k implies #[trigger] holds(mm, mem, start, i) by {
        if i >= n {
            assert(holds(mm, mem, s2, i - n));
            assert(s2 / 4096 + (i - n) == start / 4096 + i);
            assert(frame_at(mm, mem, start, i) == frame_at(mm, mem, s2, i - n));
        }
    }
    assert forall|i: int, j: int|
        0 <= i < j < n + k implies #[trigger] frame_at(mm, mem, start, i) != #[trigger] frame_at(
        mm,
        mem,
        start,
        j,
    ) by {
        if j >= n {
            assert(frame_at(mm, mem, start, j) == frame_at(mm, mem, s2, j - n));
            if i >= n {
                assert(frame_at(mm, mem, start, i) == frame_at(mm, mem, s2, i - n));
                assert(frame_at(mm, mem, s2, i - n) != frame_at(mm, mem, s2, j - n));
            }
        }
    }
    let whole = words(mm, mem, start, n + k);
    let parts = words(mm, mem, start, n) + words(mm, mem, s2, k);
    assert forall|x: int| 0 <= x < 512 * (n + k) implies #[trigger] whole[x] == parts[x] by {
        if x >= 512 * n {
            let y = x - 512 * n;
            assert(x / 512 == n + y / 512 && x % 512 == y % 512);
            assert(frame_at(mm, mem, start, x / 512) == frame_at(mm, mem, s2, y / 512));
        }
    }
    assert(whole =~= parts);
}

} // verus!
