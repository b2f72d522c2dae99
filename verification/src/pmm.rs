//! The physical page allocator: one bit for each managed page, set while the
//! page is in use.

use vstd::prelude::*;
use crate::memory::{MemoryRegion, PhysicalMemoryMap, MAX_REGIONS, PAGE_SIZE};

verus! {

/// 4 GiB of pages.
pub const MAX_MANAGED_PAGES: usize = 1_048_576;

pub const BITMAP_WORDS: usize = 16_384;

/// A physical page, by its address.
#[derive(Copy, Clone, Debug, PartialEq, Eq, PartialOrd, Ord, Structural)]
pub struct PhysPage(pub u64);

impl PhysPage {
    /// The page that stands for "no page".
    pub fn null() -> (r: Self)
        ensures
            r == PhysPage(0),
    {
        Self(0)
    }

    pub fn from_addr(addr: u64) -> (r: Option<Self>)
        ensures
            r == if addr % 4096 == 0 {
                Some(PhysPage(addr))
            } else {
                None
            },
    {
        if addr % PAGE_SIZE == 0 {
            Some(Self(addr))
        } else {
            None
        }
    }

    pub fn addr(self) -> (r: u64)
        ensures
            r == self.0,
    {
        self.0
    }

    /// The index of the page, as far as a machine word holds it.
    pub fn page_number(self) -> (r: usize)
        ensures
            r == (self.0 / 4096) as usize,
    {
        (self.0 / PAGE_SIZE) as usize
    }

    pub fn from_page_number(num: usize) -> (r: Self)
        requires
            num * 4096 <= u64::MAX,
        ensures
            r.0 == num * 4096,
    {
        Self((num as u64) * PAGE_SIZE)
    }
}

#[derive(Copy, Clone, Debug, PartialEq, Eq, Structural)]
pub enum PageFreeError {
    UnalignedAddress,
    OutOfBounds,
    DoubleFree,
    ReservedMemory,
}

/// The allocator's running totals.
#[derive(Copy, Clone, Debug, PartialEq, Eq, Structural)]
pub struct AllocatorStats {
    pub total_managed_pages: usize,
    pub usable_pages: usize,
    pub free_pages: usize,
    pub used_pages: usize,
}

impl AllocatorStats {
    pub fn new() -> (r: Self)
        ensures
            r == (AllocatorStats {
                total_managed_pages: 0,
                usable_pages: 0,
                free_pages: 0,
                used_pages: 0,
            }),
    {
        Self { total_managed_pages: 0, usable_pages: 0, free_pages: 0, used_pages: 0 }
    }
}

/// The bitmap and the totals.
pub struct PageAllocator {
    bitmap: [u64; BITMAP_WORDS],
    stats: AllocatorStats,
}

/// What a page allocator holds: which pages are in use, and its totals.
pub struct FramePool {
    pub used: Seq<bool>,
    pub stats: AllocatorStats,
}

/// How many of the first `n` pages are not in use.
pub open spec fn count_free(used: Seq<bool>, n: nat) -> nat
    decreases n,
{
    if n == 0 {
        0
    } else {
        count_free(used, (n - 1) as nat) + if used[n - 1] {
            0nat
        } else {
            1nat
        }
    }
}

impl FramePool {
    /// The number of pages that the allocator hands out from.
    pub open spec fn total(self) -> int {
        self.stats.total_managed_pages as int
    }

    /// Page `i` may be handed out.
    pub open spec fn is_free(self, i: int) -> bool {
        0 <= i < self.total() && !self.used[i]
    }

    /// How many pages may be handed out.
    pub open spec fn free_count(self) -> nat {
        count_free(self.used, self.total() as nat)
    }

    /// Page 0 is never handed out.
    pub open spec fn wf(self) -> bool {
        &&& self.used.len() == MAX_MANAGED_PAGES
        &&& self.total() <= MAX_MANAGED_PAGES
        &&& self.used[0]
    }

    /// The totals say how many pages are free and how many are not.
    pub open spec fn counted(self) -> bool {
        &&& self.stats.free_pages == self.free_count()
        &&& self.stats.used_pages == self.total() - self.free_count()
    }

    /// The pool once page `i` has been handed out.
    pub open spec fn take(self, i: int) -> FramePool {
        FramePool {
            used: self.used.update(i, true),
            stats: AllocatorStats {
                free_pages: if self.stats.free_pages > 0 {
                    (self.stats.free_pages - 1) as usize
                } else {
                    0
                },
                used_pages: if self.stats.used_pages < usize::MAX {
                    (self.stats.used_pages + 1) as usize
                } else {
                    usize::MAX
                },
                ..self.stats
            },
        }
    }

    /// The pool once page `i` has been given back.
    pub open spec fn give(self, i: int) -> FramePool {
        FramePool {
            used: self.used.update(i, false),
            stats: AllocatorStats {
                free_pages: if self.stats.free_pages < usize::MAX {
                    (self.stats.free_pages + 1) as usize
                } else {
                    usize::MAX
                },
                used_pages: if self.stats.used_pages > 0 {
                    (self.stats.used_pages - 1) as usize
                } else {
                    0
                },
                ..self.stats
            },
        }
    }

    /// The totals once `n` pages have been handed out.
    pub open spec fn stats_after_takes(self, n: int) -> AllocatorStats {
        AllocatorStats {
            free_pages: if self.stats.free_pages > n {
                (self.stats.free_pages - n) as usize
            } else {
                0
            },
            used_pages: if self.stats.used_pages + n < usize::MAX {
                (self.stats.used_pages + n) as usize
            } else {
                usize::MAX
            },
            ..self.stats
        }
    }

    /// `i` is the page that is handed out next: the first free one.
    pub open spec fn is_first_free(self, i: int) -> bool {
        &&& self.is_free(i)
        &&& forall|j: int| 0 <= j < i ==> !self.is_free(j)
    }

    /// Why page `page` cannot be given back; none if it can.
    pub open spec fn refusal(self, page: PhysPage) -> Option<PageFreeError> {
        let i = page.0 as int / 4096;
        if page.0 % 4096 != 0 {
            Some(PageFreeError::UnalignedAddress)
        } else if i == 0 {
            Some(PageFreeError::ReservedMemory)
        } else if i >= self.total() {
            Some(PageFreeError::OutOfBounds)
        } else if !self.used[i] {
            Some(PageFreeError::DoubleFree)
        } else {
            None
        }
    }

    /// The pool after an attempt to give page `page` back.
    pub open spec fn after_free(self, page: PhysPage) -> FramePool {
        if self.refusal(page) is None {
            self.give(page.0 as int / 4096)
        } else {
            self
        }
    }
}

/// Bit `b` of `w`.
spec fn bit(w: u64, b: int) -> bool {
    (w >> (b as u64)) & 1 == 1
}

proof fn lemma_bit_set(w: u64, b: u64)
    requires
        b < 64,
    ensures
        forall|c: int| 0 <= c < 64 ==> #[trigger] bit(w | (1u64 << b), c) == (c == b || bit(w, c)),
{
    assert forall|c: int| 0 <= c < 64 implies #[trigger] bit(w | (1u64 << b), c) == (c == b || bit(
        w,
        c,
    )) by {
        let d = c as u64;
        assert(((w | (1u64 << b)) >> d) & 1 == 1 <==> (d == b || (w >> d) & 1 == 1)) by (bit_vector)
            requires
                b < 64,
                d < 64,
        ;
    }
}

proof fn lemma_bit_clear(w: u64, b: u64)
    requires
        b < 64,
    ensures
        forall|c: int|
            0 <= c < 64 ==> #[trigger] bit(w & !(1u64 << b), c) == (c != b && bit(w, c)),
        (w & (1u64 << b)) == 0 <==> !bit(w, b as int),
{
    assert forall|c: int| 0 <= c < 64 implies #[trigger] bit(w & !(1u64 << b), c) == (c != b
        && bit(w, c)) by {
        let d = c as u64;
        assert(((w & !(1u64 << b)) >> d) & 1 == 1 <==> (d != b && (w >> d) & 1 == 1))
            by (bit_vector)
            requires
                b < 64,
                d < 64,
        ;
    }
    assert((w & (1u64 << b)) == 0 <==> !((w >> b) & 1 == 1)) by (bit_vector)
        requires
            b < 64,
    ;
}

/// The lowest clear bit of a word is the number of trailing zeros of its
/// complement.
proof fn lemma_lowest_clear(w: u64)
    requires
        w != !0u64,
    ensures
        ({
            let b = vstd::std_specs::bits::u64_trailing_zeros(!w);
            &&& b < 64
            &&& !bit(w, b as int)
            &&& forall|c: int| 0 <= c < b ==> #[trigger] bit(w, c)
        }),
{
    let v = !w;
    vstd::std_specs::bits::axiom_u64_trailing_zeros(v);
    assert(!w != 0) by (bit_vector)
        requires
            w != !0u64,
    ;
    let b = vstd::std_specs::bits::u64_trailing_zeros(v) as u64;
    assert forall|d: u64| d < 64 implies ((#[trigger] (w >> d) & 1 == 1) <==> ((!w >> d) & 1
        == 0)) by {
        assert((w >> d) & 1 == 1 <==> (!w >> d) & 1 == 0) by (bit_vector)
            requires
                d < 64,
        ;
    }
    assert((w >> b) & 1 == 1 <==> (!w >> b) & 1 == 0);
    assert forall|c: int| 0 <= c < b implies #[trigger] bit(w, c) by {
        let d = c as u64;
        assert((v >> d) & 1 == 0);
        assert((w >> d) & 1 == 1);
    }
}

proof fn lemma_bits_of_full()
    ensures
        forall|c: int| 0 <= c < 64 ==> #[trigger] bit(!0u64, c),
{
    assert forall|c: int| 0 <= c < 64 implies #[trigger] bit(!0u64, c) by {
        let d = c as u64;
        assert((!0u64 >> d) & 1 == 1) by (bit_vector)
            requires
                d < 64,
        ;
    }
}

/// Setting one entry changes the count of free pages by that entry.
proof fn lemma_count_update(used: Seq<bool>, n: nat, i: int, v: bool)
    requires
        0 <= i < used.len(),
        n <= used.len(),
    ensures
        count_free(used.update(i, v), n) == count_free(used, n) + if i < n {
            (if v {
                0int
            } else {
                1
            }) - (if used[i] {
                0int
            } else {
                1
            })
        } else {
            0
        },
    decreases n,
{
    if n > 0 {
        lemma_count_update(used, (n - 1) as nat, i, v);
    }
}

/// A free page counts, and so does its absence.
pub proof fn lemma_count_free(pool: FramePool)
    requires
        pool.wf(),
    ensures
        pool.free_count() <= pool.total(),
        pool.free_count() == 0 <==> forall|i: int| !pool.is_free(i),
        pool.total() > 0 ==> pool.free_count() < pool.total(),
{
    lemma_count_prefix(pool.used, pool.total() as nat);
    if forall|i: int| !pool.is_free(i) {
        assert forall|i: int| 0 <= i < pool.total() implies pool.used[i] by {
            assert(!pool.is_free(i));
        }
    }
}

proof fn lemma_count_prefix(used: Seq<bool>, n: nat)
    requires
        n <= used.len(),
    ensures
        count_free(used, n) <= n,
        count_free(used, n) == 0 <==> forall|i: int| 0 <= i < n ==> used[i],
        n > 0 && used[0] ==> count_free(used, n) < n,
    decreases n,
{
    if n > 0 {
        lemma_count_prefix(used, (n - 1) as nat);
    }
}

/// Handing a free page out leaves one free page fewer and keeps the pool in
/// order; correct totals stay correct.
pub proof fn lemma_take(pool: FramePool, i: int)
    requires
        pool.wf(),
        pool.is_free(i),
    ensures
        pool.take(i).wf(),
        pool.take(i).free_count() == pool.free_count() - 1,
        pool.counted() ==> pool.take(i).counted(),
{
    lemma_count_update(pool.used, pool.total() as nat, i, true);
    lemma_count_free(pool);
}

/// Giving a page back leaves one free page more and keeps the pool in order;
/// correct totals stay correct.
pub proof fn lemma_give(pool: FramePool, page: PhysPage)
    requires
        pool.wf(),
        pool.refusal(page) is None,
    ensures
        pool.after_free(page).wf(),
        pool.after_free(page).free_count() == pool.free_count() + 1,
        pool.counted() ==> pool.after_free(page).counted(),
{
    let i = page.0 as int / 4096;
    lemma_count_update(pool.used, pool.total() as nat, i, false);
    lemma_count_free(pool);
    lemma_count_free(pool.give(i));
}

impl View for PageAllocator {
    type V = FramePool;

    closed spec fn view(&self) -> FramePool {
        FramePool {
            used: Seq::new(MAX_MANAGED_PAGES as nat, |i: int| bit(self.bitmap[i / 64], i % 64)),
            stats: self.stats,
        }
    }
}

impl PageAllocator {
    /// An allocator that manages no pages yet.
    pub fn new() -> (r: Self)
        ensures
            r@.wf(),
            r@.counted(),
            r@.total() == 0,
            r@.used == Seq::new(MAX_MANAGED_PAGES as nat, |i: int| true),
            r@.stats == (AllocatorStats {
                total_managed_pages: 0,
                usable_pages: 0,
                free_pages: 0,
                used_pages: 0,
            }),
    {
        let r = Self { bitmap: [!0u64; BITMAP_WORDS], stats: AllocatorStats::new() };
        proof {
            lemma_bits_of_full();
            assert(r@.used =~= Seq::new(MAX_MANAGED_PAGES as nat, |i: int| true));
        }
        r
    }
}

pub fn stats(pmm: &PageAllocator) -> (r: AllocatorStats)
    ensures
        r == pmm@.stats,
{
    AllocatorStats {
        total_managed_pages: pmm.stats.total_managed_pages,
        usable_pages: pmm.stats.usable_pages,
        free_pages: pmm.stats.free_pages,
        used_pages: pmm.stats.used_pages,
    }
}

/// The highest address at which a region of `s` ends.
pub open spec fn highest_end(s: Seq<MemoryRegion>) -> u64
    decreases s.len(),
{
    if s.len() == 0 {
        0
    } else if s.last().physical_end > highest_end(s.drop_last()) {
        s.last().physical_end
    } else {
        highest_end(s.drop_last())
    }
}

/// How many pages the allocator manages on a machine with memory map `s`.
pub open spec fn managed_pages(s: Seq<MemoryRegion>) -> int {
    if highest_end(s) / 4096 > MAX_MANAGED_PAGES {
        MAX_MANAGED_PAGES as int
    } else {
        highest_end(s) as int / 4096
    }
}

/// Page `i` lies in region `r`, which is usable.
pub open spec fn usable_in(r: MemoryRegion, i: int) -> bool {
    r.is_usable && r.physical_start as int / 4096 <= i < r.physical_end as int / 4096
}

/// Page `i` lies in a usable region of `s`.
pub open spec fn usable_page(s: Seq<MemoryRegion>, i: int) -> bool {
    exists|k: int| 0 <= k < s.len() && usable_in(#[trigger] s[k], i)
}

/// How many integers there are from `a` to below `b`.
pub open spec fn span(a: int, b: int) -> int {
    if a < b {
        b - a
    } else {
        0
    }
}

/// How many pages of region `r` lie from `lo` to below `total`, if it is
/// usable.
pub open spec fn usable_span(r: MemoryRegion, lo: int, total: int) -> int {
    let a = r.physical_start as int / 4096;
    let b = r.physical_end as int / 4096;
    if r.is_usable {
        span(
            if a < lo {
                lo
            } else {
                a
            },
            if b < total {
                b
            } else {
                total
            },
        )
    } else {
        0
    }
}

/// How many pages of usable regions lie from `lo` to below `total`, counted
/// once for each region that they lie in.
pub open spec fn usable_pages(s: Seq<MemoryRegion>, lo: int, total: int) -> int
    decreases s.len(),
{
    if s.len() == 0 {
        0
    } else {
        usable_pages(s.drop_last(), lo, total) + usable_span(s.last(), lo, total)
    }
}

/// No page lies in two usable regions of `s`.
pub open spec fn usable_disjoint(s: Seq<MemoryRegion>) -> bool {
    forall|a: int, b: int, i: int|
        0 <= a < b < s.len() && #[trigger] usable_in(s[a], i) ==> !#[trigger] usable_in(s[b], i)
}

/// The pool of a machine with memory map `s`, before anything is handed out:
/// what is free are the usable pages but page 0.
pub open spec fn initial_pool(s: Seq<MemoryRegion>) -> FramePool {
    let total = managed_pages(s);
    let free = usable_pages(s, 1, total);
    FramePool {
        used: Seq::new(
            MAX_MANAGED_PAGES as nat,
            |i: int| !(0 < i < total && usable_page(s, i)),
        ),
        stats: AllocatorStats {
            total_managed_pages: total as usize,
            usable_pages: usable_pages(s, 0, total) as usize,
            free_pages: free as usize,
            used_pages: (if free < total {
                total - free
            } else {
                0
            }) as usize,
        },
    }
}

/// Sets the allocator up for a machine: every page is in use but the usable
/// ones from page 1 on.
pub fn init(pmm: &mut PageAllocator, map: &PhysicalMemoryMap)
    requires
        map.region_count <= MAX_REGIONS,
    ensures
        final(pmm)@.wf(),
        final(pmm)@ == initial_pool(map@),
{
    let ghost s = map@;
    let mut w: usize = 0;
    while w < BITMAP_WORDS
        invariant
            w <= BITMAP_WORDS,
            forall|k: int| 0 <= k < w ==> pmm.bitmap[k] == !0u64,
        decreases BITMAP_WORDS - w,
    {
        pmm.bitmap[w] = !0u64;
        w = w + 1;
    }

    let mut highest_addr: u64 = 0;
    let mut i: usize = 0;
    while i < map.region_count
        invariant
            s == map@,
            map.region_count <= MAX_REGIONS,
            i <= map.region_count,
            highest_addr == highest_end(s.take(i as int)),
        decreases map.region_count - i,
    {
        let r = &map.regions[i];
        assert(s.take(i + 1).drop_last() =~= s.take(i as int));
        if r.physical_end > highest_addr {
            highest_addr = r.physical_end;
        }
        i = i + 1;
    }
    assert(s.take(i as int) =~= s);

    let max_pages: u64 = highest_addr / PAGE_SIZE;
    let total: usize = if max_pages > MAX_MANAGED_PAGES as u64 {
        MAX_MANAGED_PAGES
    } else {
        max_pages as usize
    };
    let mut usable_count: usize = 0;
    let mut free_count: usize = 0;

    proof {
        lemma_bits_of_full();
        assert(s.take(0) =~= Seq::<MemoryRegion>::empty());
    }
    let mut k: usize = 0;
    while k < map.region_count
        invariant
            s == map@,
            map.region_count <= MAX_REGIONS,
            k <= map.region_count,
            total == managed_pages(s),
            total <= MAX_MANAGED_PAGES,
            usable_count == usable_pages(s.take(k as int), 0, total as int),
            free_count == usable_pages(s.take(k as int), 1, total as int),
            usable_count <= k * MAX_MANAGED_PAGES,
            free_count <= k * MAX_MANAGED_PAGES,
            forall|p: int|
                0 <= p < MAX_MANAGED_PAGES ==> #[trigger] bit(pmm.bitmap[p / 64], p % 64) == !(0 < p
                    < total && usable_page(s.take(k as int), p)),
        decreases map.region_count - k,
    {
        let r = &map.regions[k];
        let ghost before = s.take(k as int);
        let ghost after = s.take(k + 1);
        proof {
            assert(after.drop_last() =~= before);
            assert forall|p: int| usable_page(after, p) == (usable_page(before, p) || usable_in(
                *r,
                p,
            )) by {
                if usable_in(*r, p) {
                    assert(usable_in(after[k as int], p));
                }
                if usable_page(before, p) {
                    let j = choose|j: int| 0 <= j < before.len() && usable_in(#[trigger] before[j], p);
                    assert(usable_in(after[j], p));
                }
                if usable_page(after, p) {
                    let j = choose|j: int| 0 <= j < after.len() && usable_in(#[trigger] after[j], p);
                    if j < k {
                        assert(usable_in(before[j], p));
                    }
                }
            }
        }
        if r.is_usable {
            let start_page: u64 = r.physical_start / PAGE_SIZE;
            let end_page: u64 = r.physical_end / PAGE_SIZE;
            let ghost usable_before = usable_count as int;
            let ghost free_before = free_count as int;
            let mut page: u64 = start_page;
            while page < end_page && page < total as u64
                invariant
                    start_page == r.physical_start / 4096,
                    end_page == r.physical_end / 4096,
                    r.is_usable,
                    start_page <= page,
                    page <= end_page || page == start_page,
                    page <= total || page == start_page,
                    total <= MAX_MANAGED_PAGES,
                    k < MAX_REGIONS,
                    usable_before <= k * MAX_MANAGED_PAGES,
                    free_before <= k * MAX_MANAGED_PAGES,
                    usable_count == usable_before + (page - start_page),
                    free_count == free_before + span(
                        if start_page < 1 {
                            1
                        } else {
                            start_page as int
                        },
                        page as int,
                    ),
                    forall|p: int|
                        0 <= p < MAX_MANAGED_PAGES ==> #[trigger] bit(pmm.bitmap[p / 64], p % 64)
                            == !(0 < p < total && (usable_page(before, p) || start_page <= p
                            < page)),
                decreases end_page - page,
            {
                usable_count = usable_count + 1;
                if page != 0 {
                    let page_idx: usize = page as usize;
                    let word_idx: usize = page_idx / 64;
                    let bit_idx: usize = page_idx % 64;
                    let word: u64 = pmm.bitmap[word_idx];
                    proof {
                        lemma_bit_clear(word, bit_idx as u64);
                    }
                    pmm.bitmap[word_idx] = word & !(1u64 << bit_idx);
                    free_count = free_count + 1;
                    assert forall|p: int| 0 <= p < MAX_MANAGED_PAGES implies #[trigger] bit(
                        pmm.bitmap[p / 64],
                        p % 64,
                    ) == !(0 < p < total && (usable_page(before, p) || start_page <= p < page
                        + 1)) by {
                        if p / 64 == word_idx {
                            assert(bit(word, p % 64) == !(0 < p < total && (usable_page(before, p)
                                || start_page <= p < page)));
                            assert(bit(word & !(1u64 << (bit_idx as u64)), p % 64) == (p % 64
                                != bit_idx && bit(word, p % 64)));
                        } else {
                            assert(p != page);
                        }
                    }
                }
                page = page + 1;
            }
            assert(usable_count - usable_before == usable_span(*r, 0, total as int));
            assert(free_count - free_before == usable_span(*r, 1, total as int));
        }
        k = k + 1;
    }
    assert(s.take(k as int) =~= s);

    pmm.stats.total_managed_pages = total;
    pmm.stats.usable_pages = usable_count;
    pmm.stats.free_pages = free_count;
    pmm.stats.used_pages = total.saturating_sub(free_count);
    assert(pmm@.used =~= initial_pool(s).used);
}

/// Clearing a range of pages that were in use adds them to the free ones.
proof fn lemma_count_cleared(used: Seq<bool>, cleared: Seq<bool>, n: nat, a: int, b: int)
    requires
        used.len() == cleared.len(),
        n <= used.len(),
        0 <= a,
        forall|i: int| 0 <= i < used.len() && a <= i < b ==> used[i] && !cleared[i],
        forall|i: int|
            0 <= i < used.len() && !(a <= i < b) ==> #[trigger] cleared[i] == used[i],
    ensures
        count_free(cleared, n) == count_free(used, n) + span(
            a,
            if b < n {
                b
            } else {
                n as int
            },
        ),
    decreases n,
{
    if n > 0 {
        lemma_count_cleared(used, cleared, (n - 1) as nat, a, b);
    }
}

proof fn lemma_count_usable(s: Seq<MemoryRegion>, used: Seq<bool>, total: nat)
    requires
        usable_disjoint(s),
        total <= used.len(),
        forall|i: int| 0 <= i < used.len() ==> #[trigger] used[i] == !(0 < i < total && usable_page(s, i)),
    ensures
        count_free(used, total) == usable_pages(s, 1, total as int),
    decreases s.len(),
{
    if s.len() == 0 {
        lemma_count_prefix(used, total);
    } else {
        let before = s.drop_last();
        let r = s.last();
        let used_before = Seq::new(
            used.len(),
            |i: int| !(0 < i < total && usable_page(before, i)),
        );
        assert(usable_disjoint(before)) by {
            assert forall|a: int, b: int, i: int|
                0 <= a < b < before.len() && #[trigger] usable_in(
                    before[a],
                    i,
                ) implies !#[trigger] usable_in(before[b], i) by {
                assert(usable_in(s[a], i));
                assert(before[b] == s[b]);
            }
        }
        lemma_count_usable(before, used_before, total);
        let a0 = r.physical_start as int / 4096;
        let b0 = r.physical_end as int / 4096;
        let a = if a0 < 1 {
            1
        } else {
            a0
        };
        let b = if !r.is_usable {
            a
        } else if b0 < total {
            b0
        } else {
            total as int
        };
        assert forall|i: int| usable_page(s, i) == (usable_page(before, i) || usable_in(r, i)) by {
            if usable_page(before, i) {
                let j = choose|j: int| 0 <= j < before.len() && usable_in(#[trigger] before[j], i);
                assert(usable_in(s[j], i));
            }
            if usable_page(s, i) {
                let j = choose|j: int| 0 <= j < s.len() && usable_in(#[trigger] s[j], i);
                if j < before.len() {
                    assert(usable_in(before[j], i));
                }
            }
            if usable_in(r, i) {
                assert(usable_in(s[s.len() - 1], i));
            }
        }
        assert forall|i: int| usable_in(r, i) implies !usable_page(before, i) by {
            if usable_page(before, i) {
                let j = choose|j: int| 0 <= j < before.len() && usable_in(#[trigger] before[j], i);
                assert(usable_in(s[j], i));
                assert(usable_in(s[s.len() - 1], i));
            }
        }
        lemma_count_cleared(used_before, used, total, a, b);
    }
}

/// Where no page lies in two usable regions, the totals that the allocator
/// starts with are right.
pub proof fn lemma_initial_pool_counted(s: Seq<MemoryRegion>)
    requires
        s.len() <= MAX_REGIONS,
        usable_disjoint(s),
    ensures
        initial_pool(s).counted(),
{
    let pool = initial_pool(s);
    lemma_count_usable(s, pool.used, managed_pages(s) as nat);
    lemma_count_prefix(pool.used, managed_pages(s) as nat);
}

/// Clearing a range of pages adds no more than its length to the free ones.
proof fn lemma_count_cleared_most(used: Seq<bool>, cleared: Seq<bool>, n: nat, a: int, b: int)
    requires
        used.len() == cleared.len(),
        n <= used.len(),
        0 <= a,
        forall|i: int|
            0 <= i < used.len() && !(a <= i < b) ==> #[trigger] cleared[i] == used[i],
    ensures
        count_free(cleared, n) <= count_free(used, n) + span(
            a,
            if b < n {
                b
            } else {
                n as int
            },
        ),
    decreases n,
{
    if n > 0 {
        lemma_count_cleared_most(used, cleared, (n - 1) as nat, a, b);
    }
}

/// No more pages are free at first than the usable regions have together, which
/// is no more than each could have.
pub proof fn lemma_count_usable_most(s: Seq<MemoryRegion>, used: Seq<bool>, total: nat)
    requires
        total <= used.len(),
        forall|i: int| 0 <= i < used.len() ==> #[trigger] used[i] == !(0 < i < total && usable_page(s, i)),
    ensures
        count_free(used, total) <= usable_pages(s, 1, total as int) <= s.len() * total,
    decreases s.len(),
{
    if s.len() == 0 {
        lemma_count_prefix(used, total);
    } else {
        let before = s.drop_last();
        let r = s.last();
        let used_before = Seq::new(
            used.len(),
            |i: int| !(0 < i < total && usable_page(before, i)),
        );
        lemma_count_usable_most(before, used_before, total);
        let a0 = r.physical_start as int / 4096;
        let b0 = r.physical_end as int / 4096;
        let a = if a0 < 1 {
            1
        } else {
            a0
        };
        let b = if !r.is_usable {
            a
        } else if b0 < total {
            b0
        } else {
            total as int
        };
        assert forall|i: int| usable_page(s, i) == (usable_page(before, i) || usable_in(r, i)) by {
            if usable_page(before, i) {
                let j = choose|j: int| 0 <= j < before.len() && usable_in(#[trigger] before[j], i);
                assert(usable_in(s[j], i));
            }
            if usable_page(s, i) {
                let j = choose|j: int| 0 <= j < s.len() && usable_in(#[trigger] s[j], i);
                if j < before.len() {
                    assert(usable_in(before[j], i));
                }
            }
            if usable_in(r, i) {
                assert(usable_in(s[s.len() - 1], i));
            }
        }
        lemma_count_cleared_most(used_before, used, total, a, b);
        assert(before.len() * total + total == s.len() * total) by (nonlinear_arith)
            requires
                before.len() == s.len() - 1,
        ;
    }
}

/// Hands out the first free page.
pub fn allocate_physical_page(pmm: &mut PageAllocator) -> (r: Option<PhysPage>)
    requires
        old(pmm)@.wf(),
    ensures
        final(pmm)@.wf(),
        match r {
            Some(page) => {
                let i = page.0 as int / 4096;
                &&& page.0 == i * 4096
                &&& i > 0
                &&& i < old(pmm)@.stats.total_managed_pages
                &&& !old(pmm)@.used[i]
                &&& forall|j: int| 0 <= j < i ==> #[trigger] old(pmm)@.used[j]
                &&& final(pmm)@.used == old(pmm)@.used.update(i, true)
                &&& old(pmm)@.is_first_free(i)
                &&& final(pmm)@ == old(pmm)@.take(i)
                &&& final(pmm)@.free_count() == old(pmm)@.free_count() - 1
            },
            None => {
                &&& old(pmm)@.free_count() == 0
                &&& forall|j: int|
                    0 <= j < old(pmm)@.stats.total_managed_pages ==> #[trigger] old(pmm)@.used[j]
                &&& *final(pmm) == *old(pmm)
            },
        },
{
    let ghost pool = pmm@;
    proof {
        lemma_count_free(pool);
    }
    let words_to_scan: usize = (pmm.stats.total_managed_pages + 63) / 64;
    let mut w: usize = 0;
    while w < words_to_scan
        invariant
            *pmm == *old(pmm),
            pool == pmm@,
            pool.wf(),
            words_to_scan == (pmm.stats.total_managed_pages + 63) / 64,
            w <= words_to_scan,
            words_to_scan <= BITMAP_WORDS,
            forall|j: int| 0 <= j < 64 * w ==> !pool.is_free(j),
        decreases words_to_scan - w,
    {
        let word: u64 = pmm.bitmap[w];
        if word != !0u64 {
            let bit_idx: usize = (!word).trailing_zeros() as usize;
            proof {
                lemma_lowest_clear(word);
            }
            let page_idx: usize = w * 64 + bit_idx;
            assert forall|j: int| 0 <= j < page_idx implies !pool.is_free(j) by {
                if j >= 64 * w {
                    assert(j / 64 == w && j % 64 == j - 64 * w);
                    assert(bit(word, j % 64));
                }
            }
            if page_idx < pmm.stats.total_managed_pages {
                proof {
                    lemma_bit_set(word, bit_idx as u64);
                    assert(page_idx as int / 64 == w && page_idx as int % 64 == bit_idx);
                    assert(pool.is_first_free(page_idx as int));
                    lemma_take(pool, page_idx as int);
                }
                pmm.bitmap[w] = word | (1u64 << bit_idx);
                pmm.stats.free_pages = pmm.stats.free_pages.saturating_sub(1);
                pmm.stats.used_pages = pmm.stats.used_pages.saturating_add(1);
                assert(pmm@.used =~= pool.take(page_idx as int).used) by {
                    assert forall|j: int| 0 <= j < MAX_MANAGED_PAGES implies pmm@.used[j]
                        == pool.take(page_idx as int).used[j] by {
                        if j / 64 == w {
                            assert(bit(word | (1u64 << (bit_idx as u64)), j % 64) == (j % 64
                                == bit_idx || bit(word, j % 64)));
                        }
                    }
                }
                assert(pmm@.stats == pool.take(page_idx as int).stats);
                assert forall|j: int| 0 <= j < page_idx implies #[trigger] pool.used[j] by {
                    assert(!pool.is_free(j));
                }
                return Some(PhysPage::from_page_number(page_idx));
            }
            proof {
                assert forall|j: int| 0 <= j < 64 * (w + 1) implies !pool.is_free(j) by {}
            }
        } else {
            proof {
                lemma_bits_of_full();
                assert forall|j: int| 0 <= j < 64 * (w + 1) implies !pool.is_free(j) by {
                    if j >= 64 * w {
                        assert(j / 64 == w);
                        assert(bit(word, j % 64));
                    }
                }
            }
        }
        w = w + 1;
    }
    assert forall|j: int| !pool.is_free(j) by {}
    assert forall|j: int| 0 <= j < pool.stats.total_managed_pages implies #[trigger] pool.used[j] by {
        assert(!pool.is_free(j));
    }
    None
}

/// Takes a page back. Unaligned, unmanaged and free pages are refused, and so
/// is page 0.
pub fn free_physical_page(pmm: &mut PageAllocator, page: PhysPage) -> (r: Result<
    (),
    PageFreeError,
>)
    requires
        old(pmm)@.wf(),
    ensures
        final(pmm)@.wf(),
        final(pmm)@ == old(pmm)@.after_free(page),
        match old(pmm)@.refusal(page) {
            Some(e) => r == Err::<(), PageFreeError>(e) && *final(pmm) == *old(pmm),
            None => r == Ok::<(), PageFreeError>(()) && final(pmm)@.free_count() == old(
                pmm,
            )@.free_count() + 1,
        },
{
    let ghost pool = pmm@;
    let addr: u64 = page.addr();
    if addr % PAGE_SIZE != 0 {
        return Err(PageFreeError::UnalignedAddress);
    }
    if addr / PAGE_SIZE == 0 {
        return Err(PageFreeError::ReservedMemory);
    }
    if addr / PAGE_SIZE >= pmm.stats.total_managed_pages as u64 {
        return Err(PageFreeError::OutOfBounds);
    }
    let page_idx: usize = page.page_number();
    let word_idx: usize = page_idx / 64;
    let bit_idx: usize = page_idx % 64;
    let word: u64 = pmm.bitmap[word_idx];
    proof {
        lemma_bit_clear(word, bit_idx as u64);
    }
    if (word & (1u64 << bit_idx)) == 0 {
        return Err(PageFreeError::DoubleFree);
    }
    proof {
        lemma_give(pool, page);
    }
    pmm.bitmap[word_idx] = word & !(1u64 << bit_idx);
    pmm.stats.free_pages = pmm.stats.free_pages.saturating_add(1);
    pmm.stats.used_pages = pmm.stats.used_pages.saturating_sub(1);
    assert(pmm@.used =~= pool.give(page_idx as int).used) by {
        assert forall|j: int| 0 <= j < MAX_MANAGED_PAGES implies pmm@.used[j] == pool.give(
            page_idx as int,
        ).used[j] by {
            if j / 64 == word_idx {
                assert(bit(word & !(1u64 << (bit_idx as u64)), j % 64) == (j % 64 != bit_idx && bit(
                    word,
                    j % 64,
                )));
            }
        }
    }
    Ok(())
}

/// Checks the allocator on itself: distinct aligned pages, first-fit reuse, and
/// the refusal of a second free and of page 0. It passes wherever two pages
/// are free, and gives back what it took.
pub fn test_allocator(pmm: &mut PageAllocator) -> (r: Result<(), &'static str>)
    requires
        old(pmm)@.wf(),
    ensures
        final(pmm)@.wf(),
        r is Ok <==> old(pmm)@.free_count() >= 2,
        r is Ok ==> final(pmm)@.used == old(pmm)@.used,
        r is Ok && old(pmm)@.counted() ==> final(pmm)@ == old(pmm)@,
        r is Ok && old(pmm)@.stats.free_pages >= 2 && old(pmm)@.stats.used_pages <= usize::MAX - 2
            ==> final(pmm)@ == old(pmm)@,
        old(pmm)@.free_count() == 0 ==> r == Err::<(), &'static str>(
            "Allocation failed on empty pool",
        ) && final(pmm)@ == old(pmm)@,
        old(pmm)@.free_count() == 1 ==> r == Err::<(), &'static str>(
            "Second allocation failed",
        ) && (forall|i: int| old(pmm)@.is_free(i) ==> final(pmm)@ == old(pmm)@.take(i)),
{
    let ghost pool = pmm@;
    let page1 = match allocate_physical_page(pmm) {
        Some(p) => p,
        None => return Err("Allocation failed on empty pool"),
    };
    let ghost i1 = page1.0 as int / 4096;
    let ghost pool1 = pmm@;
    let page2 = match allocate_physical_page(pmm) {
        Some(p) => p,
        None => {
            proof {
                lemma_count_free(pool1);
                assert forall|i: int| pool.is_free(i) implies i == i1 by {
                    assert(!pool1.is_free(i));
                }
            }
            return Err("Second allocation failed");
        },
    };
    let ghost i2 = page2.0 as int / 4096;
    let ghost pool2 = pmm@;
    proof {
        lemma_count_free(pool2);
        assert(pool1.is_free(i2));
        assert(i2 != i1);
    }
    if page1 == page2 {
        return Err("Allocated identical pages!");
    }
    if page1.addr() % PAGE_SIZE != 0 || page2.addr() % PAGE_SIZE != 0 {
        return Err("Unaligned allocation address!");
    }
    if free_physical_page(pmm, page1).is_err() {
        return Err("Freeing valid page failed");
    }
    let ghost pool3 = pmm@;
    assert(pool3.is_first_free(i1)) by {
        assert forall|j: int| 0 <= j < i1 implies !pool3.is_free(j) by {
            assert(!pool.is_free(j));
        }
    }
    proof {
        lemma_count_free(pool3);
    }
    let page3 = match allocate_physical_page(pmm) {
        Some(p) => p,
        None => return Err("Re-allocation failed"),
    };
    let ghost i3 = page3.0 as int / 4096;
    assert(i3 == i1) by {
        assert(pool3.is_free(i3));
        assert(pool3.is_free(i1));
    }
    if page3 != page1 {
        return Err("First-fit reuse expected same page");
    }
    let _ = free_physical_page(pmm, page2);
    let _ = free_physical_page(pmm, page3);
    assert(pmm@.used =~= pool.used);
    match free_physical_page(pmm, page3) {
        Err(PageFreeError::DoubleFree) => {},
        _ => return Err("Double free was not detected!"),
    }
    match free_physical_page(pmm, PhysPage::null()) {
        Err(PageFreeError::ReservedMemory) => {},
        _ => return Err("Freeing page 0 was not rejected!"),
    }
    proof {
        lemma_count_free(pool);
    }
    Ok(())
}

/// The most frames that are handed out in one go.
pub const MAX_BATCH: usize = 128;

impl FramePool {
    /// `f` is a free page with `i` free pages below it.
    pub open spec fn is_nth_free(self, i: int, f: int) -> bool {
        self.is_free(f) && count_free(self.used, f as nat) == i
    }

    /// The free page with `i` free pages below it.
    pub open spec fn nth_free(self, i: int) -> int {
        choose|f: int| self.is_nth_free(i, f)
    }

    /// `pool` is what is left once the first `n` free pages have been handed
    /// out.
    pub open spec fn without_first(self, n: int, pool: FramePool) -> bool {
        &&& pool.used.len() == self.used.len()
        &&& forall|f: int|
            0 <= f < self.used.len() ==> #[trigger] pool.used[f] == (self.used[f] || (self.is_free(f)
                && count_free(self.used, f as nat) < n))
        &&& pool.stats == self.stats_after_takes(n)
        &&& pool.free_count() == self.free_count() - n
    }

    /// `pool` holds the same pages, and its totals are right if they were.
    pub open spec fn same_pages(self, pool: FramePool) -> bool {
        &&& pool.used == self.used
        &&& pool.total() == self.total()
        &&& pool.stats.usable_pages == self.stats.usable_pages
        &&& self.counted() ==> pool.counted()
    }
}

/// Below the end of a count there is a free page for every smaller count.
proof fn lemma_count_reaches(used: Seq<bool>, n: nat, i: nat) -> (f: int)
    requires
        i < count_free(used, n),
        n <= used.len(),
    ensures
        0 <= f < n,
        !used[f],
        count_free(used, f as nat) == i,
    decreases n,
{
    if !used[n - 1] && count_free(used, (n - 1) as nat) == i {
        n - 1
    } else {
        lemma_count_reaches(used, (n - 1) as nat, i)
    }
}

proof fn lemma_count_monotone(used: Seq<bool>, a: nat, b: nat)
    requires
        a <= b <= used.len(),
    ensures
        count_free(used, a) <= count_free(used, b),
        a < b && !used[a as int] ==> count_free(used, a) < count_free(used, b),
    decreases b - a,
{
    if a < b {
        lemma_count_monotone(used, a, (b - 1) as nat);
    }
}

/// For every number below the number of free pages there is exactly one free
/// page with that many free pages below it.
pub proof fn lemma_nth_free(pool: FramePool, i: int)
    requires
        pool.wf(),
        0 <= i < pool.free_count(),
    ensures
        pool.is_nth_free(i, pool.nth_free(i)),
        0 < pool.nth_free(i) < pool.total(),
        forall|f: int| #[trigger] pool.is_nth_free(i, f) ==> f == pool.nth_free(i),
{
    let g = lemma_count_reaches(pool.used, pool.total() as nat, i as nat);
    assert(pool.is_nth_free(i, g));
    let n = pool.nth_free(i);
    assert forall|f: int| #[trigger] pool.is_nth_free(i, f) implies f == n by {
        if f < n {
            lemma_count_monotone(pool.used, f as nat, n as nat);
        } else if n < f {
            lemma_count_monotone(pool.used, n as nat, f as nat);
        }
    }
}

/// A free page with fewer than `n` free pages below it is one of the first `n`.
pub proof fn lemma_among_first(pool: FramePool, n: int, f: int)
    requires
        pool.wf(),
        n <= pool.free_count(),
        pool.is_free(f),
        count_free(pool.used, f as nat) < n,
    ensures
        pool.nth_free(count_free(pool.used, f as nat) as int) == f,
{
    let i = count_free(pool.used, f as nat) as int;
    lemma_nth_free(pool, i);
    assert(pool.is_nth_free(i, f));
}

/// Different numbers belong to different free pages.
pub proof fn lemma_nth_free_distinct(pool: FramePool, i: int, j: int)
    requires
        pool.wf(),
        0 <= i < pool.free_count(),
        0 <= j < pool.free_count(),
        i != j,
    ensures
        pool.nth_free(i) != pool.nth_free(j),
{
    lemma_nth_free(pool, i);
    lemma_nth_free(pool, j);
}

/// The first free page that is left comes next in the count.
proof fn lemma_next_free(pool: FramePool, left: FramePool, n: int, f: int)
    requires
        pool.wf(),
        left.wf(),
        0 <= n,
        pool.without_first(n, left),
        left.is_first_free(f),
    ensures
        n < pool.free_count(),
        pool.is_nth_free(n, f),
        pool.nth_free(n) == f,
        pool.without_first(n + 1, left.take(f)),
{
    assert(left.used[f] == (pool.used[f] || (pool.is_free(f) && count_free(pool.used, f as nat)
        < n)));
    if count_free(pool.used, f as nat) > n {
        let g = lemma_count_reaches(pool.used, f as nat, n as nat);
        assert(left.used[g] == (pool.used[g] || (pool.is_free(g) && count_free(pool.used, g as nat)
            < n)));
        assert(left.is_free(g));
    }
    lemma_count_monotone(pool.used, f as nat, pool.total() as nat);
    lemma_nth_free(pool, n);
    assert(pool.is_nth_free(n, f));
    lemma_take(left, f);
    let next = left.take(f);
    assert forall|h: int| 0 <= h < pool.used.len() implies #[trigger] next.used[h] == (pool.used[h]
        || (pool.is_free(h) && count_free(pool.used, h as nat) < n + 1)) by {
        assert(left.used[h] == (pool.used[h] || (pool.is_free(h) && count_free(
            pool.used,
            h as nat,
        ) < n)));
        if pool.is_free(h) && count_free(pool.used, h as nat) == n {
            assert(pool.is_nth_free(n, h));
        }
    }
    assert(next.stats == pool.stats_after_takes(n + 1));
}

/// Gives back the first `n` of `pages`, which are distinct pages in use.
pub(crate) fn free_batch(pmm: &mut PageAllocator, pages: &[PhysPage; MAX_BATCH], n: usize)
    requires
        old(pmm)@.wf(),
        n <= MAX_BATCH,
        forall|i: int|
            0 <= i < n ==> {
                let f = (#[trigger] pages@[i]).0 as int / 4096;
                &&& pages@[i].0 == 4096 * f
                &&& 0 < f < old(pmm)@.total()
                &&& old(pmm)@.used[f]
            },
        forall|i: int, j: int| 0 <= i < j < n ==> #[trigger] pages@[i] != #[trigger] pages@[j],
    ensures
        final(pmm)@.wf(),
        final(pmm)@.total() == old(pmm)@.total(),
        final(pmm)@.stats.usable_pages == old(pmm)@.stats.usable_pages,
        final(pmm)@.free_count() == old(pmm)@.free_count() + n,
        old(pmm)@.counted() ==> final(pmm)@.counted(),
        forall|f: int|
            0 <= f < MAX_MANAGED_PAGES ==> #[trigger] final(pmm)@.used[f] == (old(pmm)@.used[f]
                && !exists|i: int| 0 <= i < n && (#[trigger] pages@[i]).0 == 4096 * f),
{
    let ghost pool = pmm@;
    let mut j: usize = 0;
    while j < n
        invariant
            pool == old(pmm)@,
            pmm@.wf(),
            j <= n <= MAX_BATCH,
            forall|i: int|
                0 <= i < n ==> {
                    let f = (#[trigger] pages@[i]).0 as int / 4096;
                    &&& pages@[i].0 == 4096 * f
                    &&& 0 < f < pool.total()
                    &&& pool.used[f]
                },
            forall|i: int, k: int| 0 <= i < k < n ==> #[trigger] pages@[i] != #[trigger] pages@[k],
            pmm@.total() == pool.total(),
            pmm@.stats.usable_pages == pool.stats.usable_pages,
            pmm@.free_count() == pool.free_count() + j,
            pool.counted() ==> pmm@.counted(),
            forall|f: int|
                0 <= f < MAX_MANAGED_PAGES ==> #[trigger] pmm@.used[f] == (pool.used[f]
                    && !exists|i: int| 0 <= i < j && (#[trigger] pages@[i]).0 == 4096 * f),
        decreases n - j,
    {
        let ghost before = pmm@;
        let page = pages[j];
        let ghost g = page.0 as int / 4096;
        proof {
            assert(page == pages@[j as int]);
            assert(before.used[g]) by {
                if exists|i: int| 0 <= i < j && (#[trigger] pages@[i]).0 == 4096 * g {
                    let i = choose|i: int| 0 <= i < j && (#[trigger] pages@[i]).0 == 4096 * g;
                    assert(pages@[i] != pages@[j as int]);
                }
            }
            assert(before.refusal(page) is None);
            lemma_give(before, page);
        }
        let _ = free_physical_page(pmm, page);
        assert forall|f: int| 0 <= f < MAX_MANAGED_PAGES implies #[trigger] pmm@.used[f] == (
        pool.used[f] && !exists|i: int| 0 <= i < j + 1 && (#[trigger] pages@[i]).0 == 4096 * f) by {
            assert(before.used[f] == (pool.used[f] && !exists|i: int|
                0 <= i < j && (#[trigger] pages@[i]).0 == 4096 * f));
            if f == g {
                assert(pages@[j as int].0 == 4096 * f);
            } else if exists|i: int| 0 <= i < j + 1 && (#[trigger] pages@[i]).0 == 4096 * f {
                let i = choose|i: int| 0 <= i < j + 1 && (#[trigger] pages@[i]).0 == 4096 * f;
                assert(i != j);
            }
        }
        j = j + 1;
    }
}

/// Hands out the first `n` free pages, or none.
#[verifier::rlimit(30)]
pub(crate) fn allocate_batch(
    pmm: &mut PageAllocator,
    pages: &mut [PhysPage; MAX_BATCH],
    n: usize,
) -> (r: bool)
    requires
        old(pmm)@.wf(),
        n <= MAX_BATCH,
    ensures
        final(pmm)@.wf(),
        r == (n <= old(pmm)@.free_count()),
        r ==> {
            &&& old(pmm)@.without_first(n as int, final(pmm)@)
            &&& forall|i: int|
                0 <= i < n ==> (#[trigger] final(pages)@[i]).0 == 4096 * old(pmm)@.nth_free(i)
        },
        !r ==> old(pmm)@.same_pages(final(pmm)@),
{
    let ghost pool = pmm@;
    proof {
        assert forall|f: int| 0 <= f < pool.used.len() implies #[trigger] pool.used[f] == (
        pool.used[f] || (pool.is_free(f) && count_free(pool.used, f as nat) < 0)) by {}
    }
    let mut i: usize = 0;
    while i < n
        invariant
            pool == old(pmm)@,
            pool.wf(),
            pmm@.wf(),
            i <= n <= MAX_BATCH,
            pool.without_first(i as int, pmm@),
            i <= pool.free_count(),
            forall|k: int| 0 <= k < i ==> (#[trigger] pages@[k]).0 == 4096 * pool.nth_free(k),
        decreases n - i,
    {
        let ghost left = pmm@;
        match allocate_physical_page(pmm) {
            Some(p) => {
                proof {
                    lemma_next_free(pool, left, i as int, p.0 as int / 4096);
                }
                pages[i] = p;
                i = i + 1;
            },
            None => {
                proof {
                    assert forall|k: int| 0 <= k < i implies {
                        let f = (#[trigger] pages@[k]).0 as int / 4096;
                        &&& pages@[k].0 == 4096 * f
                        &&& 0 < f < left.total()
                        &&& left.used[f]
                    } by {
                        lemma_nth_free(pool, k);
                    }
                    assert forall|a: int, b: int| 0 <= a < b < i implies #[trigger] pages@[a]
                        != #[trigger] pages@[b] by {
                        lemma_nth_free_distinct(pool, a, b);
                    }
                }
                free_batch(pmm, pages, i);
                proof {
                    assert forall|f: int| 0 <= f < MAX_MANAGED_PAGES implies pmm@.used[f]
                        == pool.used[f] by {
                        assert(left.used[f] == (pool.used[f] || (pool.is_free(f) && count_free(
                            pool.used,
                            f as nat,
                        ) < i)));
                        if pool.is_free(f) && count_free(pool.used, f as nat) < i {
                            lemma_among_first(pool, i as int, f);
                            assert(pages@[count_free(pool.used, f as nat) as int].0 == 4096 * f);
                        } else if exists|k: int| 0 <= k < i && (#[trigger] pages@[k]).0 == 4096 * f {
                            let k = choose|k: int| 0 <= k < i && (#[trigger] pages@[k]).0 == 4096 * f;
                            lemma_nth_free(pool, k);
                        }
                    }
                    assert(pmm@.used =~= pool.used);
                    lemma_count_free(pool);
                    if pool.counted() {
                        lemma_stats_counted(pool, left, i as int);
                    }
                }
                return false;
            },
        }
    }
    true
}

/// Right totals stay right as pages are handed out.
pub proof fn lemma_stats_counted(pool: FramePool, left: FramePool, n: int)
    requires
        pool.wf(),
        left.stats == pool.stats_after_takes(n),
        left.free_count() == pool.free_count() - n,
        0 <= n,
        pool.counted(),
    ensures
        left.counted(),
{
    lemma_count_free(pool);
}

} // verus!
