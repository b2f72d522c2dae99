//! The blocks that a heap is divided into, and their image in memory.
//!
//! A heap is a chain of blocks without gaps. Each block is a header of four
//! words (its mark, its size, the addresses of the blocks before and after it)
//! and a payload.

use vstd::prelude::*;

verus! {

/// The mark of a block header: `VENT`.
pub const HEAP_MAGIC: u32 = 0x5645_4E54;

/// The bytes of a block header.
pub const HEADER_SIZE: u64 = 32;

/// The least payload that a block is split for.
pub const MIN_BLOCK_PAYLOAD: u64 = 16;

/// What a released payload is filled with.
pub const POISON: u64 = 0xDEDE_DEDE_DEDE_DEDE;

/// A block: where its header is, the bytes of its payload, whether it is free,
/// and the mark in its header.
pub struct Block {
    pub addr: int,
    pub size: int,
    pub free: bool,
    pub magic: u32,
}

impl Block {
    /// The address after the block.
    pub open spec fn end(self) -> int {
        self.addr + 32 + self.size
    }

    /// The block can serve a request for `size` bytes.
    pub open spec fn fits(self, size: int) -> bool {
        self.free && self.size >= size
    }

    /// The header carries the mark.
    pub open spec fn marked(self) -> bool {
        self.magic == HEAP_MAGIC
    }

    /// Address `x` lies in the payload.
    pub open spec fn holds(self, x: int) -> bool {
        self.addr + 32 <= x < self.end()
    }
}

/// Block `k` starts where the one before it ends.
pub open spec fn follows(bs: Seq<Block>, k: int) -> bool {
    bs[k].addr == bs[k - 1].end()
}

/// The blocks `bs` fill the addresses from `start` to `end`, in order and in
/// units of 16 bytes.
pub open spec fn chained(start: int, end: int, bs: Seq<Block>) -> bool {
    &&& bs.len() > 0
    &&& bs[0].addr == start
    &&& bs[bs.len() - 1].end() == end
    &&& forall|k: int|
        0 <= k < bs.len() ==> (#[trigger] bs[k]).addr % 16 == 0 && bs[k].size % 16 == 0
            && bs[k].size >= 16 && start <= bs[k].addr && bs[k].end() <= end
    &&& forall|k: int| 0 < k < bs.len() ==> #[trigger] follows(bs, k)
    &&& forall|i: int, j: int|
        0 <= i < j < bs.len() ==> (#[trigger] bs[i]).end() <= (#[trigger] bs[j]).addr
}

/// The payload bytes of the blocks that are free, or of those that are not.
pub open spec fn payload(bs: Seq<Block>, free: bool) -> int
    decreases bs.len(),
{
    if bs.len() == 0 {
        0
    } else {
        payload(bs.drop_last(), free) + if bs.last().free == free {
            bs.last().size
        } else {
            0
        }
    }
}

/// What one block adds to `payload`.
pub open spec fn share(b: Block, free: bool) -> int {
    if b.free == free {
        b.size
    } else {
        0
    }
}

pub proof fn lemma_payload_update(bs: Seq<Block>, k: int, b: Block, free: bool)
    requires
        0 <= k < bs.len(),
    ensures
        payload(bs.update(k, b), free) == payload(bs, free) - share(bs[k], free) + share(b, free),
    decreases bs.len(),
{
    let after = bs.update(k, b);
    if k == bs.len() - 1 {
        assert(after.drop_last() =~= bs.drop_last());
    } else {
        assert(after.drop_last() =~= bs.drop_last().update(k, b));
        lemma_payload_update(bs.drop_last(), k, b, free);
    }
}

pub proof fn lemma_payload_insert(bs: Seq<Block>, k: int, b: Block, free: bool)
    requires
        0 <= k <= bs.len(),
    ensures
        payload(bs.insert(k, b), free) == payload(bs, free) + share(b, free),
    decreases bs.len(),
{
    let after = bs.insert(k, b);
    if k == bs.len() {
        assert(after.drop_last() =~= bs);
    } else {
        assert(after.drop_last() =~= bs.drop_last().insert(k, b));
        assert(after.last() == bs.last());
        lemma_payload_insert(bs.drop_last(), k, b, free);
    }
}

pub proof fn lemma_payload_remove(bs: Seq<Block>, k: int, free: bool)
    requires
        0 <= k < bs.len(),
    ensures
        payload(bs.remove(k), free) == payload(bs, free) - share(bs[k], free),
    decreases bs.len(),
{
    let after = bs.remove(k);
    if k == bs.len() - 1 {
        assert(after =~= bs.drop_last());
    } else {
        assert(after.drop_last() =~= bs.drop_last().remove(k));
        assert(after.last() == bs.last());
        lemma_payload_remove(bs.drop_last(), k, free);
    }
}

/// Headers and payloads make up the whole.
pub proof fn lemma_payload_total(start: int, bs: Seq<Block>)
    requires
        bs.len() > 0 ==> bs[0].addr == start,
        forall|k: int| 0 < k < bs.len() ==> #[trigger] follows(bs, k),
    ensures
        payload(bs, true) + payload(bs, false) + 32 * bs.len() == if bs.len() > 0 {
            bs[bs.len() - 1].end() - start
        } else {
            0
        },
    decreases bs.len(),
{
    if bs.len() > 0 {
        let front = bs.drop_last();
        assert forall|k: int| 0 < k < front.len() implies #[trigger] follows(front, k) by {
            assert(follows(bs, k));
        }
        lemma_payload_total(start, front);
        if bs.len() > 1 {
            assert(follows(bs, bs.len() - 1));
        }
    }
}

/// Payloads are not negative.
pub proof fn lemma_payload_bound(bs: Seq<Block>, free: bool)
    requires
        forall|k: int| 0 <= k < bs.len() ==> (#[trigger] bs[k]).size >= 0,
    ensures
        payload(bs, free) >= 0,
        forall|k: int|
            0 <= k < bs.len() && (#[trigger] bs[k]).free == free ==> bs[k].size <= payload(
                bs,
                free,
            ),
    decreases bs.len(),
{
    if bs.len() > 0 {
        assert forall|k: int| 0 <= k < bs.drop_last().len() implies (
        #[trigger] bs.drop_last()[k]).size >= 0 by {
            assert(bs[k].size >= 0);
        }
        lemma_payload_bound(bs.drop_last(), free);
        assert forall|k: int| 0 <= k < bs.len() && (#[trigger] bs[k]).free == free implies bs[k].size
            <= payload(bs, free) by {
            if k < bs.len() - 1 {
                assert(bs.drop_last()[k] == bs[k]);
            }
        }
    }
}

/// The blocks once block `k` has been marked as free or not.
pub open spec fn marked_free(bs: Seq<Block>, k: int, free: bool) -> Seq<Block> {
    bs.update(k, Block { free, ..bs[k] })
}

/// The blocks once free block `k` has been cut down to `size` bytes and the rest
/// of it is a free block of its own.
pub open spec fn split(bs: Seq<Block>, k: int, size: int) -> Seq<Block> {
    bs.update(k, Block { size, ..bs[k] }).insert(
        k + 1,
        Block {
            addr: bs[k].addr + 32 + size,
            size: bs[k].size - size - 32,
            free: true,
            magic: HEAP_MAGIC,
        },
    )
}

/// The blocks once block `k` has taken in the one after it.
pub open spec fn merged(bs: Seq<Block>, k: int) -> Seq<Block> {
    bs.update(k, Block { size: bs[k].size + 32 + bs[k + 1].size, ..bs[k] }).remove(k + 1)
}

pub proof fn lemma_marked_free(start: int, end: int, bs: Seq<Block>, k: int, free: bool)
    requires
        chained(start, end, bs),
        0 <= k < bs.len(),
    ensures
        chained(start, end, marked_free(bs, k, free)),
        payload(marked_free(bs, k, free), free) == payload(bs, free) + bs[k].size - share(
            bs[k],
            free,
        ),
        payload(marked_free(bs, k, free), !free) == payload(bs, !free) - share(bs[k], !free),
{
    let b = Block { free, ..bs[k] };
    let after = marked_free(bs, k, free);
    lemma_payload_update(bs, k, b, true);
    lemma_payload_update(bs, k, b, false);
    assert forall|i: int| 0 < i < after.len() implies #[trigger] follows(after, i) by {
        assert(follows(bs, i));
    }
}

#[verifier::rlimit(20)]
pub proof fn lemma_split(start: int, end: int, bs: Seq<Block>, k: int, size: int)
    requires
        chained(start, end, bs),
        0 <= k < bs.len(),
        bs[k].free,
        size % 16 == 0,
        16 <= size,
        bs[k].size - size >= 48,
    ensures
        chained(start, end, split(bs, k, size)),
        payload(split(bs, k, size), true) == payload(bs, true) - 32,
        payload(split(bs, k, size), false) == payload(bs, false),
{
    let cut = Block { size, ..bs[k] };
    let rest = Block {
        addr: bs[k].addr + 32 + size,
        size: bs[k].size - size - 32,
        free: true,
        magic: HEAP_MAGIC,
    };
    let mid = bs.update(k, cut);
    let after = split(bs, k, size);
    lemma_payload_update(bs, k, cut, true);
    lemma_payload_update(bs, k, cut, false);
    lemma_payload_insert(mid, k + 1, rest, true);
    lemma_payload_insert(mid, k + 1, rest, false);
    assert forall|i: int| 0 <= i < after.len() implies #[trigger] after[i] == if i < k {
        bs[i]
    } else if i == k {
        cut
    } else if i == k + 1 {
        rest
    } else {
        bs[i - 1]
    } by {}
    assert forall|i: int| 0 < i < after.len() implies #[trigger] follows(after, i) by {
        if i <= k {
            assert(follows(bs, i));
        } else if i >= k + 2 {
            assert(follows(bs, i - 1));
        }
    }
}

pub proof fn lemma_merged(start: int, end: int, bs: Seq<Block>, k: int)
    requires
        chained(start, end, bs),
        0 <= k,
        k + 1 < bs.len(),
        bs[k].free,
        bs[k + 1].free,
    ensures
        chained(start, end, merged(bs, k)),
        payload(merged(bs, k), true) == payload(bs, true) + 32,
        payload(merged(bs, k), false) == payload(bs, false),
{
    let big = Block { size: bs[k].size + 32 + bs[k + 1].size, ..bs[k] };
    let mid = bs.update(k, big);
    let after = merged(bs, k);
    assert(follows(bs, k + 1));
    lemma_payload_update(bs, k, big, true);
    lemma_payload_update(bs, k, big, false);
    lemma_payload_remove(mid, k + 1, true);
    lemma_payload_remove(mid, k + 1, false);
    assert forall|i: int| 0 <= i < after.len() implies #[trigger] after[i] == if i < k {
        bs[i]
    } else if i == k {
        big
    } else {
        bs[i + 1]
    } by {}
    assert forall|i: int| 0 < i < after.len() implies #[trigger] follows(after, i) by {
        if i <= k {
            assert(follows(bs, i));
        } else {
            assert(follows(bs, i + 1));
        }
    }
}

/// The first word of a header.
pub open spec fn tag(magic: u32, free: bool) -> u64 {
    (magic + if free {
        0x1_0000_0000int
    } else {
        0
    }) as u64
}

/// Where word `j` of the header at `addr` is among the words from `start` on.
pub open spec fn place(start: int, addr: int, j: int) -> int {
    (addr - start) / 8 + j
}

/// The address of the block before block `k`; 0 if there is none.
pub open spec fn prev_addr(bs: Seq<Block>, k: int) -> u64 {
    if k > 0 {
        bs[k - 1].addr as u64
    } else {
        0
    }
}

/// The address of the block after block `k`; 0 if there is none.
pub open spec fn next_addr(bs: Seq<Block>, k: int) -> u64 {
    if k + 1 < bs.len() {
        bs[k + 1].addr as u64
    } else {
        0
    }
}

/// The words `ws` from `start` on hold the header of block `k`.
pub open spec fn header_in(ws: Seq<u64>, start: int, bs: Seq<Block>, k: int) -> bool {
    &&& ws[place(start, bs[k].addr, 0)] == tag(bs[k].magic, bs[k].free)
    &&& ws[place(start, bs[k].addr, 1)] == bs[k].size as u64
    &&& ws[place(start, bs[k].addr, 2)] == prev_addr(bs, k)
    &&& ws[place(start, bs[k].addr, 3)] == next_addr(bs, k)
}

/// The words `ws` from `start` on hold the headers of the blocks `bs`, which
/// fill them.
#[verifier::opaque]
pub open spec fn image(ws: Seq<u64>, start: int, bs: Seq<Block>) -> bool {
    &&& chained(start, start + 8 * ws.len(), bs)
    &&& 0 < start
    &&& start + 8 * ws.len() <= u64::MAX
    &&& forall|k: int| 0 <= k < bs.len() ==> #[trigger] header_in(ws, start, bs, k)
}

/// Where a header in units of 16 bytes is.
proof fn lemma_place(start: int, addr: int)
    requires
        start % 16 == 0,
        addr % 16 == 0,
    ensures
        8 * place(start, addr, 0) == addr - start,
{
    assert((addr - start) % 16 == 0);
}

/// Headers do not meet.
pub proof fn lemma_places(ws: Seq<u64>, start: int, bs: Seq<Block>, i: int, j: int)
    requires
        chained(start, start + 8 * ws.len(), bs),
        0 <= i < bs.len(),
        0 <= j < bs.len(),
    ensures
        0 <= place(start, bs[i].addr, 0),
        place(start, bs[i].addr, 3) + 2 < ws.len(),
        i < j ==> place(start, bs[i].addr, 3) + 2 < place(start, bs[j].addr, 0),
        j < i ==> place(start, bs[j].addr, 3) + 2 < place(start, bs[i].addr, 0),
        (bs[i].addr - start) / 8 * 8 == bs[i].addr - start,
{
    let a = bs[i];
    let b = bs[j];
    assert(bs[0].addr % 16 == 0);
    assert(a.addr % 16 == 0 && a.size >= 16 && start <= a.addr && a.end() <= start + 8 * ws.len());
    assert(b.addr % 16 == 0 && b.size >= 16);
    assert(i < j ==> a.end() <= b.addr);
    assert(j < i ==> b.end() <= a.addr);
    lemma_place(start, a.addr);
    lemma_place(start, b.addr);
}

/// Address `x` lies in the payload of a block that is not free.
pub open spec fn live(bs: Seq<Block>, x: int) -> bool {
    exists|k: int| 0 <= k < bs.len() && !bs[k].free && (#[trigger] bs[k]).holds(x)
}

/// The words of the live payloads are the same.
pub open spec fn keeps(ws0: Seq<u64>, ws1: Seq<u64>, start: int, bs: Seq<Block>) -> bool {
    &&& ws1.len() >= ws0.len()
    &&& forall|i: int|
        0 <= i < ws0.len() && live(bs, start + 8 * i) ==> #[trigger] ws1[i] == ws0[i]
}

/// A word of a header is in no payload.
pub proof fn lemma_header_not_live(
    ws: Seq<u64>,
    start: int,
    bs: Seq<Block>,
    k: int,
    j: int,
)
    requires
        chained(start, start + 8 * ws.len(), bs),
        0 <= k < bs.len(),
        0 <= j < 4,
    ensures
        !live(bs, start + 8 * place(start, bs[k].addr, j)),
{
    let x = start + 8 * place(start, bs[k].addr, j);
    lemma_places(ws, start, bs, k, k);
    assert(bs[k].addr <= x < bs[k].addr + 32);
    assert forall|i: int| 0 <= i < bs.len() && !bs[i].free implies !(#[trigger] bs[i]).holds(
        x,
    ) by {
        if i < k {
            assert(bs[i].end() <= bs[k].addr);
        } else if k < i {
            assert(bs[k].end() <= bs[i].addr);
        }
    }
}

/// Marking a block changes the first word of its header.
pub proof fn lemma_image_marked(ws: Seq<u64>, start: int, bs: Seq<Block>, k: int, free: bool)
    requires
        image(ws, start, bs),
        0 <= k < bs.len(),
    ensures
        ({
            let ws1 = ws.update(place(start, bs[k].addr, 0), tag(bs[k].magic, free));
            &&& image(ws1, start, marked_free(bs, k, free))
            &&& keeps(ws, ws1, start, bs)
        }),
{
    reveal(image);
    let p = place(start, bs[k].addr, 0);
    let ws1 = ws.update(p, tag(bs[k].magic, free));
    let after = marked_free(bs, k, free);
    lemma_marked_free(start, start + 8 * ws.len(), bs, k, free);
    assert forall|i: int| 0 <= i < after.len() implies #[trigger] header_in(
        ws1,
        start,
        after,
        i,
    ) by {
        assert(header_in(ws, start, bs, i));
        lemma_places(ws, start, bs, i, k);
        assert(prev_addr(after, i) == prev_addr(bs, i));
        assert(next_addr(after, i) == next_addr(bs, i));
    }
    lemma_header_not_live(ws, start, bs, k, 0);
}

/// The words that a merge of block `k` with the next one leaves.
pub open spec fn merge_words(ws: Seq<u64>, start: int, bs: Seq<Block>, k: int) -> Seq<u64> {
    let grown = ws.update(
        place(start, bs[k].addr, 1),
        (bs[k].size + 32 + bs[k + 1].size) as u64,
    ).update(place(start, bs[k].addr, 3), next_addr(bs, k + 1));
    if k + 2 < bs.len() {
        grown.update(place(start, bs[k + 2].addr, 2), bs[k].addr as u64)
    } else {
        grown
    }
}

/// Free blocks that merge leave the live payloads.
pub proof fn lemma_merged_live(bs: Seq<Block>, k: int, x: int)
    requires
        0 <= k,
        k + 1 < bs.len(),
        bs[k].free,
        bs[k + 1].free,
    ensures
        live(merged(bs, k), x) <==> live(bs, x),
{
    let after = merged(bs, k);
    if live(after, x) {
        let i = choose|i: int|
            0 <= i < after.len() && !after[i].free && (#[trigger] after[i]).holds(x);
        let o = if i <= k {
            i
        } else {
            i + 1
        };
        assert(after[i] == bs[o]);
        assert(bs[o].holds(x));
    }
    if live(bs, x) {
        let o = choose|o: int| 0 <= o < bs.len() && !bs[o].free && (#[trigger] bs[o]).holds(x);
        let i = if o <= k {
            o
        } else {
            o - 1
        };
        assert(after[i] == bs[o]);
        assert(after[i].holds(x));
    }
}

/// The headers of the blocks other than the merged one.
#[verifier::rlimit(30)]
proof fn lemma_merged_header(ws: Seq<u64>, start: int, bs: Seq<Block>, k: int, i: int)
    requires
        image(ws, start, bs),
        0 <= k,
        k + 1 < bs.len(),
        bs[k].free,
        bs[k + 1].free,
        0 <= i < bs.len() - 1,
    ensures
        header_in(merge_words(ws, start, bs, k), start, merged(bs, k), i),
{
    reveal(image);
    let after = merged(bs, k);
    let o = if i <= k {
        i
    } else {
        i + 1
    };
    assert(header_in(ws, start, bs, o));
    lemma_places(ws, start, bs, o, k);
    lemma_places(ws, start, bs, k, k + 1);
    if k + 2 < bs.len() {
        lemma_places(ws, start, bs, o, k + 2);
        lemma_places(ws, start, bs, k, k + 2);
    }
    assert(after[i].addr == bs[o].addr);
}

pub proof fn lemma_image_merged(ws: Seq<u64>, start: int, bs: Seq<Block>, k: int)
    requires
        image(ws, start, bs),
        0 <= k,
        k + 1 < bs.len(),
        bs[k].free,
        bs[k + 1].free,
    ensures
        image(merge_words(ws, start, bs, k), start, merged(bs, k)),
        keeps(ws, merge_words(ws, start, bs, k), start, bs),
{
    reveal(image);
    let ws1 = merge_words(ws, start, bs, k);
    let after = merged(bs, k);
    lemma_merged(start, start + 8 * ws.len(), bs, k);
    assert forall|i: int| 0 <= i < after.len() implies #[trigger] header_in(
        ws1,
        start,
        after,
        i,
    ) by {
        lemma_merged_header(ws, start, bs, k, i);
    }
    if k + 2 < bs.len() {
        lemma_header_not_live(ws, start, bs, k + 2, 2);
    }
    lemma_header_not_live(ws, start, bs, k, 1);
    lemma_header_not_live(ws, start, bs, k, 3);
}

/// The words that splitting block `k` leaves.
pub open spec fn split_words(
    ws: Seq<u64>,
    start: int,
    bs: Seq<Block>,
    k: int,
    size: int,
) -> Seq<u64> {
    let rest = bs[k].addr + 32 + size;
    let put = ws.update(place(start, rest, 0), tag(HEAP_MAGIC, true)).update(
        place(start, rest, 1),
        (bs[k].size - size - 32) as u64,
    ).update(place(start, rest, 2), bs[k].addr as u64).update(
        place(start, rest, 3),
        next_addr(bs, k),
    );
    let linked = if k + 1 < bs.len() {
        put.update(place(start, bs[k + 1].addr, 2), rest as u64)
    } else {
        put
    };
    linked.update(place(start, bs[k].addr, 3), rest as u64).update(
        place(start, bs[k].addr, 1),
        size as u64,
    )
}

/// Splitting a free block leaves the live payloads.
pub proof fn lemma_split_live(bs: Seq<Block>, k: int, size: int, x: int)
    requires
        0 <= k < bs.len(),
        bs[k].free,
    ensures
        live(split(bs, k, size), x) <==> live(bs, x),
{
    let after = split(bs, k, size);
    if live(after, x) {
        let i = choose|i: int|
            0 <= i < after.len() && !after[i].free && (#[trigger] after[i]).holds(x);
        let o = if i <= k {
            i
        } else {
            i - 1
        };
        assert(after[i] == bs[o]);
        assert(bs[o].holds(x));
    }
    if live(bs, x) {
        let o = choose|o: int| 0 <= o < bs.len() && !bs[o].free && (#[trigger] bs[o]).holds(x);
        let i = if o <= k {
            o
        } else {
            o + 1
        };
        assert(after[i] == bs[o]);
        assert(after[i].holds(x));
    }
}

/// One word after a split.
proof fn lemma_split_word(ws: Seq<u64>, start: int, bs: Seq<Block>, k: int, size: int, x: int)
    requires
        0 <= k < bs.len(),
        0 <= x < ws.len(),
        0 <= place(start, bs[k].addr, 0),
        place(start, bs[k].addr, 3) < ws.len(),
        0 <= place(start, bs[k].addr + 32 + size, 0),
        place(start, bs[k].addr + 32 + size, 3) < ws.len(),
        k + 1 < bs.len() ==> 0 <= place(start, bs[k + 1].addr, 2) < ws.len(),
    ensures
        ({
            let rest = bs[k].addr + 32 + size;
            let p = place(start, rest, 0);
            let q = place(start, bs[k].addr, 0);
            &&& split_words(ws, start, bs, k, size).len() == ws.len()
            &&& split_words(ws, start, bs, k, size)[x] == if x == q + 1 {
                size as u64
            } else if x == q + 3 {
                rest as u64
            } else if k + 1 < bs.len() && x == place(start, bs[k + 1].addr, 2) {
                rest as u64
            } else if x == p + 3 {
                next_addr(bs, k)
            } else if x == p + 2 {
                bs[k].addr as u64
            } else if x == p + 1 {
                (bs[k].size - size - 32) as u64
            } else if x == p {
                tag(HEAP_MAGIC, true)
            } else {
                ws[x]
            }
        }),
{
}

/// Header `i` of the blocks after a split, once it is known to be apart from
/// the others.
proof fn lemma_split_header_apart(
    ws: Seq<u64>,
    start: int,
    bs: Seq<Block>,
    k: int,
    size: int,
    i: int,
)
    requires
        0 <= k < bs.len(),
        0 <= i < bs.len() + 1,
        i != k + 1 ==> header_in(
            ws,
            start,
            bs,
            if i <= k {
                i
            } else {
                i - 1
            },
        ),
        ({
            let a = place(start, split(bs, k, size)[i].addr, 0);
            let p = place(start, bs[k].addr + 32 + size, 0);
            let q = place(start, bs[k].addr, 0);
            let n = place(start, bs[k + 1].addr, 0);
            &&& 0 <= a && a + 3 < ws.len()
            &&& 0 <= p && p + 3 < ws.len()
            &&& 0 <= q && q + 3 < ws.len()
            &&& q + 3 < p
            &&& k + 1 < bs.len() ==> p + 3 < n && n + 3 < ws.len()
            &&& i < k ==> a + 3 < q
            &&& i > k + 1 ==> p + 3 < a
            &&& i > k + 2 ==> n + 3 < a
        }),
    ensures
        header_in(split_words(ws, start, bs, k, size), start, split(bs, k, size), i),
{
    let after = split(bs, k, size);
    let a = place(start, after[i].addr, 0);
    lemma_split_word(ws, start, bs, k, size, a);
    lemma_split_word(ws, start, bs, k, size, a + 1);
    lemma_split_word(ws, start, bs, k, size, a + 2);
    lemma_split_word(ws, start, bs, k, size, a + 3);
    if i <= k {
        assert(after[i].addr == bs[i].addr);
        assert(prev_addr(after, i) == prev_addr(bs, i));
        if i < k {
            assert(after[i] == bs[i]);
            assert(next_addr(after, i) == next_addr(bs, i));
        }
    } else if i == k + 1 {
        assert(next_addr(after, i) == next_addr(bs, k));
    } else {
        assert(after[i] == bs[i - 1]);
        assert(next_addr(after, i) == next_addr(bs, i - 1));
        if i > k + 2 {
            assert(prev_addr(after, i) == prev_addr(bs, i - 1));
        }
    }
}

proof fn lemma_split_header(
    ws: Seq<u64>,
    start: int,
    bs: Seq<Block>,
    k: int,
    size: int,
    i: int,
)
    requires
        image(ws, start, bs),
        chained(start, start + 8 * ws.len(), split(bs, k, size)),
        0 <= k < bs.len(),
        0 <= i < bs.len() + 1,
    ensures
        header_in(split_words(ws, start, bs, k, size), start, split(bs, k, size), i),
{
    reveal(image);
    let after = split(bs, k, size);
    lemma_places(ws, start, after, i, k);
    lemma_places(ws, start, after, i, k + 1);
    lemma_places(ws, start, after, k, k + 1);
    lemma_places(ws, start, after, k + 1, k);
    if k + 1 < bs.len() {
        lemma_places(ws, start, after, i, k + 2);
        lemma_places(ws, start, after, k + 1, k + 2);
        lemma_places(ws, start, after, k + 2, k + 1);
        assert(after[k + 2] == bs[k + 1]);
    }
    assert(after[k].addr == bs[k].addr);
    assert(after[k + 1].addr == bs[k].addr + 32 + size);
    if i <= k {
        assert(header_in(ws, start, bs, i));
    } else if i > k + 1 {
        assert(header_in(ws, start, bs, i - 1));
    }
    lemma_split_header_apart(ws, start, bs, k, size, i);
}

/// The words that a split writes are in no live payload.
proof fn lemma_split_keeps(ws: Seq<u64>, start: int, bs: Seq<Block>, k: int, size: int)
    requires
        image(ws, start, bs),
        chained(start, start + 8 * ws.len(), split(bs, k, size)),
        0 <= k < bs.len(),
        bs[k].free,
    ensures
        keeps(ws, split_words(ws, start, bs, k, size), start, bs),
{
    reveal(image);
    let after = split(bs, k, size);
    let ws1 = split_words(ws, start, bs, k, size);
    assert(after[k + 1].addr == bs[k].addr + 32 + size);
    lemma_header_not_live(ws, start, after, k + 1, 0);
    lemma_header_not_live(ws, start, after, k + 1, 1);
    lemma_header_not_live(ws, start, after, k + 1, 2);
    lemma_header_not_live(ws, start, after, k + 1, 3);
    lemma_header_not_live(ws, start, bs, k, 1);
    lemma_header_not_live(ws, start, bs, k, 3);
    if k + 1 < bs.len() {
        lemma_header_not_live(ws, start, bs, k + 1, 2);
    }
    assert forall|i: int| 0 <= i < ws.len() && live(bs, start + 8 * i) implies #[trigger] ws1[i]
        == ws[i] by {
        lemma_split_live(bs, k, size, start + 8 * i);
    }
}

pub proof fn lemma_image_split(ws: Seq<u64>, start: int, bs: Seq<Block>, k: int, size: int)
    requires
        image(ws, start, bs),
        0 <= k < bs.len(),
        bs[k].free,
        size % 16 == 0,
        16 <= size,
        bs[k].size - size >= 48,
    ensures
        image(split_words(ws, start, bs, k, size), start, split(bs, k, size)),
        keeps(ws, split_words(ws, start, bs, k, size), start, bs),
{
    reveal(image);
    let ws1 = split_words(ws, start, bs, k, size);
    let after = split(bs, k, size);
    lemma_split(start, start + 8 * ws.len(), bs, k, size);
    assert forall|i: int| 0 <= i < after.len() implies #[trigger] header_in(
        ws1,
        start,
        after,
        i,
    ) by {
        lemma_split_header(ws, start, bs, k, size, i);
    }
    lemma_split_keeps(ws, start, bs, k, size);
}

/// The blocks once block `k` serves a request for `size` bytes: what is left of
/// it stays free where it makes a block.
pub open spec fn taken(bs: Seq<Block>, k: int, size: int) -> Seq<Block> {
    marked_free(
        if bs[k].size - size >= 32 + MIN_BLOCK_PAYLOAD {
            split(bs, k, size)
        } else {
            bs
        },
        k,
        false,
    )
}

/// The first block from `i` on that lost its mark or fits a request for `size`
/// bytes.
pub open spec fn stop_from(bs: Seq<Block>, size: int, i: int) -> Option<int>
    decreases bs.len() - i,
{
    if i >= bs.len() {
        None
    } else if !bs[i].marked() || bs[i].fits(size) {
        Some(i)
    } else {
        stop_from(bs, size, i + 1)
    }
}

/// Where a search stops is the first place for it.
pub proof fn lemma_stop(bs: Seq<Block>, size: int, i: int)
    requires
        0 <= i <= bs.len(),
    ensures
        match stop_from(bs, size, i) {
            Some(k) => i <= k < bs.len() && (!bs[k].marked() || bs[k].fits(size)) && forall|j: int|
                i <= j < k ==> (#[trigger] bs[j]).marked() && !bs[j].fits(size),
            None => forall|j: int|
                i <= j < bs.len() ==> (#[trigger] bs[j]).marked() && !bs[j].fits(size),
        },
    decreases bs.len() - i,
{
    if i < bs.len() && bs[i].marked() && !bs[i].fits(size) {
        lemma_stop(bs, size, i + 1);
    }
}

/// Keeping the live payloads, twice.
pub proof fn lemma_keeps_transitive(
    ws0: Seq<u64>,
    ws1: Seq<u64>,
    ws2: Seq<u64>,
    start: int,
    bs0: Seq<Block>,
    bs1: Seq<Block>,
)
    requires
        keeps(ws0, ws1, start, bs0),
        keeps(ws1, ws2, start, bs1),
        forall|x: int| live(bs0, x) ==> #[trigger] live(bs1, x),
    ensures
        keeps(ws0, ws2, start, bs0),
{
    assert forall|i: int| 0 <= i < ws0.len() && live(bs0, start + 8 * i) implies #[trigger] ws2[i]
        == ws0[i] by {
        assert(live(bs1, start + 8 * i));
        assert(ws1[i] == ws0[i]);
    }
}

/// The words after a header of a free block was written at `addr`.
pub open spec fn header_words(
    ws: Seq<u64>,
    start: int,
    addr: int,
    size: u64,
    prev: u64,
    next: u64,
) -> Seq<u64> {
    ws.update(place(start, addr, 0), tag(HEAP_MAGIC, true)).update(
        place(start, addr, 1),
        size,
    ).update(place(start, addr, 2), prev).update(place(start, addr, 3), next)
}

/// The blocks with a free block of `bytes` bytes, its header counted, behind
/// them.
pub open spec fn appended(bs: Seq<Block>, bytes: int) -> Seq<Block> {
    bs.push(
        Block { addr: bs[bs.len() - 1].end(), size: bytes - 32, free: true, magic: HEAP_MAGIC },
    )
}

/// The blocks after `bytes` bytes were added behind them: a free last block
/// takes them in.
pub open spec fn extended(bs: Seq<Block>, bytes: int) -> Seq<Block> {
    if bs[bs.len() - 1].free {
        merged(appended(bs, bytes), bs.len() - 1)
    } else {
        appended(bs, bytes)
    }
}

/// The words `ws`, which are the words of the blocks `bs` and `bytes` bytes
/// behind them, after a free block was put there.
pub open spec fn append_words(
    ws: Seq<u64>,
    start: int,
    bs: Seq<Block>,
    bytes: int,
) -> Seq<u64> {
    let last = bs[bs.len() - 1];
    header_words(ws, start, last.end(), (bytes - 32) as u64, last.addr as u64, 0).update(
        place(start, last.addr, 3),
        last.end() as u64,
    )
}

pub proof fn lemma_appended(start: int, end: int, bs: Seq<Block>, bytes: int)
    requires
        chained(start, end, bs),
        bytes % 16 == 0,
        bytes >= 48,
    ensures
        chained(start, end + bytes, appended(bs, bytes)),
        payload(appended(bs, bytes), true) == payload(bs, true) + bytes - 32,
        payload(appended(bs, bytes), false) == payload(bs, false),
{
    let after = appended(bs, bytes);
    assert(after.drop_last() =~= bs);
    assert forall|k: int| 0 < k < after.len() implies #[trigger] follows(after, k) by {
        if k < bs.len() {
            assert(follows(bs, k));
        }
    }
    assert forall|k: int| 0 <= k < after.len() implies (#[trigger] after[k]).addr % 16 == 0
        && after[k].size % 16 == 0 && after[k].size >= 16 && start <= after[k].addr
        && after[k].end() <= end + bytes by {
        let b = bs[if k < bs.len() {
            k
        } else {
            bs.len() - 1
        }];
        assert(b.addr % 16 == 0);
    }
    assert forall|i: int, j: int| 0 <= i < j < after.len() implies (#[trigger] after[i]).end() <= (
    #[trigger] after[j]).addr by {
        if j < bs.len() {
            assert(bs[i].end() <= bs[j].addr);
        } else {
            assert(bs[i].end() <= end);
        }
    }
}

proof fn lemma_append_header(
    ws0: Seq<u64>,
    ws: Seq<u64>,
    start: int,
    bs: Seq<Block>,
    bytes: int,
    i: int,
)
    requires
        image(ws0, start, bs),
        ws.len() == ws0.len() + bytes / 8,
        bytes % 16 == 0,
        bytes >= 48,
        forall|x: int| 0 <= x < ws0.len() ==> #[trigger] ws[x] == ws0[x],
        chained(start, start + 8 * ws.len(), appended(bs, bytes)),
        0 <= i < bs.len() + 1,
    ensures
        header_in(append_words(ws, start, bs, bytes), start, appended(bs, bytes), i),
{
    reveal(image);
    let after = appended(bs, bytes);
    let l = bs.len() - 1;
    lemma_places(ws, start, after, i, l);
    lemma_places(ws, start, after, i, l + 1);
    lemma_places(ws, start, after, l, l + 1);
    assert(after[l] == bs[l]);
    if i <= l {
        assert(header_in(ws0, start, bs, i));
        lemma_places(ws0, start, bs, i, l);
        assert(after[i] == bs[i]);
        assert(prev_addr(after, i) == prev_addr(bs, i));
        if i < l {
            assert(next_addr(after, i) == next_addr(bs, i));
        }
    }
}

pub proof fn lemma_image_appended(
    ws0: Seq<u64>,
    ws: Seq<u64>,
    start: int,
    bs: Seq<Block>,
    bytes: int,
)
    requires
        image(ws0, start, bs),
        ws.len() == ws0.len() + bytes / 8,
        bytes % 16 == 0,
        bytes >= 48,
        start + 8 * ws.len() <= u64::MAX,
        forall|x: int| 0 <= x < ws0.len() ==> #[trigger] ws[x] == ws0[x],
    ensures
        image(append_words(ws, start, bs, bytes), start, appended(bs, bytes)),
        keeps(ws0, append_words(ws, start, bs, bytes), start, bs),
{
    reveal(image);
    let after = appended(bs, bytes);
    let ws1 = append_words(ws, start, bs, bytes);
    let l = bs.len() - 1;
    assert(bytes / 8 * 8 == bytes);
    lemma_appended(start, start + 8 * ws0.len(), bs, bytes);
    assert forall|i: int| 0 <= i < after.len() implies #[trigger] header_in(
        ws1,
        start,
        after,
        i,
    ) by {
        lemma_append_header(ws0, ws, start, bs, bytes, i);
    }
    lemma_places(ws0, start, bs, l, l);
    lemma_places(ws, start, after, l, l + 1);
    lemma_header_not_live(ws0, start, bs, l, 3);
    assert forall|i: int| 0 <= i < ws0.len() && live(bs, start + 8 * i) implies #[trigger] ws1[i]
        == ws0[i] by {
        assert(ws[i] == ws0[i]);
        assert(place(start, after[l + 1].addr, 0) == ws0.len());
    }
}

/// Where nothing fits, the last block does once `bytes` bytes were added.
pub proof fn lemma_extended_stop(bs: Seq<Block>, size: int, bytes: int)
    requires
        bs.len() > 0,
        stop_from(bs, size, 0) is None,
        size + 32 <= bytes,
        forall|k: int| 0 <= k < bs.len() ==> (#[trigger] bs[k]).size >= 0,
    ensures
        ({
            let after = extended(bs, bytes);
            &&& stop_from(after, size, 0) == Some(after.len() - 1)
            &&& after[after.len() - 1].marked()
            &&& after[after.len() - 1].fits(size)
        }),
{
    let after = extended(bs, bytes);
    let l = bs.len() - 1;
    lemma_stop(bs, size, 0);
    lemma_stop(after, size, 0);
    assert(bs[l].marked());
    assert(bs[l].size >= 0);
    assert(appended(bs, bytes)[l] == bs[l]);
    assert forall|j: int| 0 <= j < after.len() - 1 implies (#[trigger] after[j]).marked()
        && !after[j].fits(size) by {
        assert(after[j] == bs[j]);
    }
    assert(after[after.len() - 1].marked() && after[after.len() - 1].fits(size));
}

/// Word `x` is the size or a link of one of the headers.
pub open spec fn is_link(start: int, bs: Seq<Block>, x: int) -> bool {
    exists|k: int|
        0 <= k < bs.len() && place(start, (#[trigger] bs[k]).addr, 1) <= x <= place(
            start,
            bs[k].addr,
            3,
        )
}

/// At most sizes and links of headers changed.
pub open spec fn links_only(ws0: Seq<u64>, ws1: Seq<u64>, start: int, bs: Seq<Block>) -> bool {
    &&& ws1.len() == ws0.len()
    &&& forall|x: int|
        0 <= x < ws0.len() && !is_link(start, bs, x) ==> #[trigger] ws1[x] == ws0[x]
}

pub proof fn lemma_merge_links(ws: Seq<u64>, start: int, bs: Seq<Block>, k: int)
    requires
        image(ws, start, bs),
        0 <= k,
        k + 1 < bs.len(),
    ensures
        links_only(ws, merge_words(ws, start, bs, k), start, bs),
{
    reveal(image);
    lemma_places(ws, start, bs, k, k);
    if k + 2 < bs.len() {
        lemma_places(ws, start, bs, k + 2, k + 2);
    }
    assert forall|x: int| 0 <= x < ws.len() && !is_link(start, bs, x) implies #[trigger] merge_words(
        ws,
        start,
        bs,
        k,
    )[x] == ws[x] by {
        if x == place(start, bs[k].addr, 1) || x == place(start, bs[k].addr, 3) {
            assert(is_link(start, bs, x));
        }
        if k + 2 < bs.len() && x == place(start, bs[k + 2].addr, 2) {
            assert(is_link(start, bs, x));
        }
    }
}

/// The mark and the payload of a block are no links.
pub proof fn lemma_not_link(ws: Seq<u64>, start: int, bs: Seq<Block>, k: int, x: int)
    requires
        chained(start, start + 8 * ws.len(), bs),
        0 <= k < bs.len(),
        x == place(start, bs[k].addr, 0) || place(start, bs[k].addr, 4) <= x < place(
            start,
            bs[k].end(),
            0,
        ),
    ensures
        !is_link(start, bs, x),
{
    lemma_places(ws, start, bs, k, k);
    assert forall|i: int| 0 <= i < bs.len() implies !(place(start, (#[trigger] bs[i]).addr, 1) <= x
        <= place(start, bs[i].addr, 3)) by {
        lemma_places(ws, start, bs, i, k);
        if k < i {
            assert(bs[k].end() <= bs[i].addr);
            assert(bs[k].size % 16 == 0 && bs[k].addr % 16 == 0);
            assert(bs[i].addr % 16 == 0);
            assert(bs[0].addr % 16 == 0);
        }
    }
}

/// The words `ws` with `count` of them from `from` on set to `v`.
pub open spec fn filled(ws: Seq<u64>, from: int, count: int, v: u64) -> Seq<u64> {
    Seq::new(
        ws.len(),
        |x: int|
            if from <= x < from + count {
                v
            } else {
                ws[x]
            },
    )
}

/// Setting the next word fills one more.
pub proof fn lemma_fill_step(ws: Seq<u64>, from: int, count: int, v: u64)
    requires
        0 <= from,
        0 <= count,
        from + count < ws.len(),
    ensures
        filled(ws, from, count, v).update(from + count, v) == filled(ws, from, count + 1, v),
{
    assert(filled(ws, from, count, v).update(from + count, v) =~= filled(ws, from, count + 1, v));
}

/// Filling the payload of a block leaves the headers and the other payloads.
pub proof fn lemma_filled(ws: Seq<u64>, start: int, bs: Seq<Block>, k: int, v: u64)
    requires
        image(ws, start, bs),
        0 <= k < bs.len(),
    ensures
        ({
            let ws1 = filled(ws, place(start, bs[k].addr, 4), bs[k].size / 8, v);
            &&& image(ws1, start, bs)
            &&& keeps(ws, ws1, start, marked_free(bs, k, true))
        }),
{
    reveal(image);
    let from = place(start, bs[k].addr, 4);
    let ws1 = filled(ws, from, bs[k].size / 8, v);
    lemma_places(ws, start, bs, k, k);
    assert(bs[k].size % 16 == 0 && bs[k].addr % 16 == 0);
    assert(bs[0].addr % 16 == 0);
    assert(from + bs[k].size / 8 == place(start, bs[k].end(), 0));
    assert forall|i: int| 0 <= i < bs.len() implies #[trigger] header_in(ws1, start, bs, i) by {
        assert(header_in(ws, start, bs, i));
        lemma_places(ws, start, bs, i, k);
        if k < i {
            assert(bs[k].end() <= bs[i].addr);
            assert(bs[i].addr % 16 == 0);
        }
    }
    let others = marked_free(bs, k, true);
    assert forall|i: int|
        0 <= i < ws.len() && live(others, start + 8 * i) implies #[trigger] ws1[i] == ws[i] by {
        let x = start + 8 * i;
        let j = choose|j: int|
            0 <= j < others.len() && !others[j].free && (#[trigger] others[j]).holds(x);
        assert(others[j] == bs[j]);
        if j < k {
            assert(bs[j].end() <= bs[k].addr);
        } else {
            assert(bs[k].end() <= bs[j].addr);
        }
    }
}

/// The blocks once block `k` has taken in the next one, if that is free.
pub open spec fn joined_next(bs: Seq<Block>, k: int) -> Seq<Block> {
    if k + 1 < bs.len() && bs[k + 1].free {
        merged(bs, k)
    } else {
        bs
    }
}

/// The blocks once block `k` has been released: it and its free neighbours are
/// one free block.
pub open spec fn released(bs: Seq<Block>, k: int) -> Seq<Block> {
    let joined = joined_next(marked_free(bs, k, true), k);
    if k > 0 && bs[k - 1].free {
        merged(joined, k - 1)
    } else {
        joined
    }
}

/// The block whose header is at `addr`.
pub open spec fn block_at(bs: Seq<Block>, addr: int) -> int {
    choose|k: int| 0 <= k < bs.len() && (#[trigger] bs[k]).addr == addr
}

/// A block of `bs` has its header at `addr`.
pub open spec fn has_block(bs: Seq<Block>, addr: int) -> bool {
    exists|k: int| 0 <= k < bs.len() && (#[trigger] bs[k]).addr == addr
}

/// Releasing a block keeps the chain; the merged headers become payload.
pub proof fn lemma_released(start: int, end: int, bs: Seq<Block>, k: int)
    requires
        chained(start, end, bs),
        0 <= k < bs.len(),
        !bs[k].free,
    ensures
        chained(start, end, released(bs, k)),
        payload(released(bs, k), true) == payload(bs, true) + bs[k].size + (if k + 1 < bs.len()
            && bs[k + 1].free {
            32int
        } else {
            0
        }) + (if k > 0 && bs[k - 1].free {
            32int
        } else {
            0
        }),
        payload(released(bs, k), false) == payload(bs, false) - bs[k].size,
{
    let one = marked_free(bs, k, true);
    let two = joined_next(one, k);
    lemma_marked_free(start, end, bs, k, true);
    if k + 1 < bs.len() && bs[k + 1].free {
        assert(one[k + 1] == bs[k + 1]);
        lemma_merged(start, end, one, k);
    }
    assert(two[k].free);
    if k > 0 && bs[k - 1].free {
        assert(two[k - 1] == bs[k - 1]);
        lemma_merged(start, end, two, k - 1);
    }
}

/// One free block that fills `bytes` bytes from `start` on.
pub open spec fn single(start: int, bytes: int) -> Seq<Block> {
    seq![Block { addr: start, size: bytes - 32, free: true, magic: HEAP_MAGIC }]
}

pub proof fn lemma_image_single(ws: Seq<u64>, start: int)
    requires
        ws.len() >= 6,
        ws.len() % 2 == 0,
        start % 16 == 0,
        0 < start,
        start + 8 * ws.len() <= u64::MAX,
    ensures
        image(
            header_words(ws, start, start, (8 * ws.len() - 32) as u64, 0, 0),
            start,
            single(start, (8 * ws.len()) as int),
        ),
        payload(single(start, (8 * ws.len()) as int), true) == 8 * ws.len() - 32,
        payload(single(start, (8 * ws.len()) as int), false) == 0,
{
    reveal(image);
    let bs = single(start, (8 * ws.len()) as int);
    assert(bs.drop_last() =~= Seq::<Block>::empty());
    assert(payload(bs.drop_last(), true) == 0 && payload(bs.drop_last(), false) == 0);
    assert((8 * ws.len() - 32) % 16 == 0);
    assert(header_in(
        header_words(ws, start, start, (8 * ws.len() - 32) as u64, 0, 0),
        start,
        bs,
        0,
    ));
}

/// Writing into a payload leaves the headers.
pub proof fn lemma_payload_write(ws: Seq<u64>, start: int, bs: Seq<Block>, i: int, v: u64)
    requires
        image(ws, start, bs),
        0 <= i < ws.len(),
        live(bs, start + 8 * i),
    ensures
        image(ws.update(i, v), start, bs),
{
    reveal(image);
    let ws1 = ws.update(i, v);
    let x = start + 8 * i;
    assert forall|k: int| 0 <= k < bs.len() implies #[trigger] header_in(ws1, start, bs, k) by {
        assert(header_in(ws, start, bs, k));
        lemma_places(ws, start, bs, k, k);
        lemma_header_not_live(ws, start, bs, k, 0);
        lemma_header_not_live(ws, start, bs, k, 1);
        lemma_header_not_live(ws, start, bs, k, 2);
        lemma_header_not_live(ws, start, bs, k, 3);
    }
}

/// A block of `size` bytes at `addr` is in use.
pub open spec fn in_use(bs: Seq<Block>, addr: int, size: int) -> bool {
    exists|k: int|
        0 <= k < bs.len() && !bs[k].free && (#[trigger] bs[k]).addr == addr && bs[k].size == size
}

/// Serving a request leaves the blocks in use, and adds one that was free.
pub proof fn lemma_taken_in_use(
    start: int,
    end: int,
    bs: Seq<Block>,
    k: int,
    size: int,
    addr: int,
    s: int,
)
    requires
        chained(start, end, bs),
        0 <= k < bs.len(),
        bs[k].free,
    ensures
        in_use(bs, addr, s) ==> in_use(taken(bs, k, size), addr, s),
        !in_use(bs, bs[k].addr, s),
        in_use(
            taken(bs, k, size),
            bs[k].addr,
            if bs[k].size - size >= 48 {
                size
            } else {
                bs[k].size
            },
        ),
{
    let after = taken(bs, k, size);
    let cut = bs[k].size - size >= 48;
    if in_use(bs, addr, s) {
        let i = choose|i: int|
            0 <= i < bs.len() && !bs[i].free && (#[trigger] bs[i]).addr == addr && bs[i].size == s;
        let o = if !cut || i < k {
            i
        } else {
            i + 1
        };
        assert(after[o] == bs[i]);
    }
    if in_use(bs, bs[k].addr, s) {
        let i = choose|i: int|
            0 <= i < bs.len() && !bs[i].free && (#[trigger] bs[i]).addr == bs[k].addr && bs[i].size
                == s;
        if i < k {
            assert(bs[i].end() <= bs[k].addr);
        } else if k < i {
            assert(bs[k].end() <= bs[i].addr);
        }
    }
    assert(after[k].addr == bs[k].addr && !after[k].free);
}

/// Giving a block back leaves the other blocks in use.
pub proof fn lemma_released_in_use(bs: Seq<Block>, k: int, addr: int, s: int)
    requires
        0 <= k < bs.len(),
        addr != bs[k].addr,
        in_use(bs, addr, s),
    ensures
        in_use(released(bs, k), addr, s),
{
    let i = choose|i: int|
        0 <= i < bs.len() && !bs[i].free && (#[trigger] bs[i]).addr == addr && bs[i].size == s;
    let one = marked_free(bs, k, true);
    let two = joined_next(one, k);
    assert(one[i] == bs[i]);
    let right = k + 1 < bs.len() && bs[k + 1].free;
    let left = k > 0 && bs[k - 1].free;
    if k + 1 < bs.len() {
        assert(one[k + 1] == bs[k + 1]);
    }
    let i2 = if right && i > k {
        i - 1
    } else {
        i
    };
    assert(two[i2] == bs[i]);
    let i3 = if left && i2 > k - 1 {
        i2 - 1
    } else {
        i2
    };
    assert(released(bs, k)[i3] == bs[i]);
}

/// Growing leaves the blocks in use.
pub proof fn lemma_extended_in_use(bs: Seq<Block>, bytes: int, addr: int, s: int)
    requires
        bs.len() > 0,
    ensures
        in_use(extended(bs, bytes), addr, s) <==> in_use(bs, addr, s),
{
    let after = extended(bs, bytes);
    if in_use(bs, addr, s) {
        let i = choose|i: int|
            0 <= i < bs.len() && !bs[i].free && (#[trigger] bs[i]).addr == addr && bs[i].size == s;
        assert(after[i] == bs[i]);
    }
    if in_use(after, addr, s) {
        let i = choose|i: int|
            0 <= i < after.len() && !after[i].free && (#[trigger] after[i]).addr == addr
                && after[i].size == s;
        assert(after[i] == bs[i]);
    }
}

/// Some free block has `size` bytes or more.
pub open spec fn has_room(bs: Seq<Block>, size: int) -> bool {
    exists|k: int| 0 <= k < bs.len() && (#[trigger] bs[k]).fits(size)
}

/// A request takes no more than its bytes and a header from the room there is.
pub proof fn lemma_taken_room(bs: Seq<Block>, k: int, size: int, room: int)
    requires
        0 <= k < bs.len(),
        bs[k].free,
        has_room(bs, room),
        room - size >= 48,
        size >= 0,
    ensures
        has_room(taken(bs, k, size), room - size - 32),
{
    let i = choose|i: int| 0 <= i < bs.len() && (#[trigger] bs[i]).fits(room);
    let after = taken(bs, k, size);
    let cut = bs[k].size - size >= 48;
    if i == k {
        assert(after[k + 1].fits(room - size - 32));
    } else {
        let o = if !cut || i < k {
            i
        } else {
            i + 1
        };
        assert(after[o] == bs[i]);
        assert(after[o].fits(room - size - 32));
    }
}

/// Giving a block back leaves the room there is.
pub proof fn lemma_released_room(bs: Seq<Block>, k: int, room: int)
    requires
        0 <= k < bs.len(),
        !bs[k].free,
        has_room(bs, room),
        forall|i: int| 0 <= i < bs.len() ==> (#[trigger] bs[i]).size >= 0,
    ensures
        has_room(released(bs, k), room),
{
    let i = choose|i: int| 0 <= i < bs.len() && (#[trigger] bs[i]).fits(room);
    let one = marked_free(bs, k, true);
    let two = joined_next(one, k);
    let three = released(bs, k);
    let right = k + 1 < bs.len() && bs[k + 1].free;
    let left = k > 0 && bs[k - 1].free;
    assert(one[i] == bs[i]);
    assert(one[k].size == bs[k].size && bs[k].size >= 0);
    if k + 1 < bs.len() {
        assert(one[k + 1] == bs[k + 1] && bs[k + 1].size >= 0);
    }
    let i2 = if right && i > k {
        i - 1
    } else {
        i
    };
    assert(two[i2].free && two[i2].size >= bs[i].size);
    assert(two[k].size >= 0);
    if k > 0 {
        assert(two[k - 1] == bs[k - 1] && bs[k - 1].size >= 0);
    }
    let i3 = if left && i2 > k - 1 {
        i2 - 1
    } else {
        i2
    };
    assert(three[i3].free && three[i3].size >= two[i2].size);
    assert(three[i3].fits(room));
}

/// Where there is room for a request, it is found among marked blocks.
pub proof fn lemma_room_found(bs: Seq<Block>, size: int, room: int)
    requires
        has_room(bs, room),
        size <= room,
        forall|k: int| 0 <= k < bs.len() ==> (#[trigger] bs[k]).marked(),
    ensures
        stop_from(bs, size, 0) is Some,
{
    let i = choose|i: int| 0 <= i < bs.len() && (#[trigger] bs[i]).fits(room);
    lemma_stop(bs, size, 0);
    if stop_from(bs, size, 0) is None {
        assert(bs[i].marked() && !bs[i].fits(size));
    }
}

} // verus!
