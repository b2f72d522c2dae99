//! What the self-tests say of a machine that lacks what they need.

use vstd::prelude::*;
use crate::blocks;
use crate::context;
use crate::context_check;
use crate::heap::HeapState;
use crate::heap_check;
use crate::heap_plan;
use crate::heap_plan::Plan;
use crate::paging::MemoryManager;
use crate::process_check;
use crate::thread_check;
use crate::vmm::PageTable;

verus! {

/// Where `n` stacks can be had and no more, of the three that the test of contexts
/// needs, that many are made, and the next one is named.
pub proof fn lemma_stacks_lacking(mm: MemoryManager, mem: Seq<PageTable>, n: int)
    requires
        0 <= n <= 3,
        forall|j: int| 1 <= j <= n ==> #[trigger] context::stack_room(mm, mem, j, 0),
        n < 3 ==> !context::stack_room(mm, mem, n + 1, 0),
    ensures
        context_check::stacks_made(mm, mem) == n,
        n == 0 ==> context_check::stack_fault(mm, mem) == Some("Failed to allocate dummy stack!"),
        n == 1 ==> context_check::stack_fault(mm, mem) == Some("failed stack A allocation"),
        n == 2 ==> context_check::stack_fault(mm, mem) == Some("failed stack B allocation"),
        n == 3 ==> context_check::stack_fault(mm, mem) is None,
{
}

/// Where `n` stacks can be had and no more, of the four that the test of threads needs,
/// that many threads are made, and the next one is named.
pub proof fn lemma_threads_lacking(mm: MemoryManager, mem: Seq<PageTable>, n: int)
    requires
        0 <= n <= 4,
        forall|j: int| 1 <= j <= n ==> #[trigger] context::stack_room(mm, mem, j, 0),
        n < 4 ==> !context::stack_room(mm, mem, n + 1, 0),
    ensures
        thread_check::threads_made(mm, mem) == n,
        n == 0 ==> thread_check::thread_fault(mm, mem) == Some("failed thread A"),
        n == 1 ==> thread_check::thread_fault(mm, mem) == Some("failed thread B"),
        n == 2 ==> thread_check::thread_fault(mm, mem) == Some("failed thread loop A"),
        n == 3 ==> thread_check::thread_fault(mm, mem) == Some("failed thread loop B"),
        n == 4 ==> thread_check::thread_fault(mm, mem) is None,
{
}

/// How many stacks and how many address spaces the test of processes has made once it
/// has taken `step` steps: three spaces, two stacks, two spaces and two stacks.
pub open spec fn needed(step: int) -> (int, int) {
    if step <= 3 {
        (0, step)
    } else if step <= 5 {
        (step - 3, 3)
    } else if step <= 7 {
        (2, step - 2)
    } else {
        (step - 5, 5)
    }
}

/// Where the test of processes can take `n` of its nine steps and no more, it makes what
/// these steps make, and says which kind of thing the next one lacks.
pub proof fn lemma_processes_lacking(mm: MemoryManager, mem: Seq<PageTable>, n: int)
    requires
        0 <= n <= 9,
        forall|j: int|
            1 <= j <= n ==> {
                let (stacks, spaces) = #[trigger] needed(j);
                context::stack_room(mm, mem, stacks, spaces)
            },
        n < 9 ==> !context::stack_room(mm, mem, needed(n + 1).0, needed(n + 1).1),
    ensures
        process_check::process_made(mm, mem).0 == needed(n).1,
        process_check::process_made(mm, mem).1 == needed(n).0,
        n <= 2 || 5 <= n <= 6 ==> process_check::process_fault(mm, mem) == Some(
            "AddressSpace creation failed",
        ),
        3 <= n <= 4 ==> process_check::process_fault(mm, mem) == Some(
            "Expected 2 threads in Process A",
        ),
        7 <= n <= 8 ==> process_check::process_fault(mm, mem) == Some(
            "Process thread creation failed",
        ),
        n == 9 ==> process_check::process_fault(mm, mem) is None,
{
    assert(n >= 1 ==> context::stack_room(mm, mem, needed(1).0, needed(1).1));
    assert(n >= 2 ==> context::stack_room(mm, mem, needed(2).0, needed(2).1));
    assert(n >= 3 ==> context::stack_room(mm, mem, needed(3).0, needed(3).1));
    assert(n >= 4 ==> context::stack_room(mm, mem, needed(4).0, needed(4).1));
    assert(n >= 5 ==> context::stack_room(mm, mem, needed(5).0, needed(5).1));
    assert(n >= 6 ==> context::stack_room(mm, mem, needed(6).0, needed(6).1));
    assert(n >= 7 ==> context::stack_room(mm, mem, needed(7).0, needed(7).1));
    assert(n >= 8 ==> context::stack_room(mm, mem, needed(8).0, needed(8).1));
    assert(n >= 9 ==> context::stack_room(mm, mem, needed(9).0, needed(9).1));
}

/// A heap none of whose blocks is free and has 64 bytes, and behind which there is no
/// room for 16 pages, fails its test at the first request, and stays as it was.
pub proof fn lemma_first_request_lacking(
    heap: HeapState,
    mm: MemoryManager,
    mem: Seq<PageTable>,
)
    requires
        forall|k: int|
            #![trigger heap.blocks()[k]]
            0 <= k < heap.blocks().len() ==> heap.blocks()[k].magic == 0x5645_4E54
                && !(heap.blocks()[k].free && heap.blocks()[k].size >= 64),
        !heap_plan::growth_room(mm, mem, heap.current_end as int, 16),
    ensures
        heap_check::course(heap, mm, mem).1 == Some("64-byte allocation returned null!"),
        heap_check::course(heap, mm, mem).0.followed(heap, heap),
{
    reveal(Plan::request);
    lemma_no_stop(heap.blocks(), 64, 0);
}

/// Where no block is free and large enough, and each has its mark, no block is stopped
/// at.
proof fn lemma_no_stop(bs: Seq<blocks::Block>, size: int, i: int)
    requires
        0 <= i <= bs.len(),
        forall|k: int|
            #![trigger bs[k]]
            0 <= k < bs.len() ==> bs[k].magic == 0x5645_4E54 && !(bs[k].free && bs[k].size
                >= size),
    ensures
        blocks::stop_from(bs, size, i) is None,
    decreases bs.len() - i,
{
    if i < bs.len() {
        lemma_no_stop(bs, size, i + 1);
    }
}

/// What the heap's test asks for, one after the other, and what it says where that
/// cannot be had: 64 bytes, 1024 bytes, 32 bytes once the first are given back, and
/// 256 KiB once all are. After the last it gives back what it had.
pub proof fn lemma_requests_lacking(heap: HeapState, mm: MemoryManager, mem: Seq<PageTable>)
    ensures
        ({
            let end = heap.current_end as int;
            let p0 = Plan::first(heap);
            let p1 = p0.request(mm, mem, end, 64);
            let p2 = p1->0.request(mm, mem, end, 1024);
            let p3 = p2->0.release(p0.place(64));
            let p4 = p3.request(mm, mem, end, 32);
            let p5 = p4->0.release(p1->0.place(1024)).release(p3.place(32));
            let p6 = p5.request(mm, mem, end, 262144);
            let said = heap_check::course(heap, mm, mem).1;
            let left = heap_check::course(heap, mm, mem).0;
            &&& p1 is None ==> said == Some("64-byte allocation returned null!") && left == p0
            &&& p1 is Some && p2 is None ==> said == Some("1024-byte allocation returned null!")
                && left == p1->0
            &&& p1 is Some && p2 is Some && p4 is None ==> said == Some(
                "Re-allocation p3 returned null!",
            ) && left == p3
            &&& p1 is Some && p2 is Some && p4 is Some && p6 is None ==> said == Some(
                "Large heap expansion allocation returned null!",
            ) && left == p5
            &&& p1 is Some && p2 is Some && p4 is Some && p6 is Some ==> said is None && left
                == p6->0.release(p5.place(262144))
        }),
{
}

} // verus!
