//! The self-test of execution contexts.

use vstd::prelude::*;
use crate::context;
use crate::context::{create_context, create_context_raw, switch_context, ContextError, CpuState, ExecutionContext, KernelStack, FRAME_BYTES};
use crate::ids::IdSource;
use crate::kept;
use crate::kept::Since;
use crate::paging;
use crate::paging::MemoryManager;
use crate::regions;
use crate::regions::unmap_region;
use crate::vmm::{PageTable, PageTableFlags, VirtAddr, VirtRegion, VirtualMemoryManager};
use crate::walk;
use crate::window;

verus! {

/// The stack is a stack of the dynamic range.
pub open spec fn plain_stack(s: KernelStack) -> bool {
    &&& s.region.start.0 % 4096 == 0
    &&& s.region.size_bytes == context::STACK_SIZE_BYTES
    &&& s.region.limit() <= crate::vmm::DYNAMIC_VIRT_END
    &&& s.region.start.0 >= crate::vmm::DYNAMIC_VIRT_START
}

/// A stack that was mapped before another is as it was, and apart from it.
pub proof fn lemma_stack_beside(
    mm0: MemoryManager,
    mem0: Seq<PageTable>,
    mm1: MemoryManager,
    mem1: Seq<PageTable>,
    before: KernelStack,
    fresh: KernelStack,
    flags: PageTableFlags,
)
    requires
        mm0.ready(mem0),
        before.backed(mm0, mem0),
        fresh.region.pages() <= mm0.pmm@.free_count(),
        fresh.region.pages() >= 0,
        fresh.region.start.0 % 4096 == 0,
        fresh.region.start.0 + 4096 * fresh.region.pages() <= window::LOWER_HALF_END,
        flags.0 & 1 != 0,
        flags.0 & crate::vmm::ENTRY_ADDRESS_MASK == 0,
        regions::fresh_mapped(
            mm0,
            mem0,
            mm1,
            mem1,
            fresh.region.start.0,
            fresh.region.pages(),
            flags,
        ),
    ensures
        before.backed(mm1, mem1),
        before.words(mm1, mem1) == before.words(mm0, mem0),
        context::stacks_apart(before, fresh, mm1, mem1),
        context::stacks_apart(fresh, before, mm1, mem1),
{
    let s = before.region.start.0 as int;
    let n = before.region.pages();
    window::lemma_fresh_beside(
        mm0,
        mem0,
        mm1,
        mem1,
        fresh.region.start.0,
        fresh.region.pages(),
        flags,
        s,
        n,
    );
    window::lemma_fresh_backed(
        mm0,
        mem0,
        mm1,
        mem1,
        fresh.region.start.0,
        fresh.region.pages(),
        flags,
    );
    reveal(window::backed);
    assert forall|i: int, j: int|
        0 <= i < n && 0 <= j < fresh.region.pages() implies #[trigger] window::frame_at(
        mm1,
        mem1,
        s,
        i,
    ) != #[trigger] window::frame_at(mm1, mem1, fresh.region.start.0 as int, j) by {
        assert(window::holds(mm0, mem0, s, i));
        assert(window::frame_at(mm1, mem1, s, i) == window::frame_at(mm0, mem0, s, i));
        crate::pmm::lemma_nth_free(mm0.pmm@, j);
    }
}

/// Stacks stay apart while data is written.
pub proof fn lemma_apart_kept(
    a: KernelStack,
    b: KernelStack,
    mm: MemoryManager,
    mem0: Seq<PageTable>,
    mem1: Seq<PageTable>,
    s: int,
    n: int,
)
    requires
        mm.ready(mem0),
        a.backed(mm, mem0),
        b.backed(mm, mem0),
        context::stacks_apart(a, b, mm, mem0),
        window::only_within(mm, mem0, mem1, s, n),
    ensures
        context::stacks_apart(a, b, mm, mem1),
{
    reveal(window::backed);
    reveal(window::only_within);
    let r = mm.root.0 as int / 4096;
    let sa = a.region.start.0 as int;
    let sb = b.region.start.0 as int;
    assert forall|i: int, j: int|
        0 <= i < a.region.pages() && 0 <= j < b.region.pages() implies #[trigger] window::frame_at(
        mm,
        mem1,
        sa,
        i,
    ) != #[trigger] window::frame_at(mm, mem1, sb, j) by {
        assert(0 <= sa / 4096 + i < walk::page_limit());
        assert(0 <= sb / 4096 + j < walk::page_limit());
        assert(walk::mapping(mem1, r, sa / 4096 + i) == walk::mapping(mem0, r, sa / 4096 + i));
        assert(walk::mapping(mem1, r, sb / 4096 + j) == walk::mapping(mem0, r, sb / 4096 + j));
        assert(window::frame_at(mm, mem0, sa, i) != window::frame_at(mm, mem0, sb, j));
    }
}

/// Three stacks that are backed and apart.
pub open spec fn trio(
    d: KernelStack,
    a: KernelStack,
    b: KernelStack,
    mm: MemoryManager,
    mem: Seq<PageTable>,
) -> bool {
    &&& mm.ready(mem)
    &&& plain_stack(d) && plain_stack(a) && plain_stack(b)
    &&& d.backed(mm, mem) && a.backed(mm, mem) && b.backed(mm, mem)
    &&& context::stacks_apart(d, a, mm, mem) && context::stacks_apart(a, b, mm, mem)
        && context::stacks_apart(b, d, mm, mem)
    &&& context::stacks_apart(a, d, mm, mem) && context::stacks_apart(b, a, mm, mem)
        && context::stacks_apart(d, b, mm, mem)
}

/// Writing to one of three stacks leaves the other two.
pub proof fn lemma_trio_written(
    d: KernelStack,
    a: KernelStack,
    b: KernelStack,
    mm: MemoryManager,
    mem0: Seq<PageTable>,
    mem1: Seq<PageTable>,
)
    requires
        trio(d, a, b, mm, mem0),
        mm.ready(mem1),
        a.backed(mm, mem1),
        window::only_within(
            mm,
            mem0,
            mem1,
            a.region.start.0 as int,
            a.region.pages(),
        ),
    ensures
        trio(d, a, b, mm, mem1),
        trio(a, b, d, mm, mem1),
        trio(b, d, a, mm, mem1),
        d.words(mm, mem1) == d.words(mm, mem0),
        b.words(mm, mem1) == b.words(mm, mem0),
{
    let s = a.region.start.0 as int;
    let n = a.region.pages();
    context::lemma_stack_kept(a, d, mm, mem0, mem1);
    context::lemma_stack_kept(a, b, mm, mem0, mem1);
    lemma_apart_kept(d, a, mm, mem0, mem1, s, n);
    lemma_apart_kept(a, b, mm, mem0, mem1, s, n);
    lemma_apart_kept(b, d, mm, mem0, mem1, s, n);
    lemma_apart_kept(a, d, mm, mem0, mem1, s, n);
    lemma_apart_kept(b, a, mm, mem0, mem1, s, n);
    lemma_apart_kept(d, b, mm, mem0, mem1, s, n);
}

/// All but three stacks is as it was then.
pub open spec fn beside_trio(
    since: Since,
    d: KernelStack,
    a: KernelStack,
    b: KernelStack,
    mm: MemoryManager,
    mem: Seq<PageTable>,
) -> bool {
    &&& since.mm.ready(since.mem)
    &&& since.holds(mm, mem)
    &&& since.owns_stack(d, mm, mem)
    &&& since.owns_stack(a, mm, mem)
    &&& since.owns_stack(b, mm, mem)
}

/// Writing to one of three stacks leaves all else.
pub proof fn lemma_trio_beside(
    since: Since,
    d: KernelStack,
    a: KernelStack,
    b: KernelStack,
    mm: MemoryManager,
    mem0: Seq<PageTable>,
    mem1: Seq<PageTable>,
)
    requires
        trio(d, a, b, mm, mem0),
        beside_trio(since, d, a, b, mm, mem0),
        window::only_within(
            mm,
            mem0,
            mem1,
            a.region.start.0 as int,
            a.region.pages(),
        ),
    ensures
        beside_trio(since, d, a, b, mm, mem1),
        beside_trio(since, a, b, d, mm, mem1),
        beside_trio(since, b, d, a, mm, mem1),
{
    let s = a.region.start.0 as int;
    let n = a.region.pages();
    lemma_frame_place(d);
    lemma_frame_place(a);
    lemma_frame_place(b);
    window::lemma_tables_kept(mm, mem0, mem1, s, n);
    kept::lemma_kept_write(since, mm, mem0, mem1, s, n);
    window::lemma_frames_kept(mm, mem0, mem1, s, n);
    window::lemma_frames_kept(mm, mem0, mem1, d.region.start.0 as int, 4);
    window::lemma_frames_kept(mm, mem0, mem1, b.region.start.0 as int, 4);
    kept::lemma_owns_same(since, mm, mem0, mm, mem1, s, n);
    kept::lemma_owns_same(since, mm, mem0, mm, mem1, d.region.start.0 as int, 4);
    kept::lemma_owns_same(since, mm, mem0, mm, mem1, b.region.start.0 as int, 4);
}

/// A stack that is mapped leaves all else, and the stacks that were mapped
/// before it.
pub proof fn lemma_stack_since(
    since: Since,
    mm0: MemoryManager,
    mem0: Seq<PageTable>,
    mm1: MemoryManager,
    mem1: Seq<PageTable>,
    fresh: KernelStack,
    flags: PageTableFlags,
)
    requires
        since.mm.ready(since.mem),
        mm0.ready(mem0),
        since.holds(mm0, mem0),
        since.lo <= since.hi,
        plain_stack(fresh),
        since.hi == fresh.region.start.0 as int / 4096,
        4 <= mm0.pmm@.free_count(),
        flags.0 & 1 != 0,
        flags.0 & crate::vmm::ENTRY_ADDRESS_MASK == 0,
        regions::fresh_mapped(mm0, mem0, mm1, mem1, fresh.region.start.0, 4, flags),
    ensures
        since.plus(4).holds(mm1, mem1),
        since.owns_stack(fresh, mm1, mem1),
        forall|s: KernelStack|
            plain_stack(s) && #[trigger] since.owns_stack(s, mm0, mem0) && s.backed(mm0, mem0)
                ==> since.owns_stack(s, mm1, mem1),
{
    lemma_frame_place(fresh);
    kept::lemma_kept_fresh(since, mm0, mem0, mm1, mem1, fresh.region.start.0, 4, flags);
    assert forall|s: KernelStack|
        plain_stack(s) && #[trigger] since.owns_stack(s, mm0, mem0) && s.backed(
            mm0,
            mem0,
        ) implies since.owns_stack(s, mm1, mem1) by {
        lemma_frame_place(s);
        let at = s.region.start.0 as int;
        window::lemma_fresh_beside(
            mm0,
            mem0,
            mm1,
            mem1,
            fresh.region.start.0,
            4,
            flags,
            at,
            4,
        );
        kept::lemma_owns_same(since, mm0, mem0, mm1, mem1, at, 4);
    }
}

/// The stacks that the self-test works on.
struct TestStacks {
    dummy: KernelStack,
    a: KernelStack,
    b: KernelStack,
}

/// The region of a stack that was mapped at `next`, with its frames.
spec fn owned_stack(next: int) -> VirtRegion {
    VirtRegion { owns_physical_pages: true, ..context::stack_region(next as u64) }
}

/// The registry `s` with the three stacks of the self-test, from `next` on.
spec fn with_three_stacks(s: Seq<VirtRegion>, next: int) -> Seq<VirtRegion> {
    s.push(context::stack_region(next as u64)).push(
        context::stack_region((next + 0x4000) as u64),
    ).push(context::stack_region((next + 0x8000) as u64))
}

/// The stacks of the self-test are the ones from `next` on.
spec fn stacks_from(t: TestStacks, next: int) -> bool {
    &&& t.dummy.region == owned_stack(next)
    &&& t.a.region == owned_stack(next + 0x4000)
    &&& t.b.region == owned_stack(next + 0x8000)
}

/// Which of the three stacks of the self-test cannot be had; none if all can.
pub open spec fn stack_fault(mm: MemoryManager, mem: Seq<PageTable>) -> Option<&'static str> {
    if !context::stack_room(mm, mem, 1, 0) {
        Some("Failed to allocate dummy stack!")
    } else if !context::stack_room(mm, mem, 2, 0) {
        Some("failed stack A allocation")
    } else if !context::stack_room(mm, mem, 3, 0) {
        Some("failed stack B allocation")
    } else {
        None
    }
}

/// How many stacks the self-test maps before it lacks memory for another one.
pub open spec fn stacks_made(mm: MemoryManager, mem: Seq<PageTable>) -> nat {
    if !context::stack_room(mm, mem, 1, 0) {
        0
    } else if !context::stack_room(mm, mem, 2, 0) {
        1
    } else if !context::stack_room(mm, mem, 3, 0) {
        2
    } else {
        3
    }
}

/// From one state to another, `n` stacks were reserved, one behind the other.
pub open spec fn stacks_reserved(mm0: MemoryManager, mm1: MemoryManager, n: nat) -> bool {
    &&& mm1.vmm.next_dynamic_addr == mm0.vmm.next_dynamic_addr + 0x4000 * n
    &&& mm1.vmm@ == context::with_stacks(mm0.vmm@, mm0.vmm.next_dynamic_addr, n)
}

/// The state before stacks are mapped at the next dynamic address.
pub open spec fn before(mm: MemoryManager, mem: Seq<PageTable>) -> Since {
    let page = mm.vmm.next_dynamic_addr as int / 4096;
    Since { mm, mem, lo: page, hi: page, ours: Set::empty() }
}

/// All is as it was but for the pages of the dynamic range that were mapped.
pub open spec fn stacks_stayed(
    mm0: MemoryManager,
    mem0: Seq<PageTable>,
    mm1: MemoryManager,
    mem1: Seq<PageTable>,
) -> bool {
    kept::kept(
        mm0,
        mem0,
        mm1,
        mem1,
        mm0.vmm.next_dynamic_addr as int / 4096,
        mm1.vmm.next_dynamic_addr as int / 4096,
        Set::empty(),
    )
}

/// Maps the three stacks of the self-test.
fn test_stacks(frames: &mut [PageTable], mm: &mut MemoryManager) -> (r: Result<
    TestStacks,
    &'static str,
>)
    requires
        old(mm).ready(old(frames)@),
    ensures
        final(mm).ready(final(frames)@),
        final(mm).root == old(mm).root,
        match r {
            Ok(t) => {
                &&& stack_fault(*old(mm), old(frames)@) is None
                &&& beside_trio(
                    before(*old(mm), old(frames)@).plus(12),
                    t.dummy,
                    t.a,
                    t.b,
                    *final(mm),
                    final(frames)@,
                )
                &&& trio(t.dummy, t.a, t.b, *final(mm), final(frames)@)
                &&& stacks_from(t, old(mm).vmm.next_dynamic_addr as int)
                &&& final(mm).vmm@ == with_three_stacks(
                    old(mm).vmm@,
                    old(mm).vmm.next_dynamic_addr as int,
                )
                &&& final(mm).vmm.next_dynamic_addr == old(mm).vmm.next_dynamic_addr + 0xC000
            },
            Err(m) => {
                &&& stack_fault(*old(mm), old(frames)@) == Some(m)
                &&& stacks_stayed(*old(mm), old(frames)@, *final(mm), final(frames)@)
                &&& stacks_reserved(
                    *old(mm),
                    *final(mm),
                    stacks_made(*old(mm), old(frames)@),
                )
            },
        },
{
    let ghost flags = PageTableFlags(0x8000_0000_0000_0003);
    proof {
        context::lemma_stack_flags();
        assert(mm.is_table(mm.root.0 as int / 4096));
        context::lemma_stack_room(*mm, frames@);
    }
    let ghost mm0 = *mm;
    let ghost mem0 = frames@;
    let ghost since = before(mm0, mem0);
    proof {
        kept::lemma_kept_first(since);
        reveal_with_fuel(context::with_stacks, 3);
        assert((mm0.vmm.next_dynamic_addr + 0x4000 * 0) as u64 == mm0.vmm.next_dynamic_addr);
    }
    let dummy = match KernelStack::allocate(frames, mm) {
        Ok(stack) => stack,
        Err(_) => {
            proof {
                kept::lemma_kept_tables(since, mm0, mem0, *mm, frames@);
            }
            return Err("Failed to allocate dummy stack!");
        },
    };
    let ghost mm1 = *mm;
    let ghost mem1 = frames@;
    proof {
        lemma_stack_since(since, mm0, mem0, mm1, mem1, dummy, flags);
        context::lemma_stack_room(mm1, mem1);
        context::lemma_stack_taken(mm0, mem0, mm1, mem1, 1, 0);
        context::lemma_stack_taken(mm0, mem0, mm1, mem1, 2, 0);
    }
    let a = match KernelStack::allocate(frames, mm) {
        Ok(stack) => stack,
        Err(_) => {
            proof {
                kept::lemma_kept_tables(since.plus(4), mm1, mem1, *mm, frames@);
            }
            return Err("failed stack A allocation");
        },
    };
    let ghost mm2 = *mm;
    let ghost mem2 = frames@;
    proof {
        lemma_stack_since(since.plus(4), mm1, mem1, mm2, mem2, a, flags);
        assert(since.plus(4).owns_stack(dummy, mm1, mem1));
        lemma_stack_beside(mm1, mem1, mm2, mem2, dummy, a, flags);
        context::lemma_stack_room(mm2, mem2);
        context::lemma_stack_taken(mm1, mem1, mm2, mem2, 1, 0);
    }
    let b = match KernelStack::allocate(frames, mm) {
        Ok(stack) => stack,
        Err(_) => {
            proof {
                kept::lemma_kept_tables(since.plus(8), mm2, mem2, *mm, frames@);
            }
            return Err("failed stack B allocation");
        },
    };
    proof {
        lemma_stack_since(since.plus(8), mm2, mem2, *mm, frames@, b, flags);
        assert(since.plus(8).owns_stack(dummy, mm2, mem2));
        assert(since.plus(8).owns_stack(a, mm2, mem2));
        lemma_stack_beside(mm2, mem2, *mm, frames@, dummy, b, flags);
        lemma_stack_beside(mm2, mem2, *mm, frames@, a, b, flags);
        lemma_apart_grown(dummy, a, mm2, mem2, *mm, frames@, b.region.start.0, flags);
    }
    Ok(TestStacks { dummy, a, b })
}

/// Stacks stay apart while others are mapped.
pub proof fn lemma_apart_grown(
    a: KernelStack,
    b: KernelStack,
    mm0: MemoryManager,
    mem0: Seq<PageTable>,
    mm1: MemoryManager,
    mem1: Seq<PageTable>,
    start: u64,
    flags: PageTableFlags,
)
    requires
        mm0.ready(mem0),
        a.backed(mm0, mem0),
        b.backed(mm0, mem0),
        context::stacks_apart(a, b, mm0, mem0),
        context::stacks_apart(b, a, mm0, mem0),
        regions::fresh_mapped(mm0, mem0, mm1, mem1, start, 4, flags),
    ensures
        context::stacks_apart(a, b, mm1, mem1),
        context::stacks_apart(b, a, mm1, mem1),
{
    let sa = a.region.start.0 as int;
    let sb = b.region.start.0 as int;
    window::lemma_fresh_beside(mm0, mem0, mm1, mem1, start, 4, flags, sa, a.region.pages());
    window::lemma_fresh_beside(mm0, mem0, mm1, mem1, start, 4, flags, sb, b.region.pages());
    assert forall|i: int, j: int|
        0 <= i < a.region.pages() && 0 <= j < b.region.pages() implies #[trigger] window::frame_at(
        mm1,
        mem1,
        sa,
        i,
    ) != #[trigger] window::frame_at(mm1, mem1, sb, j) by {
        assert(window::frame_at(mm1, mem1, sa, i) == window::frame_at(mm0, mem0, sa, i));
        assert(window::frame_at(mm1, mem1, sb, j) == window::frame_at(mm0, mem0, sb, j));
    }
}

/// Where the first context of the self-test starts.
pub const TEST_ENTRY_A: u64 = 0x0000_0000_0010_0000;

/// Where the second one does.
pub const TEST_ENTRY_B: u64 = 0x0000_0000_0020_0000;

/// Switches from a context on the stack `from` to one on the stack `to`.
fn switch_stacks(
    frames: &mut [PageTable],
    mm: &MemoryManager,
    cpu: &mut CpuState,
    prev: &mut ExecutionContext,
    next: &mut ExecutionContext,
    Ghost(from): Ghost<KernelStack>,
    Ghost(to): Ghost<KernelStack>,
)
    requires
        mm.ready(old(frames)@),
        from.backed(*mm, old(frames)@),
        to.backed(*mm, old(frames)@),
        context::stacks_apart(from, to, *mm, old(frames)@),
        from.region.start.0 + FRAME_BYTES <= old(cpu).rsp <= from.region.limit(),
        old(cpu).rsp % 8 == 0,
        to.region.start.0 <= old(next).rsp,
        old(next).rsp + FRAME_BYTES <= to.region.limit(),
        old(next).rsp % 8 == 0,
    ensures
        mm.ready(final(frames)@),
        from.backed(*mm, final(frames)@),
        to.backed(*mm, final(frames)@),
        final(prev).rsp == old(cpu).rsp - FRAME_BYTES,
        final(next).rsp == old(next).rsp,
        from.words(*mm, final(frames)@) == context::with_frame(
            from.words(*mm, old(frames)@),
            (old(cpu).rsp - FRAME_BYTES - from.region.start.0) / 8,
            old(cpu).frame(),
        ),
        to.words(*mm, final(frames)@) == to.words(*mm, old(frames)@),
        *final(cpu) == CpuState::resumed(
            to.words(*mm, old(frames)@),
            (old(next).rsp - to.region.start.0) / 8,
            (old(next).rsp + FRAME_BYTES) as u64,
        ),
        window::only_within(
            *mm,
            old(frames)@,
            final(frames)@,
            from.region.start.0 as int,
            from.region.pages(),
        ),
{
    let ghost mem0 = frames@;
    let ghost left = *cpu;
    assert(context::writable_frame(*mm, mem0, cpu.rsp - FRAME_BYTES)) by {
        context::lemma_frame_in_stack(from, *mm, mem0, cpu.rsp - FRAME_BYTES);
    }
    assert(context::writable_frame(*mm, mem0, next.rsp as int)) by {
        context::lemma_frame_in_stack(to, *mm, mem0, next.rsp as int);
    }
    switch_context(frames, mm, cpu, prev, next);
    proof {
        context::lemma_switch_on_stacks(*mm, mem0, frames@, left, next.rsp as int, from, to);
    }
}

/// Switches from the stack of the self-test to one context, to another and back,
/// and checks where each runs and that the registers come back.
#[verifier::rlimit(30)]
fn test_switches(
    frames: &mut [PageTable],
    mm: &MemoryManager,
    ids: &mut IdSource,
    t: &TestStacks,
    trampoline: u64,
    Ghost(since): Ghost<Since>,
) -> (r: Result<(), &'static str>)
    requires
        trio(t.dummy, t.a, t.b, *mm, old(frames)@),
        beside_trio(since, t.dummy, t.a, t.b, *mm, old(frames)@),
    ensures
        r is Ok,
        trio(t.dummy, t.a, t.b, *mm, final(frames)@),
        beside_trio(since, t.dummy, t.a, t.b, *mm, final(frames)@),
        final(ids).next == old(ids).after(2),
{
    let ghost mem0 = frames@;
    let ghost da = t.dummy.region.start.0 as int;
    proof {
        context::lemma_backed_writable(t.a, *mm, mem0);
    }
    let mut ctx_a = match create_context(frames, mm, ids, TEST_ENTRY_A, &t.a, trampoline) {
        Ok(context) => context,
        Err(_) => return Err("failed ctx A"),
    };
    let ghost mem1 = frames@;
    proof {
        lemma_trio_beside(since, t.dummy, t.a, t.b, *mm, mem0, mem1);
        lemma_trio_written(t.dummy, t.a, t.b, *mm, mem0, mem1);
        context::lemma_backed_writable(t.b, *mm, mem1);
    }
    let mut ctx_b = match create_context(frames, mm, ids, TEST_ENTRY_B, &t.b, trampoline) {
        Ok(context) => context,
        Err(_) => return Err("failed ctx B"),
    };
    let ghost mem2 = frames@;
    let ghost wa = t.a.words(*mm, mem2);
    let ghost wb = t.b.words(*mm, mem2);
    proof {
        lemma_trio_beside(since, t.a, t.b, t.dummy, *mm, mem1, mem2);
        lemma_trio_written(t.a, t.b, t.dummy, *mm, mem1, mem2);
        context::lemma_first_switch(
            t.a.words(*mm, mem0),
            ctx_a.id,
            TEST_ENTRY_A,
            trampoline,
            t.a.region.limit() as u64,
        );
        context::lemma_first_switch(
            t.b.words(*mm, mem1),
            ctx_b.id,
            TEST_ENTRY_B,
            trampoline,
            t.b.region.limit() as u64,
        );
    }
    let mut main = ExecutionContext::empty();
    let mut cpu = CpuState {
        rip: 0x0000_0000_0030_0000,
        rsp: t.dummy.top(),
        rflags: context::INITIAL_RFLAGS,
        rbx: 0,
        rbp: 0,
        r12: 0x1212_1212_1212_1212,
        r13: 0x1313_1313_1313_1313,
        r14: 0,
        r15: 0,
        rdi: 0,
        rsi: 0,
    };
    let ghost cpu0 = cpu;
    proof {
        lemma_frame_place(t.dummy);
        lemma_frame_place(t.a);
        lemma_frame_place(t.b);
    }
    switch_stacks(frames, mm, &mut cpu, &mut main, &mut ctx_a, Ghost(t.dummy), Ghost(t.a));
    let ghost mem3 = frames@;
    proof {
        lemma_trio_beside(since, t.b, t.dummy, t.a, *mm, mem2, mem3);
        lemma_trio_written(t.b, t.dummy, t.a, *mm, mem2, mem3);
    }
    if cpu.rip != trampoline || cpu.r12 != TEST_ENTRY_A || cpu.rsp < t.a.bottom() || cpu.rsp
        > t.a.top() {
        return Err("Context A RSP was outside Stack A bounds!");
    }
    switch_stacks(frames, mm, &mut cpu, &mut ctx_a, &mut ctx_b, Ghost(t.a), Ghost(t.b));
    let ghost mem4 = frames@;
    proof {
        lemma_trio_beside(since, t.dummy, t.a, t.b, *mm, mem3, mem4);
        lemma_trio_written(t.dummy, t.a, t.b, *mm, mem3, mem4);
    }
    if cpu.rip != trampoline || cpu.r12 != TEST_ENTRY_B || cpu.rsp < t.b.bottom() || cpu.rsp
        > t.b.top() {
        return Err("Context B RSP was outside Stack B bounds!");
    }
    switch_stacks(frames, mm, &mut cpu, &mut ctx_b, &mut main, Ghost(t.b), Ghost(t.dummy));
    proof {
        lemma_trio_beside(since, t.a, t.b, t.dummy, *mm, mem4, frames@);
        lemma_trio_written(t.a, t.b, t.dummy, *mm, mem4, frames@);
        context::lemma_switch_round_trip(t.dummy.words(*mm, mem2), cpu0, da);
    }
    if cpu.rip != 0x0000_0000_0030_0000 || cpu.r12 != 0x1212_1212_1212_1212 || cpu.r13
        != 0x1313_1313_1313_1313 {
        return Err("Register preservation check failed!");
    }
    Ok(())
}

/// Where the frame at the end of a stack of the self-test is.
pub proof fn lemma_frame_place(s: KernelStack)
    requires
        plain_stack(s),
    ensures
        s.region.pages() == 4,
        s.region.limit() % 8 == 0,
        (s.region.limit() - FRAME_BYTES) % 8 == 0,
        (s.region.limit() - FRAME_BYTES - s.region.start.0) / 8 == 2038,
        (s.region.limit() - s.region.start.0) % 8 == 0,
        s.region.fits(),
        context::usable_address(s.region.limit() as u64),
{
    let q = s.region.start.0 as int / 4096;
    assert(s.region.start.0 == 4096 * q);
    assert(s.region.limit() == 8 * (512 * q + 2048));
}

/// Unmapping one stack and giving its frames back leaves another that is apart
/// from it.
proof fn lemma_backed_elsewhere(
    mm0: MemoryManager,
    mem0: Seq<PageTable>,
    mm1: MemoryManager,
    mem1: Seq<PageTable>,
    gone: KernelStack,
    left: KernelStack,
    since: Since,
)
    requires
        mm0.ready(mem0),
        mm1.ready(mem1),
        plain_stack(gone),
        plain_stack(left),
        gone.backed(mm0, mem0),
        left.backed(mm0, mem0),
        context::stacks_apart(gone, left, mm0, mem0),
        gone.region.limit() <= left.region.start.0,
        since.mm.pmm@.wf(),
        since.ours == Set::<int>::empty(),
        since.owns_stack(gone, mm0, mem0),
        since.owns_stack(left, mm0, mem0),
        mm1.tables() == mm0.tables(),
        mm1.root == mm0.root,
        mm1.pmm@ == regions::pool_after_unmap(
            mm0.pmm@,
            mem0,
            mm0.root.0 as int / 4096,
            gone.region.start.0,
            4,
        ),
        paging::pages_unmapped(
            mm0,
            mem0,
            mem1,
            mm0.root.0 as int / 4096,
            walk::page_of(gone.region.start.0),
            walk::page_of(gone.region.start.0) + 4,
        ),
    ensures
        left.backed(mm1, mem1),
        since.owns_stack(left, mm1, mem1),
        forall|i: int|
            0 <= i < 4 ==> #[trigger] window::frame_at(
                mm1,
                mem1,
                left.region.start.0 as int,
                i,
            ) == window::frame_at(mm0, mem0, left.region.start.0 as int, i),
{
    let r = mm0.root.0 as int / 4096;
    let g = gone.region.start.0;
    let l = left.region.start.0 as int;
    lemma_frame_place(gone);
    lemma_frame_place(left);
    assert(walk::page_of(g) == g as int / 4096);
    assert(mm0.is_table(r));
    assert forall|i: int| 0 <= i < 4 implies #[trigger] window::frame_at(mm0, mem0, g as int, i)
        > 0 by {
        reveal(kept::owned);
    }
    crate::laws::lemma_run_released(mm0, mem0, g, 4);
    assert forall|i: int| 0 <= i < 4 implies #[trigger] walk::mapping(mem1, r, l / 4096 + i)
        == walk::mapping(mem0, r, l / 4096 + i) by {
        assert(0 <= l / 4096 + i < walk::page_limit());
    }
    assert forall|i: int| 0 <= i < 4 implies {
        let f = #[trigger] window::frame_at(mm0, mem0, l, i);
        mm1.pmm@.used[f] && !mm1.is_table(f) && mem1[f] == mem0[f]
    } by {
        reveal(window::backed);
        assert(window::holds(mm0, mem0, l, i));
        let f = window::frame_at(mm0, mem0, l, i);
        assert(!mm0.is_table(f));
        assert forall|j: int| 0 <= j < 4 implies #[trigger] window::frame_at(mm0, mem0, g as int, j)
            != f by {}
    }
    window::lemma_backed_kept(mm0, mem0, mm1, mem1, l, 4);
    assert forall|i: int| 0 <= i < 4 implies #[trigger] window::frame_at(mm1, mem1, l, i)
        == window::frame_at(mm0, mem0, l, i) by {
        assert(walk::mapping(mem1, r, l / 4096 + i) == walk::mapping(mem0, r, l / 4096 + i));
    }
    kept::lemma_owns_same(since, mm0, mem0, mm1, mem1, l, 4);
}

/// Dropping the first of the three stacks of the self-test leaves the other two,
/// the last one first.
proof fn lemma_first_dropped(s: Seq<VirtRegion>, next: int)
    requires
        0 <= next <= u64::MAX - 0xC000,
        crate::vmm::regions_disjoint(with_three_stacks(s, next)),
        forall|i: int| 0 <= i < s.len() ==> crate::vmm::region_ok(#[trigger] s[i]),
    ensures
        crate::vmm::without_region(with_three_stacks(s, next), VirtAddr(next as u64)) == s.push(
            context::stack_region((next + 0x8000) as u64),
        ).push(context::stack_region((next + 0x4000) as u64)),
{
    let all = with_three_stacks(s, next);
    let at = s.len() as int;
    assert(all[at] == context::stack_region(next as u64));
    assert forall|i: int| 0 <= i < at implies (#[trigger] all[i]).start.0 != next by {
        assert(crate::vmm::region_ok(s[i]));
        assert(!all[i].meets(all[at].start.0 as int, all[at].limit()));
    }
    let i = choose|i: int|
        0 <= i < all.len() && (#[trigger] all[i]).start == VirtAddr(next as u64) && forall|k: int|
            0 <= k < i ==> (#[trigger] all[k]).start != VirtAddr(next as u64);
    assert(all[at].start == VirtAddr(next as u64));
    assert(i == at);
    assert(all.update(i, all.last()).drop_last() =~= s.push(
        context::stack_region((next + 0x8000) as u64),
    ).push(context::stack_region((next + 0x4000) as u64)));
}

/// Unmaps the stacks of the self-test, whose first one is at `next`, beside the
/// regions `s`.
#[verifier::rlimit(40)]
fn test_clean_up(
    frames: &mut [PageTable],
    mm: &mut MemoryManager,
    t: &TestStacks,
    Ghost(s): Ghost<Seq<VirtRegion>>,
    Ghost(next): Ghost<int>,
    Ghost(since): Ghost<Since>,
)
    requires
        trio(t.dummy, t.a, t.b, *old(mm), old(frames)@),
        beside_trio(since, t.dummy, t.a, t.b, *old(mm), old(frames)@),
        since.ours == Set::<int>::empty(),
        since.lo == next / 4096,
        since.hi == since.lo + 12,
        0 <= next <= crate::vmm::DYNAMIC_VIRT_END - 0xC000,
        stacks_from(*t, next),
        old(mm).vmm@ == with_three_stacks(s, next),
        forall|i: int| 0 <= i < s.len() ==> crate::vmm::region_ok(#[trigger] s[i]),
    ensures
        final(mm).ready(final(frames)@),
        final(mm).root == old(mm).root,
        final(mm).vmm@ == s,
        final(mm).vmm.next_dynamic_addr == old(mm).vmm.next_dynamic_addr,
        kept::unchanged(since.mm, since.mem, *final(mm), final(frames)@),
{
    let ghost mm0 = *mm;
    let ghost mem0 = frames@;
    proof {
        lemma_first_dropped(s, next);
    }
    drop_stack(frames, mm, &t.dummy, Ghost(since));
    let ghost mm1 = *mm;
    let ghost mem1 = frames@;
    proof {
        assert(stack_stays(since, t.dummy, t.a, mm0, mem0, mm1, mem1));
        assert(stack_stays(since, t.dummy, t.b, mm0, mem0, mm1, mem1));
        lemma_still_apart(since, t.dummy, t.a, t.b, mm0, mem0, mm1, mem1);
        lemma_registered_ok(mm1.vmm);
        crate::vmm_check::lemma_last_region(
            s.push(context::stack_region((next + 0x8000) as u64)),
            context::stack_region((next + 0x4000) as u64),
        );
    }
    drop_stack(frames, mm, &t.a, Ghost(since.minus(4)));
    proof {
        assert(stack_stays(since.minus(4), t.a, t.b, mm1, mem1, *mm, frames@));
        crate::vmm_check::lemma_last_region(
            s,
            context::stack_region((next + 0x8000) as u64),
        );
    }
    drop_stack(frames, mm, &t.b, Ghost(since.minus(8)));
    proof {
        kept::lemma_kept_nowhere(since.minus(12), *mm, frames@, 0);
    }
}

/// A stack behind `gone` that was backed and apart from it still is backed, by
/// the same frames.
spec fn stack_stays(
    since: Since,
    gone: KernelStack,
    left: KernelStack,
    mm0: MemoryManager,
    mem0: Seq<PageTable>,
    mm1: MemoryManager,
    mem1: Seq<PageTable>,
) -> bool {
    plain_stack(left) && left.backed(mm0, mem0) && since.owns_stack(left, mm0, mem0)
        && context::stacks_apart(gone, left, mm0, mem0) && gone.region.limit()
        <= left.region.start.0 ==> {
        &&& left.backed(mm1, mem1)
        &&& since.owns_stack(left, mm1, mem1)
        &&& forall|i: int|
            0 <= i < 4 ==> #[trigger] window::frame_at(
                mm1,
                mem1,
                left.region.start.0 as int,
                i,
            ) == window::frame_at(mm0, mem0, left.region.start.0 as int, i)
    }
}

/// Two stacks that stay are apart still.
proof fn lemma_still_apart(
    since: Since,
    gone: KernelStack,
    a: KernelStack,
    b: KernelStack,
    mm0: MemoryManager,
    mem0: Seq<PageTable>,
    mm1: MemoryManager,
    mem1: Seq<PageTable>,
)
    requires
        trio(gone, a, b, mm0, mem0),
        beside_trio(since, gone, a, b, mm0, mem0),
        gone.region.limit() <= a.region.start.0,
        gone.region.limit() <= b.region.start.0,
        stack_stays(since, gone, a, mm0, mem0, mm1, mem1),
        stack_stays(since, gone, b, mm0, mem0, mm1, mem1),
    ensures
        context::stacks_apart(a, b, mm1, mem1),
{
    let sa = a.region.start.0 as int;
    let sb = b.region.start.0 as int;
    lemma_frame_place(a);
    lemma_frame_place(b);
    assert forall|i: int, j: int|
        0 <= i < 4 && 0 <= j < 4 implies #[trigger] window::frame_at(mm1, mem1, sa, i)
        != #[trigger] window::frame_at(mm1, mem1, sb, j) by {
        assert(window::frame_at(mm0, mem0, sa, i) != window::frame_at(mm0, mem0, sb, j));
    }
}

/// Unmaps the first of the stacks that were mapped since, and gives its frames
/// back.
fn drop_stack(
    frames: &mut [PageTable],
    mm: &mut MemoryManager,
    gone: &KernelStack,
    Ghost(since): Ghost<Since>,
)
    requires
        old(mm).ready(old(frames)@),
        plain_stack(*gone),
        gone.backed(*old(mm), old(frames)@),
        gone.region.owns_physical_pages,
        since.mm.ready(since.mem),
        since.holds(*old(mm), old(frames)@),
        since.owns_stack(*gone, *old(mm), old(frames)@),
        since.ours == Set::<int>::empty(),
        since.lo == gone.region.start.0 as int / 4096,
        since.lo + 4 <= since.hi,
    ensures
        final(mm).ready(final(frames)@),
        final(mm).root == old(mm).root,
        final(mm).vmm@ == crate::vmm::without_region(old(mm).vmm@, gone.region.start),
        final(mm).vmm.next_dynamic_addr == old(mm).vmm.next_dynamic_addr,
        since.minus(4).holds(*final(mm), final(frames)@),
        forall|left: KernelStack| #[trigger]
            stack_stays(
                since,
                *gone,
                left,
                *old(mm),
                old(frames)@,
                *final(mm),
                final(frames)@,
            ),
{
    let ghost mm0 = *mm;
    let ghost mem0 = frames@;
    proof {
        lemma_frame_place(*gone);
        crate::vmm_check::lemma_backed_no_table(mm0, mem0, gone.region, 4);
        crate::vmm_check::lemma_backed_unmappable(mm0, mem0, gone.region.start.0, 4);
        assert(since.mm.root == mm0.root) by {
            reveal(kept::kept);
        }
        assert(walk::page_of(gone.region.start.0) == since.lo);
    }
    let _ = unmap_region(frames, mm, &gone.region);
    proof {
        kept::lemma_kept_released(since, mm0, mem0, *mm, frames@, gone.region.start.0, 4);
        assert forall|left: KernelStack| #[trigger]
            stack_stays(since, *gone, left, mm0, mem0, *mm, frames@) by {
            if plain_stack(left) && left.backed(mm0, mem0) && since.owns_stack(left, mm0, mem0)
                && context::stacks_apart(*gone, left, mm0, mem0) && gone.region.limit()
                <= left.region.start.0 {
                lemma_backed_elsewhere(mm0, mem0, *mm, frames@, *gone, left, since);
            }
        }
    }
}

/// The regions of a registry but the last are fit to be registered.
proof fn lemma_registered_ok(vmm: VirtualMemoryManager)
    requires
        vmm.wf(),
        vmm@.len() > 0,
    ensures
        forall|i: int|
            0 <= i < vmm@.len() - 1 ==> crate::vmm::region_ok(#[trigger] vmm@.drop_last()[i]),
{
    assert forall|i: int| 0 <= i < vmm@.len() - 1 implies crate::vmm::region_ok(
        #[trigger] vmm@.drop_last()[i],
    ) by {
        assert(crate::vmm::region_ok(vmm@[i]));
    }
}

/// Checks execution contexts on themselves: entry points that are refused,
/// stacks of their own, and switches from one to another and back. It passes
/// wherever three stacks can be had, and unmaps them again.
pub fn run_self_tests(
    frames: &mut [PageTable],
    mm: &mut MemoryManager,
    ids: &mut IdSource,
    trampoline: u64,
) -> (r: Result<(), &'static str>)
    requires
        old(mm).ready(old(frames)@),
    ensures
        final(mm).ready(final(frames)@),
        final(mm).root == old(mm).root,
        match r {
            Ok(()) => {
                &&& stack_fault(*old(mm), old(frames)@) is None
                &&& final(ids).next == old(ids).after(2)
                &&& final(mm).vmm@ == old(mm).vmm@
                &&& final(mm).vmm.next_dynamic_addr == old(mm).vmm.next_dynamic_addr + 0xC000
                &&& kept::unchanged(*old(mm), old(frames)@, *final(mm), final(frames)@)
            },
            Err(m) => {
                &&& stack_fault(*old(mm), old(frames)@) == Some(m)
                &&& *final(ids) == *old(ids)
                &&& stacks_stayed(*old(mm), old(frames)@, *final(mm), final(frames)@)
                &&& stacks_reserved(
                    *old(mm),
                    *final(mm),
                    stacks_made(*old(mm), old(frames)@),
                )
            },
        },
{
    let ghost next = mm.vmm.next_dynamic_addr as int;
    let ghost s = mm.vmm@;
    let ghost since = before(*mm, frames@);
    let t = match test_stacks(frames, mm) {
        Ok(t) => t,
        Err(message) => return Err(message),
    };
    proof {
        lemma_frame_place(t.dummy);
    }
    let null_entry = create_context_raw(frames, mm, ids, 0, &t.dummy, trampoline);
    if !matches!(null_entry, Err(ContextError::InvalidEntryPoint)) {
        return Err("Null entry point was not rejected!");
    }
    let wild_entry = create_context_raw(
        frames,
        mm,
        ids,
        0xDEAD_0000_0000_0000,
        &t.dummy,
        trampoline,
    );
    if !matches!(wild_entry, Err(ContextError::InvalidEntryPoint)) {
        return Err("Non-canonical entry point was not rejected!");
    }
    if t.a.bottom() == t.b.bottom() {
        return Err("Context A and B shared identical stack addresses!");
    }
    match test_switches(frames, mm, ids, &t, trampoline, Ghost(since.plus(12))) {
        Ok(()) => {},
        Err(message) => return Err(message),
    }
    test_clean_up(frames, mm, &t, Ghost(s), Ghost(next), Ghost(since.plus(12)));
    Ok(())
}

} // verus!
