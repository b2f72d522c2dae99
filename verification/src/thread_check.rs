//! The self-test of threads.

use vstd::prelude::*;
use crate::context;
use crate::context::{CpuState, KernelStack, FRAME_BYTES};
use crate::context_check;
use crate::kept;
use crate::kept::Since;
use crate::paging::MemoryManager;
use crate::regions;
use crate::thread;
use crate::thread::{switch_threads, switch_to, KernelThread, SwitchError, ThreadIds, ThreadState};
use crate::vmm::{PageTable, VirtRegion};
use crate::window;

verus! {

/// The registers that thread `t` goes on with.
#[verifier::opaque]
pub open spec fn saved(t: KernelThread, mm: MemoryManager, mem: Seq<PageTable>) -> CpuState {
    CpuState::resumed(
        t.stack.words(mm, mem),
        (t.context.rsp - t.stack.region.start.0) / 8,
        (t.context.rsp + FRAME_BYTES) as u64,
    )
}

/// Thread `t` does not run and can be gone to.
#[verifier::opaque]
pub open spec fn parked(t: KernelThread, mm: MemoryManager, mem: Seq<PageTable>) -> bool {
    &&& t.state != ThreadState::Terminated
    &&& t.stack.region.start.0 <= t.context.rsp
    &&& t.context.rsp + FRAME_BYTES <= t.stack.region.limit()
    &&& t.context.rsp % 8 == 0
    &&& context::usable_address(t.context.rsp)
    &&& context::usable_address(t.context.rip)
    &&& context::usable_address(saved(t, mm, mem).rip)
}

/// The processor runs on the stack of thread `t`.
#[verifier::opaque]
pub open spec fn running_on(cpu: CpuState, t: KernelThread) -> bool {
    &&& t.stack.region.start.0 + FRAME_BYTES <= cpu.rsp <= t.stack.region.limit()
    &&& cpu.rsp % 8 == 0
    &&& context::usable_address(cpu.rip)
}

/// Two threads with the same number, stack, name, process and purpose.
pub open spec fn same_thread(a: KernelThread, b: KernelThread) -> bool {
    a.id == b.id && a.stack == b.stack && a.name == b.name && a.process_id == b.process_id
        && a.entry == b.entry && a.arg == b.arg
}

/// Three stacks that are backed and apart.
#[verifier::opaque]
pub open spec fn staged(
    z: KernelStack,
    x: KernelStack,
    y: KernelStack,
    mm: MemoryManager,
    mem: Seq<PageTable>,
) -> bool {
    context_check::trio(z, x, y, mm, mem)
}

/// All but the three stacks is as it was then.
#[verifier::opaque]
pub open spec fn aside(
    since: Since,
    z: KernelStack,
    x: KernelStack,
    y: KernelStack,
    mm: MemoryManager,
    mem: Seq<PageTable>,
) -> bool {
    context_check::beside_trio(since, z, x, y, mm, mem)
}

/// The order of the three does not matter.
pub proof fn lemma_turn(
    since: Since,
    x: KernelStack,
    y: KernelStack,
    z: KernelStack,
    mm: MemoryManager,
    mem: Seq<PageTable>,
)
    requires
        staged(x, y, z, mm, mem),
        aside(since, x, y, z, mm, mem),
    ensures
        aside(since, x, z, y, mm, mem),
        aside(since, y, x, z, mm, mem),
        aside(since, y, z, x, mm, mem),
        aside(since, z, x, y, mm, mem),
        aside(since, z, y, x, mm, mem),
        staged(x, z, y, mm, mem),
        staged(y, x, z, mm, mem),
        staged(y, z, x, mm, mem),
        staged(z, x, y, mm, mem),
        staged(z, y, x, mm, mem),
        mm.ready(mem),
{
    reveal(staged);
    reveal(aside);
}

/// Goes from thread `x` to thread `y`; thread `z` is left alone.
pub(crate) fn hop(
    frames: &mut [PageTable],
    mm: &MemoryManager,
    cpu: &mut CpuState,
    x: &mut KernelThread,
    y: &mut KernelThread,
    z: &KernelThread,
    Ghost(since): Ghost<Since>,
) -> (r: Result<(), SwitchError>)
    requires
        staged(z.stack, old(x).stack, old(y).stack, *mm, old(frames)@),
        aside(since, z.stack, old(x).stack, old(y).stack, *mm, old(frames)@),
        old(x).id != old(y).id,
        running_on(*old(cpu), *old(x)),
        parked(*old(y), *mm, old(frames)@),
    ensures
        r is Ok,
        staged(z.stack, final(x).stack, final(y).stack, *mm, final(frames)@),
        aside(since, z.stack, final(x).stack, final(y).stack, *mm, final(frames)@),
        same_thread(*old(x), *final(x)),
        same_thread(*old(y), *final(y)),
        final(y).state == ThreadState::Running,
        parked(*final(x), *mm, final(frames)@),
        running_on(*final(cpu), *final(y)),
        saved(*final(x), *mm, final(frames)@) == *old(cpu),
        *final(cpu) == saved(*old(y), *mm, old(frames)@),
        parked(*z, *mm, old(frames)@) ==> parked(*z, *mm, final(frames)@),
        saved(*z, *mm, final(frames)@) == saved(*z, *mm, old(frames)@),
        forall|k: int, spare: int|
            k >= 0 ==> (#[trigger] context::stack_room(*mm, final(frames)@, k, spare)
                <==> context::stack_room(*mm, old(frames)@, k, spare)),
{
    let ghost mem0 = frames@;
    let ghost cpu0 = *cpu;
    let ghost x0 = *x;
    let ghost y0 = *y;
    proof {
        reveal(staged);
        reveal(parked);
        reveal(running_on);
    }
    proof {
        thread::lemma_stacks_ready(*mm, mem0, cpu0, x0, y0);
    }
    let r = switch_threads(frames, mm, cpu, x, y);
    proof {
        reveal(saved);
        assert(aside(since, z.stack, x0.stack, y0.stack, *mm, frames@)) by {
            reveal(aside);
            context_check::lemma_trio_beside(
                since,
                z.stack,
                x0.stack,
                y0.stack,
                *mm,
                mem0,
                frames@,
            );
        }
        context_check::lemma_trio_written(z.stack, x0.stack, y0.stack, *mm, mem0, frames@);
        lemma_left(x0, *x, cpu0, *mm, mem0, frames@);
        lemma_units_up(y0.context.rsp as int);
        assert forall|k: int, spare: int| k >= 0 implies (#[trigger] context::stack_room(
            *mm,
            frames@,
            k,
            spare,
        ) <==> context::stack_room(*mm, mem0, k, spare)) by {
            context::lemma_room_kept(
                *mm,
                mem0,
                frames@,
                x0.stack.region.start.0 as int,
                x0.stack.region.pages(),
                k,
                spare,
            );
        }
    }
    r
}

/// A thread that the processor left goes on with the registers it was left with.
proof fn lemma_left(
    x0: KernelThread,
    x1: KernelThread,
    cpu: CpuState,
    mm: MemoryManager,
    mem0: Seq<PageTable>,
    mem1: Seq<PageTable>,
)
    requires
        context_check::plain_stack(x0.stack),
        running_on(cpu, x0),
        x1.stack == x0.stack,
        x1.state == ThreadState::Ready,
        x1.context.rsp == cpu.rsp - FRAME_BYTES,
        x1.context.rip == cpu.rip,
        x0.stack.words(mm, mem1) == context::with_frame(
            x0.stack.words(mm, mem0),
            (cpu.rsp - FRAME_BYTES - x0.stack.region.start.0) / 8,
            cpu.frame(),
        ),
    ensures
        parked(x1, mm, mem1),
        saved(x1, mm, mem1) == cpu,
{
    reveal(saved);
    reveal(parked);
    reveal(running_on);
    let s = x0.stack.region.start.0 as int;
    context_check::lemma_frame_place(x0.stack);
    lemma_units(s, cpu.rsp as int);
    context::lemma_switch_round_trip(x0.stack.words(mm, mem0), cpu, s);
}

proof fn lemma_units(s: int, rsp: int)
    requires
        s % 4096 == 0,
        rsp % 8 == 0,
    ensures
        (rsp - s) % 8 == 0,
        (rsp - FRAME_BYTES) % 8 == 0,
{
}

proof fn lemma_units_up(rsp: int)
    requires
        rsp % 8 == 0,
    ensures
        (rsp + FRAME_BYTES) % 8 == 0,
{
}

/// A stack that was mapped before a thread was made is as it was, and apart from
/// the thread's.
pub proof fn lemma_thread_beside(
    mm0: MemoryManager,
    mem0: Seq<PageTable>,
    mm1: MemoryManager,
    mem1: Seq<PageTable>,
    before: KernelStack,
    made: KernelStack,
    frame: Seq<u64>,
)
    requires
        mm0.ready(mem0),
        mm1.ready(mem1),
        before.backed(mm0, mem0),
        regions::allocate_refusal(mm0, mem0, context::STACK_SIZE_BYTES) is None,
        context::context_made(mm0, mem0, mm1, mem1, made, frame),
    ensures
        before.backed(mm1, mem1),
        before.words(mm1, mem1) == before.words(mm0, mem0),
        context::stacks_apart(before, made, mm1, mem1),
        context::stacks_apart(made, before, mm1, mem1),
        context_check::plain_stack(made),
{
    let next = mm0.vmm.next_dynamic_addr;
    let region = context::stack_region(next);
    let flags = region.permissions.page_flags();
    context::lemma_stack_flags();
    let mid = choose|mid: Seq<PageTable>| #[trigger]
        context::made_through(mm0, mem0, mm1, mid, mem1, made, frame);
    context_check::lemma_stack_beside(mm0, mem0, mm1, mid, before, made, flags);
    context::lemma_stack_kept(made, before, mm1, mid, mem1);
    context_check::lemma_apart_kept(
        before,
        made,
        mm1,
        mid,
        mem1,
        next as int,
        region.pages(),
    );
    context_check::lemma_apart_kept(
        made,
        before,
        mm1,
        mid,
        mem1,
        next as int,
        region.pages(),
    );
}

/// Stacks stay apart while a thread is made.
pub proof fn lemma_apart_beside(
    mm0: MemoryManager,
    mem0: Seq<PageTable>,
    mm1: MemoryManager,
    mem1: Seq<PageTable>,
    a: KernelStack,
    b: KernelStack,
    made: KernelStack,
    frame: Seq<u64>,
)
    requires
        mm0.ready(mem0),
        mm1.ready(mem1),
        a.backed(mm0, mem0),
        b.backed(mm0, mem0),
        context::stacks_apart(a, b, mm0, mem0),
        context::stacks_apart(b, a, mm0, mem0),
        regions::allocate_refusal(mm0, mem0, context::STACK_SIZE_BYTES) is None,
        context::context_made(mm0, mem0, mm1, mem1, made, frame),
    ensures
        context::stacks_apart(a, b, mm1, mem1),
        context::stacks_apart(b, a, mm1, mem1),
{
    let next = mm0.vmm.next_dynamic_addr;
    let region = context::stack_region(next);
    let flags = region.permissions.page_flags();
    context::lemma_stack_flags();
    let mid = choose|mid: Seq<PageTable>| #[trigger]
        context::made_through(mm0, mem0, mm1, mid, mem1, made, frame);
    context_check::lemma_stack_beside(mm0, mem0, mm1, mid, a, made, flags);
    context_check::lemma_stack_beside(mm0, mem0, mm1, mid, b, made, flags);
    context_check::lemma_apart_grown(a, b, mm0, mem0, mm1, mid, next, flags);
    context_check::lemma_apart_kept(a, b, mm1, mid, mem1, next as int, region.pages());
    context_check::lemma_apart_kept(b, a, mm1, mid, mem1, next as int, region.pages());
}

/// A thread that is made leaves all else, and the stacks that were mapped before
/// its own.
pub proof fn lemma_thread_aside(
    since: Since,
    mm0: MemoryManager,
    mem0: Seq<PageTable>,
    mm1: MemoryManager,
    mem1: Seq<PageTable>,
    a: KernelStack,
    b: KernelStack,
    made: KernelStack,
    frame: Seq<u64>,
)
    requires
        mm0.ready(mem0),
        mm1.ready(mem1),
        context_check::plain_stack(a),
        context_check::plain_stack(b),
        a.backed(mm0, mem0),
        b.backed(mm0, mem0),
        aside(since, a, b, b, mm0, mem0),
        since.lo <= since.hi,
        since.hi == mm0.vmm.next_dynamic_addr as int / 4096,
        regions::allocate_refusal(mm0, mem0, context::STACK_SIZE_BYTES) is None,
        context::context_made(mm0, mem0, mm1, mem1, made, frame),
    ensures
        aside(since.plus(4), a, b, made, mm1, mem1),
        since.plus(4).hi == mm1.vmm.next_dynamic_addr as int / 4096,
{
    reveal(aside);
    let next = mm0.vmm.next_dynamic_addr;
    let region = context::stack_region(next);
    let flags = region.permissions.page_flags();
    context::lemma_stack_flags();
    let mid = choose|mid: Seq<PageTable>| #[trigger]
        context::made_through(mm0, mem0, mm1, mid, mem1, made, frame);
    assert(context_check::plain_stack(made));
    context_check::lemma_frame_place(made);
    context_check::lemma_frame_place(a);
    context_check::lemma_frame_place(b);
    context_check::lemma_stack_since(since, mm0, mem0, mm1, mid, made, flags);
    assert(since.owns_stack(a, mm0, mem0));
    assert(since.owns_stack(b, mm0, mem0));
    let s = next as int;
    kept::lemma_kept_write(since.plus(4), mm1, mid, mem1, s, 4);
    window::lemma_tables_kept(mm1, mid, mem1, s, 4);
    window::lemma_frames_kept(mm1, mid, mem1, s, 4);
    window::lemma_frames_kept(mm1, mid, mem1, a.region.start.0 as int, 4);
    window::lemma_frames_kept(mm1, mid, mem1, b.region.start.0 as int, 4);
    kept::lemma_owns_same(since, mm1, mid, mm1, mem1, s, 4);
    kept::lemma_owns_same(since, mm1, mid, mm1, mem1, a.region.start.0 as int, 4);
    kept::lemma_owns_same(since, mm1, mid, mm1, mem1, b.region.start.0 as int, 4);
}

/// An attempt to make a thread that was refused leaves all else.
pub proof fn lemma_refused_aside(
    since: Since,
    mm0: MemoryManager,
    mem0: Seq<PageTable>,
    mm1: MemoryManager,
    mem1: Seq<PageTable>,
    a: KernelStack,
    b: KernelStack,
)
    requires
        mm0.ready(mem0),
        aside(since, a, b, b, mm0, mem0),
        regions::rolled_back(mm0, mem0, mm1, mem1),
    ensures
        since.holds(mm1, mem1),
{
    reveal(aside);
    kept::lemma_kept_tables(since, mm0, mem0, mm1, mem1);
}

/// A thread takes the room of one stack.
pub proof fn lemma_thread_room(
    mm0: MemoryManager,
    mem0: Seq<PageTable>,
    mm1: MemoryManager,
    mem1: Seq<PageTable>,
    made: KernelStack,
    frame: Seq<u64>,
)
    requires
        mm0.ready(mem0),
        mm1.ready(mem1),
        context::stack_room(mm0, mem0, 1, 0),
        context::context_made(mm0, mem0, mm1, mem1, made, frame),
    ensures
        room_taken(mm0, mem0, mm1, mem1),
{
    let mid = choose|mid: Seq<PageTable>| #[trigger]
        context::made_through(mm0, mem0, mm1, mid, mem1, made, frame);
    let region = context::stack_region(mm0.vmm.next_dynamic_addr);
    reveal(room_taken);
    assert forall|k: int, spare: int| k >= 0 implies (#[trigger] context::stack_room(
        mm1,
        mem1,
        k,
        spare,
    ) <==> context::stack_room(mm0, mem0, k + 1, spare)) by {
        context::lemma_stack_taken(mm0, mem0, mm1, mid, k, spare);
        context::lemma_room_kept(
            mm1,
            mid,
            mem1,
            region.start.0 as int,
            region.pages(),
            k,
            spare,
        );
    }
}

/// From one state to another, the room for one stack was taken.
#[verifier::opaque]
pub open spec fn room_taken(
    mm0: MemoryManager,
    mem0: Seq<PageTable>,
    mm1: MemoryManager,
    mem1: Seq<PageTable>,
) -> bool {
    forall|k: int, spare: int|
        k >= 0 ==> (#[trigger] context::stack_room(mm1, mem1, k, spare) <==> context::stack_room(
            mm0,
            mem0,
            k + 1,
            spare,
        ))
}

/// A new thread can be gone to, and starts at the trampoline.
pub proof fn lemma_thread_parked(
    mm0: MemoryManager,
    mem0: Seq<PageTable>,
    mm1: MemoryManager,
    mem1: Seq<PageTable>,
    ids: ThreadIds,
    t: KernelThread,
    name: &'static str,
    entry: u64,
    arg: usize,
    trampoline: u64,
)
    requires
        mm0.ready(mem0),
        mm1.ready(mem1),
        context::usable_address(trampoline),
        thread::thread_made(
            mm0,
            mem0,
            mm1,
            mem1,
            ids,
            t,
            name,
            entry,
            arg,
            trampoline,
        ),
    ensures
        parked(t, mm1, mem1),
        saved(t, mm1, mem1).rip == trampoline,
        saved(t, mm1, mem1).r12 == entry,
        saved(t, mm1, mem1).r13 == ids.contexts.next,
{
    reveal(saved);
    reveal(parked);
    let next = mm0.vmm.next_dynamic_addr;
    let region = context::stack_region(next);
    let flags = region.permissions.page_flags();
    let frame = context::initial_frame(ids.contexts.next, entry, trampoline);
    let mid = choose|mid: Seq<PageTable>| #[trigger]
        context::made_through(mm0, mem0, mm1, mid, mem1, t.stack, frame);
    assert(context_check::plain_stack(t.stack));
    context_check::lemma_frame_place(t.stack);
    context::lemma_first_switch(
        t.stack.words(mm1, mid),
        ids.contexts.next,
        entry,
        trampoline,
        t.stack.region.limit() as u64,
    );
}

/// What is known of a stack between the steps of the self-test.
#[verifier::opaque]
pub open spec fn standing(s: KernelStack, mm: MemoryManager, mem: Seq<PageTable>) -> bool {
    context_check::plain_stack(s) && s.backed(mm, mem)
}

/// Two stacks that are backed and apart.
#[verifier::opaque]
pub open spec fn duo(a: KernelStack, b: KernelStack, mm: MemoryManager, mem: Seq<PageTable>) -> bool {
    &&& context_check::plain_stack(a) && context_check::plain_stack(b)
    &&& a.backed(mm, mem) && b.backed(mm, mem)
    &&& context::stacks_apart(a, b, mm, mem) && context::stacks_apart(b, a, mm, mem)
}

/// The first thread of the self-test: the boot's, on the stack that it runs on.
pub(crate) fn first_thread(boot: &KernelStack) -> (r: KernelThread)
    ensures
        r.id == 0,
        r.stack == *boot,
{
    let mut main = KernelThread::bootstrap();
    main.stack = KernelStack { region: boot.region };
    main
}

/// The state before the self-test, in which the boot's stack may be written.
pub open spec fn before(boot: KernelStack, mm: MemoryManager, mem: Seq<PageTable>) -> Since {
    let page = mm.vmm.next_dynamic_addr as int / 4096;
    Since {
        mm,
        mem,
        lo: page,
        hi: page,
        ours: kept::frames_of(mm, mem, boot.region.start.0 as int, boot.region.pages()),
    }
}

/// All is as it was, but for what is on the boot's stack and for the pages of the
/// dynamic range that were mapped.
pub open spec fn stacks_stayed(
    boot: KernelStack,
    mm0: MemoryManager,
    mem0: Seq<PageTable>,
    mm1: MemoryManager,
    mem1: Seq<PageTable>,
) -> bool {
    kept::kept(
        mm0,
        mem0,
        mm1,
        mem1,
        mm0.vmm.next_dynamic_addr as int / 4096,
        mm1.vmm.next_dynamic_addr as int / 4096,
        kept::frames_of(mm0, mem0, boot.region.start.0 as int, boot.region.pages()),
    )
}

/// At first all is as it was.
pub proof fn lemma_first_aside(boot: KernelStack, mm: MemoryManager, mem: Seq<PageTable>)
    requires
        mm.ready(mem),
    ensures
        aside(before(boot, mm, mem), boot, boot, boot, mm, mem),
{
    reveal(aside);
    reveal(kept::owned);
    kept::lemma_kept_first(before(boot, mm, mem));
    let start = boot.region.start.0 as int;
    let n = boot.region.pages();
    assert forall|i: int| 0 <= i < n implies kept::frames_of(mm, mem, start, n).contains(
        #[trigger] window::frame_at(mm, mem, start, i),
    ) by {}
}

/// From one state to another, `n` threads were made: their numbers and those of
/// their contexts were handed out, and their stacks reserved.
pub open spec fn threads_added(
    mm0: MemoryManager,
    ids0: ThreadIds,
    mm1: MemoryManager,
    ids1: ThreadIds,
    n: nat,
) -> bool {
    &&& ids1.threads.next == ids0.threads.next + n
    &&& ids1.contexts.next == ids0.contexts.after(n)
    &&& mm1.vmm.next_dynamic_addr == mm0.vmm.next_dynamic_addr + 0x4000 * n
    &&& mm1.vmm@ == context::with_stacks(mm0.vmm@, mm0.vmm.next_dynamic_addr, n)
}

/// What making one thread adds.
pub proof fn lemma_thread_added(
    mm0: MemoryManager,
    ids0: ThreadIds,
    mm1: MemoryManager,
    ids1: ThreadIds,
)
    requires
        ids0.threads.next < u64::MAX,
        ids1.threads.next == ids0.threads.after(1),
        ids1.contexts.next == ids0.contexts.after(1),
        mm1.vmm.next_dynamic_addr == context::stack_region(mm0.vmm.next_dynamic_addr).limit(),
        mm1.vmm@ == mm0.vmm@.push(context::stack_region(mm0.vmm.next_dynamic_addr)),
    ensures
        threads_added(mm0, ids0, mm1, ids1, 1),
{
    reveal_with_fuel(context::with_stacks, 2);
    assert((mm0.vmm.next_dynamic_addr + 0x4000 * 0) as u64 == mm0.vmm.next_dynamic_addr);
}

/// Stacks that are reserved behind others are reserved with them.
proof fn lemma_with_stacks(s: Seq<VirtRegion>, next: u64, n: nat, m: nat)
    requires
        next + 0x4000 * (n + m) <= u64::MAX,
    ensures
        context::with_stacks(
            context::with_stacks(s, next, n),
            (next + 0x4000 * n) as u64,
            m,
        ) == context::with_stacks(s, next, n + m),
    decreases m,
{
    if m > 0 {
        lemma_with_stacks(s, next, n, (m - 1) as nat);
        assert(((next + 0x4000 * n) as u64 + 0x4000 * (m - 1)) as u64 == (next + 0x4000 * (n + m
            - 1)) as u64);
    }
}

/// Threads that were made are added to those before.
pub proof fn lemma_threads_added(
    mm0: MemoryManager,
    ids0: ThreadIds,
    mm1: MemoryManager,
    ids1: ThreadIds,
    mm2: MemoryManager,
    ids2: ThreadIds,
    n: nat,
    m: nat,
)
    requires
        threads_added(mm0, ids0, mm1, ids1, n),
        threads_added(mm1, ids1, mm2, ids2, m),
    ensures
        threads_added(mm0, ids0, mm2, ids2, n + m),
{
    crate::ids::lemma_ids_in_turn(ids0.contexts, ids1.contexts, n, m);
    lemma_with_stacks(mm0.vmm@, mm0.vmm.next_dynamic_addr, n, m);
}

/// The second thread: a new one, beside the stack of the first.
fn second_thread(
    frames: &mut [PageTable],
    mm: &mut MemoryManager,
    ids: &mut ThreadIds,
    trampoline: u64,
    name: &'static str,
    arg: usize,
    main: &KernelThread,
    Ghost(since): Ghost<Since>,
) -> (r: Option<KernelThread>)
    requires
        old(mm).ready(old(frames)@),
        context::usable_address(trampoline),
        old(ids).threads.next < u64::MAX,
        standing(main.stack, *old(mm), old(frames)@),
        aside(since, main.stack, main.stack, main.stack, *old(mm), old(frames)@),
        since.lo <= since.hi,
        since.hi == old(mm).vmm.next_dynamic_addr as int / 4096,
    ensures
        r is None ==> since.holds(*final(mm), final(frames)@) && since.hi
            == final(mm).vmm.next_dynamic_addr as int / 4096,
        threads_added(
            *old(mm),
            *old(ids),
            *final(mm),
            *final(ids),
            if r is Some {
                1
            } else {
                0
            },
        ),
        final(mm).ready(final(frames)@),
        final(mm).root == old(mm).root,
        r is Some <==> context::stack_room(*old(mm), old(frames)@, 1, 0),
        r is Some ==> room_taken(*old(mm), old(frames)@, *final(mm), final(frames)@),
        r matches Some(t) ==> {
            &&& t.id == old(ids).threads.next
            &&& final(ids).threads.next == old(ids).threads.next + 1
            &&& final(mm).vmm.next_dynamic_addr == old(mm).vmm.next_dynamic_addr + 0x4000
            &&& duo(main.stack, t.stack, *final(mm), final(frames)@)
            &&& aside(
                since.plus(4),
                main.stack,
                t.stack,
                t.stack,
                *final(mm),
                final(frames)@,
            )
            &&& since.plus(4).hi == final(mm).vmm.next_dynamic_addr as int / 4096
            &&& parked(t, *final(mm), final(frames)@)
            &&& saved(t, *final(mm), final(frames)@).r12 == context_check::TEST_ENTRY_A
        },
{
    let ghost mm0 = *mm;
    let ghost mem0 = frames@;
    let ghost ids0 = *ids;
    proof {
        reveal(standing);
        reveal(duo);
        assert(mm0.is_table(mm0.root.0 as int / 4096));
        context::lemma_stack_room(mm0, mem0);
    }
    match KernelThread::new(frames, mm, ids, name, context_check::TEST_ENTRY_A, arg, trampoline) {
        Ok(t) => {
            proof {
                let frame = context::initial_frame(
                    ids0.contexts.next,
                    context_check::TEST_ENTRY_A,
                    trampoline,
                );
                lemma_thread_beside(mm0, mem0, *mm, frames@, main.stack, t.stack, frame);
                lemma_thread_parked(
                    mm0,
                    mem0,
                    *mm,
                    frames@,
                    ids0,
                    t,
                    name,
                    context_check::TEST_ENTRY_A,
                    arg,
                    trampoline,
                );
                lemma_thread_aside(
                    since,
                    mm0,
                    mem0,
                    *mm,
                    frames@,
                    main.stack,
                    main.stack,
                    t.stack,
                    frame,
                );
                assert(aside(since.plus(4), main.stack, t.stack, t.stack, *mm, frames@)) by {
                    reveal(aside);
                }
                lemma_thread_room(mm0, mem0, *mm, frames@, t.stack, frame);
                lemma_thread_added(mm0, ids0, *mm, *ids);
            }
            Some(t)
        },
        Err(_) => {
            proof {
                lemma_refused_aside(since, mm0, mem0, *mm, frames@, main.stack, main.stack);
            }
            None
        },
    }
}

/// The third thread: a new one, beside the stacks of the others.
fn third_thread(
    frames: &mut [PageTable],
    mm: &mut MemoryManager,
    ids: &mut ThreadIds,
    trampoline: u64,
    name: &'static str,
    arg: usize,
    main: &KernelThread,
    a: &KernelThread,
    Ghost(since): Ghost<Since>,
) -> (r: Option<KernelThread>)
    requires
        old(mm).ready(old(frames)@),
        context::usable_address(trampoline),
        old(ids).threads.next < u64::MAX,
        duo(main.stack, a.stack, *old(mm), old(frames)@),
        aside(since, main.stack, a.stack, a.stack, *old(mm), old(frames)@),
        since.lo <= since.hi,
        since.hi == old(mm).vmm.next_dynamic_addr as int / 4096,
    ensures
        r is None ==> since.holds(*final(mm), final(frames)@) && since.hi
            == final(mm).vmm.next_dynamic_addr as int / 4096,
        threads_added(
            *old(mm),
            *old(ids),
            *final(mm),
            *final(ids),
            if r is Some {
                1
            } else {
                0
            },
        ),
        final(mm).ready(final(frames)@),
        final(mm).root == old(mm).root,
        r is Some <==> context::stack_room(*old(mm), old(frames)@, 1, 0),
        r is Some ==> room_taken(*old(mm), old(frames)@, *final(mm), final(frames)@),
        r matches Some(t) ==> {
            &&& t.id == old(ids).threads.next
            &&& final(ids).threads.next == old(ids).threads.next + 1
            &&& final(mm).vmm.next_dynamic_addr == old(mm).vmm.next_dynamic_addr + 0x4000
            &&& staged(main.stack, a.stack, t.stack, *final(mm), final(frames)@)
            &&& aside(
                since.plus(4),
                main.stack,
                a.stack,
                t.stack,
                *final(mm),
                final(frames)@,
            )
            &&& since.plus(4).hi == final(mm).vmm.next_dynamic_addr as int / 4096
            &&& parked(t, *final(mm), final(frames)@)
            &&& saved(t, *final(mm), final(frames)@).r12 == context_check::TEST_ENTRY_B
            &&& parked(*a, *old(mm), old(frames)@) ==> parked(*a, *final(mm), final(frames)@)
            &&& saved(*a, *final(mm), final(frames)@) == saved(*a, *old(mm), old(frames)@)
        },
{
    let ghost mm0 = *mm;
    let ghost mem0 = frames@;
    let ghost ids0 = *ids;
    proof {
        reveal(duo);
        reveal(staged);
        assert(mm0.is_table(mm0.root.0 as int / 4096));
        context::lemma_stack_room(mm0, mem0);
    }
    match KernelThread::new(frames, mm, ids, name, context_check::TEST_ENTRY_B, arg, trampoline) {
        Ok(t) => {
            proof {
                let frame = context::initial_frame(
                    ids0.contexts.next,
                    context_check::TEST_ENTRY_B,
                    trampoline,
                );
                lemma_thread_beside(mm0, mem0, *mm, frames@, main.stack, t.stack, frame);
                lemma_thread_beside(mm0, mem0, *mm, frames@, a.stack, t.stack, frame);
                lemma_apart_beside(mm0, mem0, *mm, frames@, main.stack, a.stack, t.stack, frame);
                lemma_thread_parked(
                    mm0,
                    mem0,
                    *mm,
                    frames@,
                    ids0,
                    t,
                    name,
                    context_check::TEST_ENTRY_B,
                    arg,
                    trampoline,
                );
                lemma_same_words(*a, mm0, mem0, *mm, frames@);
                lemma_thread_aside(
                    since,
                    mm0,
                    mem0,
                    *mm,
                    frames@,
                    main.stack,
                    a.stack,
                    t.stack,
                    frame,
                );
                lemma_thread_room(mm0, mem0, *mm, frames@, t.stack, frame);
                lemma_thread_added(mm0, ids0, *mm, *ids);
            }
            Some(t)
        },
        Err(_) => {
            proof {
                lemma_refused_aside(since, mm0, mem0, *mm, frames@, main.stack, a.stack);
            }
            None
        },
    }
}

/// A thread whose stack reads the same goes on the same.
pub proof fn lemma_same_words(
    t: KernelThread,
    mm0: MemoryManager,
    mem0: Seq<PageTable>,
    mm1: MemoryManager,
    mem1: Seq<PageTable>,
)
    requires
        t.stack.words(mm0, mem0) == t.stack.words(mm1, mem1),
    ensures
        parked(t, mm0, mem0) ==> parked(t, mm1, mem1),
        saved(t, mm1, mem1) == saved(t, mm0, mem0),
{
    reveal(saved);
    reveal(parked);
}

/// A processor on an empty stack of the self-test.
pub(crate) fn test_processor(
    main: &KernelThread,
    Ghost(mm): Ghost<MemoryManager>,
    Ghost(mem): Ghost<Seq<PageTable>>,
    Ghost(a): Ghost<KernelStack>,
    Ghost(b): Ghost<KernelStack>,
) -> (cpu: CpuState)
    requires
        staged(main.stack, a, b, mm, mem),
    ensures
        running_on(cpu, *main),
        cpu.r12 == 0x1234_5678_9ABC_DEF0,
        cpu.r13 == 0x0FED_CBA9_8765_4321,
{
    proof {
        reveal(staged);
        reveal(running_on);
        context_check::lemma_frame_place(main.stack);
    }
    CpuState {
        rip: 0x0000_0000_0030_0000,
        rsp: main.stack.top(),
        rflags: context::INITIAL_RFLAGS,
        rbx: 0,
        rbp: 0,
        r12: 0x1234_5678_9ABC_DEF0,
        r13: 0x0FED_CBA9_8765_4321,
        r14: 0,
        r15: 0,
        rdi: 0,
        rsi: 0,
    }
}

/// Each of three stacks that are backed and apart stands.
pub proof fn lemma_staged_standing(
    since: Since,
    z: KernelStack,
    x: KernelStack,
    y: KernelStack,
    mm: MemoryManager,
    mem: Seq<PageTable>,
)
    requires
        staged(z, x, y, mm, mem),
        aside(since, z, x, y, mm, mem),
    ensures
        standing(y, mm, mem),
        aside(since, y, y, y, mm, mem),
        mm.ready(mem),
{
    reveal(aside);
    reveal(staged);
    reveal(standing);
}

/// Goes from the first thread to the second, the third, the second again and
/// back, and checks that each goes on where it left off. Says how far it came.
fn test_resume(
    frames: &mut [PageTable],
    mm: &MemoryManager,
    main: &mut KernelThread,
    a: &mut KernelThread,
    b: &mut KernelThread,
    Ghost(since): Ghost<Since>,
) -> (r: Result<u32, &'static str>)
    requires
        staged(old(main).stack, old(a).stack, old(b).stack, *mm, old(frames)@),
        aside(since, old(main).stack, old(a).stack, old(b).stack, *mm, old(frames)@),
        old(main).id != old(a).id,
        old(a).id != old(b).id,
        old(b).id != old(main).id,
        parked(*old(a), *mm, old(frames)@),
        parked(*old(b), *mm, old(frames)@),
        saved(*old(a), *mm, old(frames)@).r12 == context_check::TEST_ENTRY_A,
        saved(*old(b), *mm, old(frames)@).r12 == context_check::TEST_ENTRY_B,
    ensures
        r == Ok::<u32, &'static str>(3),
        mm.ready(final(frames)@),
        aside(
            since,
            final(main).stack,
            final(main).stack,
            final(main).stack,
            *mm,
            final(frames)@,
        ),
        same_thread(*old(main), *final(main)),
        standing(final(main).stack, *mm, final(frames)@),
        forall|k: int, spare: int|
            k >= 0 ==> (#[trigger] context::stack_room(*mm, final(frames)@, k, spare)
                <==> context::stack_room(*mm, old(frames)@, k, spare)),
{
    let mut cpu = test_processor(main, Ghost(*mm), Ghost(frames@), Ghost(a.stack), Ghost(b.stack));
    proof {
        lemma_turn(since, main.stack, a.stack, b.stack, *mm, frames@);
    }
    let _ = hop(frames, mm, &mut cpu, main, a, b, Ghost(since));
    proof {
        lemma_turn(since, b.stack, main.stack, a.stack, *mm, frames@);
    }
    if cpu.r12 != context_check::TEST_ENTRY_A {
        return Err("Thread A started at the wrong place");
    }
    let mut marker: u32 = 1;
    cpu.rbx = 1;
    proof {
        reveal(running_on);
    }
    let _ = hop(frames, mm, &mut cpu, a, b, main, Ghost(since));
    proof {
        lemma_turn(since, main.stack, a.stack, b.stack, *mm, frames@);
    }
    if cpu.r12 != context_check::TEST_ENTRY_B || marker != 1 {
        return Err("Thread B started with wrong marker");
    }
    marker = 2;
    let _ = hop(frames, mm, &mut cpu, b, a, main, Ghost(since));
    proof {
        lemma_turn(since, main.stack, b.stack, a.stack, *mm, frames@);
    }
    if cpu.rbx != 1 || marker != 2 {
        return Err("Thread A resumed with wrong marker");
    }
    marker = 3;
    let _ = hop(frames, mm, &mut cpu, a, main, b, Ghost(since));
    proof {
        lemma_staged_standing(since, b.stack, a.stack, main.stack, *mm, frames@);
    }
    if cpu.r12 != 0x1234_5678_9ABC_DEF0 || cpu.r13 != 0x0FED_CBA9_8765_4321 {
        return Err("Register preservation check failed!");
    }
    Ok(marker)
}

/// Goes from the first thread to the second, ten times back and forth between
/// that and the third, and back. Says how often it switched between the two.
fn test_loop(
    frames: &mut [PageTable],
    mm: &MemoryManager,
    main: &mut KernelThread,
    a: &mut KernelThread,
    b: &mut KernelThread,
    Ghost(since): Ghost<Since>,
) -> (r: Result<u32, &'static str>)
    requires
        staged(old(main).stack, old(a).stack, old(b).stack, *mm, old(frames)@),
        aside(since, old(main).stack, old(a).stack, old(b).stack, *mm, old(frames)@),
        old(main).id != old(a).id,
        old(a).id != old(b).id,
        old(b).id != old(main).id,
        parked(*old(a), *mm, old(frames)@),
        parked(*old(b), *mm, old(frames)@),
    ensures
        r == Ok::<u32, &'static str>(10),
        mm.ready(final(frames)@),
        forall|k: int, spare: int|
            k >= 0 ==> (#[trigger] context::stack_room(*mm, final(frames)@, k, spare)
                <==> context::stack_room(*mm, old(frames)@, k, spare)),
        aside(
            since,
            final(main).stack,
            final(main).stack,
            final(main).stack,
            *mm,
            final(frames)@,
        ),
{
    let mut cpu = test_processor(main, Ghost(*mm), Ghost(frames@), Ghost(a.stack), Ghost(b.stack));
    let ghost start = cpu;
    proof {
        lemma_turn(since, main.stack, a.stack, b.stack, *mm, frames@);
    }
    let _ = hop(frames, mm, &mut cpu, main, a, b, Ghost(since));
    proof {
        lemma_turn(since, b.stack, main.stack, a.stack, *mm, frames@);
    }
    let mut switches: u32 = 0;
    let mut i: u32 = 0;
    while i < 5
        invariant
            i <= 5,
            switches == 2 * i,
            staged(main.stack, a.stack, b.stack, *mm, frames@),
            aside(since, main.stack, a.stack, b.stack, *mm, frames@),
            main.id != a.id,
            a.id != b.id,
            b.id != main.id,
            running_on(cpu, *a),
            parked(*b, *mm, frames@),
            parked(*main, *mm, frames@),
            saved(*main, *mm, frames@) == start,
            forall|k: int, spare: int|
                k >= 0 ==> (#[trigger] context::stack_room(*mm, frames@, k, spare)
                    <==> context::stack_room(*mm, old(frames)@, k, spare)),
        decreases 5 - i,
    {
        switches = switches + 1;
        let _ = hop(frames, mm, &mut cpu, a, b, main, Ghost(since));
        proof {
            lemma_turn(since, main.stack, a.stack, b.stack, *mm, frames@);
        }
        switches = switches + 1;
        let _ = hop(frames, mm, &mut cpu, b, a, main, Ghost(since));
        proof {
            lemma_turn(since, main.stack, b.stack, a.stack, *mm, frames@);
        }
        i = i + 1;
    }
    proof {
        lemma_turn(since, main.stack, a.stack, b.stack, *mm, frames@);
    }
    let _ = hop(frames, mm, &mut cpu, a, main, b, Ghost(since));
    proof {
        lemma_staged_standing(since, b.stack, a.stack, main.stack, *mm, frames@);
    }
    if cpu.r12 != 0x1234_5678_9ABC_DEF0 || cpu.r13 != 0x0FED_CBA9_8765_4321 {
        return Err("Register preservation check failed!");
    }
    Ok(switches)
}

/// Which thread of the self-test cannot be had; none if all can.
pub open spec fn thread_fault(mm: MemoryManager, mem: Seq<PageTable>) -> Option<&'static str> {
    if !context::stack_room(mm, mem, 1, 0) {
        Some("failed thread A")
    } else if !context::stack_room(mm, mem, 2, 0) {
        Some("failed thread B")
    } else if !context::stack_room(mm, mem, 3, 0) {
        Some("failed thread loop A")
    } else if !context::stack_room(mm, mem, 4, 0) {
        Some("failed thread loop B")
    } else {
        None
    }
}

/// How many threads the self-test makes before it lacks memory for another one.
pub open spec fn threads_made(mm: MemoryManager, mem: Seq<PageTable>) -> nat {
    if !context::stack_room(mm, mem, 1, 0) {
        0
    } else if !context::stack_room(mm, mem, 2, 0) {
        1
    } else if !context::stack_room(mm, mem, 3, 0) {
        2
    } else if !context::stack_room(mm, mem, 4, 0) {
        3
    } else {
        4
    }
}

/// Checks threads on themselves: no switch to the thread that runs, threads that
/// go on where they left off, ten switches in a row, and registers that come
/// back. The boot's thread runs on the stack `boot`. It passes wherever four
/// stacks can be had, for four new threads, which stay.
pub fn run_self_tests(
    frames: &mut [PageTable],
    mm: &mut MemoryManager,
    ids: &mut ThreadIds,
    trampoline: u64,
    boot: &KernelStack,
) -> (r: Result<(), &'static str>)
    requires
        old(mm).ready(old(frames)@),
        context::usable_address(trampoline),
        0 < old(ids).threads.next < u64::MAX - 3,
        context_check::plain_stack(*boot),
        boot.backed(*old(mm), old(frames)@),
    ensures
        final(mm).ready(final(frames)@),
        final(mm).root == old(mm).root,
        stacks_stayed(*boot, *old(mm), old(frames)@, *final(mm), final(frames)@),
        threads_added(
            *old(mm),
            *old(ids),
            *final(mm),
            *final(ids),
            threads_made(*old(mm), old(frames)@),
        ),
        match r {
            Ok(()) => {
                &&& thread_fault(*old(mm), old(frames)@) is None
                &&& threads_made(*old(mm), old(frames)@) == 4
                &&& final(ids).threads.next == old(ids).threads.next + 4
                &&& final(ids).contexts.next == old(ids).contexts.after(4)
                &&& final(mm).vmm.next_dynamic_addr == old(mm).vmm.next_dynamic_addr + 4 * 0x4000
                &&& final(mm).pmm@.free_count() == context::frames_left(
                    *old(mm),
                    old(frames)@,
                    4,
                )
            },
            Err(m) => thread_fault(*old(mm), old(frames)@) == Some(m),
        },
{
    let mut here = KernelThread::bootstrap();
    let mut same = KernelThread::bootstrap();
    if !matches!(switch_to(&mut here, &mut same), Err(SwitchError::SameThread)) {
        return Err("Switch to self was not rejected!");
    }
    let ghost since = before(*boot, *mm, frames@);
    let ghost mm0 = *mm;
    let ghost ids0 = *ids;
    let mut main = first_thread(boot);
    proof {
        reveal(room_taken);
        lemma_first_aside(*boot, *mm, frames@);
        assert(standing(main.stack, *mm, frames@)) by {
            reveal(standing);
        }
    }
    let mut a = match second_thread(
        frames,
        mm,
        ids,
        trampoline,
        "thread_a",
        100,
        &main,
        Ghost(since),
    ) {
        Some(thread) => thread,
        None => return Err("failed thread A"),
    };
    let ghost mm1 = *mm;
    let ghost ids1 = *ids;
    let made_b = third_thread(
        frames,
        mm,
        ids,
        trampoline,
        "thread_b",
        200,
        &main,
        &a,
        Ghost(since.plus(4)),
    );
    let ghost mm2 = *mm;
    let ghost ids2 = *ids;
    proof {
        if made_b is Some {
            lemma_threads_added(mm0, ids0, mm1, ids1, mm2, ids2, 1, 1);
        }
    }
    let mut b = match made_b {
        Some(thread) => thread,
        None => return Err("failed thread B"),
    };
    match test_resume(frames, mm, &mut main, &mut a, &mut b, Ghost(since.plus(8))) {
        Ok(marker) => if marker != 3 {
            return Err("Resume marker progression failed!");
        },
        Err(message) => return Err(message),
    }
    let made_a = second_thread(
        frames,
        mm,
        ids,
        trampoline,
        "thread_loop_a",
        1,
        &main,
        Ghost(since.plus(8)),
    );
    let ghost mm3 = *mm;
    let ghost ids3 = *ids;
    proof {
        if made_a is Some {
            lemma_threads_added(mm0, ids0, mm2, ids2, mm3, ids3, 2, 1);
        }
    }
    a = match made_a {
        Some(thread) => thread,
        None => return Err("failed thread loop A"),
    };
    let made_b = third_thread(
        frames,
        mm,
        ids,
        trampoline,
        "thread_loop_b",
        2,
        &main,
        &a,
        Ghost(since.plus(12)),
    );
    proof {
        if made_b is Some {
            lemma_threads_added(mm0, ids0, mm3, ids3, *mm, *ids, 3, 1);
        }
    }
    b = match made_b {
        Some(thread) => thread,
        None => return Err("failed thread loop B"),
    };
    match test_loop(frames, mm, &mut main, &mut a, &mut b, Ghost(since.plus(16))) {
        Ok(switches) => if switches != 10 {
            return Err("Expected 10 switches");
        },
        Err(message) => return Err(message),
    }
    proof {
        reveal(aside);
        context::lemma_frames_left(*old(mm), old(frames)@, *mm, frames@, 4, 0);
    }
    Ok(())
}

} // verus!
