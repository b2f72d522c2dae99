//! The self-test of processes.

use vstd::prelude::*;
use crate::address_space;
use crate::address_space::{Activation, AddressSpace, AsidState};
use crate::context;
use crate::context::KernelStack;
use crate::context_check;
use crate::ids::IdSource;
use crate::kept;
use crate::kept::Since;
use crate::paging::MemoryManager;
use crate::process;
use crate::process::{Process, ProcessState};
use crate::thread::{KernelThread, ThreadIds};
use crate::thread_check;
use crate::thread_check::{first_thread, hop, test_processor};
use crate::vmm::PageTable;
use crate::walk;
use crate::window;

verus! {

/// From one state to another, the room for one frame was taken.
#[verifier::opaque]
pub open spec fn frame_taken(
    mm0: MemoryManager,
    mem0: Seq<PageTable>,
    mm1: MemoryManager,
    mem1: Seq<PageTable>,
) -> bool {
    forall|k: int, spare: int|
        k >= 0 ==> (#[trigger] context::stack_room(mm1, mem1, k, spare) <==> context::stack_room(
            mm0,
            mem0,
            k,
            spare + 1,
        ))
}

/// An address space takes a frame, and leaves the stacks that are there.
proof fn lemma_space_beside(
    mm0: MemoryManager,
    mem0: Seq<PageTable>,
    mm1: MemoryManager,
    mem1: Seq<PageTable>,
    c: int,
    s: KernelStack,
    since: Since,
)
    requires
        mm0.ready(mem0),
        0 < c,
        address_space::space_created(mm0, mem0, mm1, mem1, c),
        thread_check::standing(s, mm0, mem0),
        thread_check::aside(since, s, s, s, mm0, mem0),
    ensures
        thread_check::aside(since, s, s, s, mm1, mem1),
        frame_taken(mm0, mem0, mm1, mem1),
        thread_check::standing(s, mm0, mem0) ==> thread_check::standing(s, mm1, mem1),
{
    let root = mm0.root.0 as int / 4096;
    assert(mm0.is_table(root));
    address_space::lemma_space_created(mm0, mem0, mm1, mem1, c);
    reveal(frame_taken);
    assert forall|k: int, spare: int| k >= 0 implies (#[trigger] context::stack_room(
        mm1,
        mem1,
        k,
        spare,
    ) <==> context::stack_room(mm0, mem0, k, spare + 1)) by {
        context::lemma_room_same(mm0, mem0, mm1, mem1, k, spare);
    }
    if thread_check::standing(s, mm0, mem0) {
        reveal(thread_check::standing);
        reveal(window::backed);
        let start = s.region.start.0 as int;
        let n = s.region.pages();
        assert forall|i: int| 0 <= i < n implies #[trigger] walk::mapping(
            mem1,
            root,
            start / 4096 + i,
        ) == walk::mapping(mem0, root, start / 4096 + i) by {
            assert(0 <= start / 4096 + i < walk::page_limit());
        }
        assert forall|i: int| 0 <= i < n implies {
            let f = #[trigger] window::frame_at(mm0, mem0, start, i);
            mm1.pmm@.used[f] && !mm1.is_table(f) && mem1[f] == mem0[f]
        } by {
            assert(window::holds(mm0, mem0, start, i));
        }
        window::lemma_backed_kept(mm0, mem0, mm1, mem1, start, n);
        assert forall|i: int| 0 <= i < n implies #[trigger] window::frame_at(mm1, mem1, start, i)
            == window::frame_at(mm0, mem0, start, i) by {
            assert(walk::mapping(mem1, root, start / 4096 + i) == walk::mapping(
                mem0,
                root,
                start / 4096 + i,
            ));
        }
        reveal(thread_check::aside);
        kept::lemma_kept_space(since, mm0, mem0, mm1, mem1, c);
        kept::lemma_owns_same(since, mm0, mem0, mm1, mem1, start, n);
    }
}

/// From one state to another, `n` processes were made in address spaces of their
/// own: their numbers and those of the spaces were handed out.
pub open spec fn processes_added(
    asids0: AsidState,
    pids0: IdSource,
    asids1: AsidState,
    pids1: IdSource,
    n: nat,
) -> bool {
    &&& asids1.ids.next == asids0.ids.after(n)
    &&& pids1.next == pids0.next + n
}

/// Makes a process in an address space of its own; none without memory for it.
fn test_process(
    frames: &mut [PageTable],
    mm: &mut MemoryManager,
    asids: &mut AsidState,
    pids: &mut IdSource,
    name: &'static str,
    Ghost(s): Ghost<KernelStack>,
    Ghost(since): Ghost<Since>,
) -> (r: Option<Process>)
    requires
        old(mm).ready(old(frames)@),
        thread_check::standing(s, *old(mm), old(frames)@),
        thread_check::aside(since, s, s, s, *old(mm), old(frames)@),
        old(pids).next < u64::MAX,
    ensures
        final(mm).ready(final(frames)@),
        final(mm).root == old(mm).root,
        r is Some <==> context::stack_room(*old(mm), old(frames)@, 0, 1),
        r is Some ==> frame_taken(*old(mm), old(frames)@, *final(mm), final(frames)@),
        since.holds(*final(mm), final(frames)@),
        final(mm).vmm == old(mm).vmm,
        final(asids).current == old(asids).current,
        processes_added(
            *old(asids),
            *old(pids),
            *final(asids),
            *final(pids),
            if r is Some {
                1
            } else {
                0
            },
        ),
        r matches Some(p) ==> {
            &&& p.id == old(pids).next
            &&& p.state == ProcessState::Created
            &&& p.threads@ == Seq::<KernelThread>::empty()
            &&& p.address_space.root_page.0 > 0
            &&& thread_check::standing(s, *final(mm), final(frames)@)
            &&& thread_check::aside(since, s, s, s, *final(mm), final(frames)@)
        },
{
    let ghost mm0 = *mm;
    let ghost mem0 = frames@;
    proof {
        reveal(thread_check::aside);
        context::lemma_room_for_frames(mm0, mem0, 1);
    }
    match AddressSpace::new(frames, mm, asids) {
        Ok(space) => {
            proof {
                lemma_space_beside(
                    mm0,
                    mem0,
                    *mm,
                    frames@,
                    space.root_page.0 as int / 4096,
                    s,
                    since,
                );
            }
            Some(Process::within(pids, name, space))
        },
        Err(_) => None,
    }
}

/// Whose thread it is does not matter to where it goes on.
proof fn lemma_owner(t: KernelThread, mm: MemoryManager, mem: Seq<PageTable>)
    requires
        thread_check::parked(KernelThread { process_id: 0, ..t }, mm, mem),
    ensures
        thread_check::parked(t, mm, mem),
{
    reveal(thread_check::parked);
    reveal(thread_check::saved);
}

/// Gives a process a thread, beside the stack `s`.
fn add_beside_one(
    frames: &mut [PageTable],
    mm: &mut MemoryManager,
    ids: &mut ThreadIds,
    trampoline: u64,
    p: &mut Process,
    name: &'static str,
    arg: usize,
    Ghost(s): Ghost<KernelStack>,
    Ghost(since): Ghost<Since>,
) -> (r: bool)
    requires
        old(mm).ready(old(frames)@),
        thread_check::aside(since, s, s, s, *old(mm), old(frames)@),
        since.lo <= since.hi,
        since.hi == old(mm).vmm.next_dynamic_addr as int / 4096,
        context::usable_address(trampoline),
        old(ids).threads.next < u64::MAX,
        old(p).state == ProcessState::Created,
        old(p).consistent(),
        old(p).threads@.len() == 0,
        thread_check::standing(s, *old(mm), old(frames)@),
    ensures
        final(mm).ready(final(frames)@),
        final(mm).root == old(mm).root,
        r <==> context::stack_room(*old(mm), old(frames)@, 1, 0),
        r ==> thread_check::room_taken(*old(mm), old(frames)@, *final(mm), final(frames)@),
        thread_check::threads_added(
            *old(mm),
            *old(ids),
            *final(mm),
            *final(ids),
            if r {
                1
            } else {
                0
            },
        ),
        !r ==> since.holds(*final(mm), final(frames)@) && since.hi
            == final(mm).vmm.next_dynamic_addr as int / 4096,
        final(p).id == old(p).id,
        final(p).state == old(p).state,
        final(p).address_space == old(p).address_space,
        r ==> {
            let t = final(p).threads@[0];
            &&& final(p).consistent()
            &&& final(p).threads@.len() == 1
            &&& t.id == old(ids).threads.next
            &&& final(ids).threads.next == old(ids).threads.next + 1
            &&& final(mm).vmm.next_dynamic_addr == old(mm).vmm.next_dynamic_addr + 0x4000
            &&& thread_check::duo(s, t.stack, *final(mm), final(frames)@)
            &&& thread_check::parked(t, *final(mm), final(frames)@)
            &&& thread_check::aside(
                since.plus(4),
                s,
                t.stack,
                t.stack,
                *final(mm),
                final(frames)@,
            )
            &&& since.plus(4).hi == final(mm).vmm.next_dynamic_addr as int / 4096
        },
{
    let ghost mm0 = *mm;
    let ghost mem0 = frames@;
    let ghost ids0 = *ids;
    let ghost p0 = *p;
    proof {
        reveal(thread_check::standing);
        reveal(thread_check::duo);
        assert(mm0.is_table(mm0.root.0 as int / 4096));
        context::lemma_stack_room(mm0, mem0);
    }
    match p.create_thread(
        frames,
        mm,
        ids,
        name,
        context_check::TEST_ENTRY_A,
        arg,
        trampoline,
    ) {
        Ok(_) => {
            proof {
                let t = p.threads@.last();
                let frame = context::initial_frame(
                    ids0.contexts.next,
                    context_check::TEST_ENTRY_A,
                    trampoline,
                );
                thread_check::lemma_thread_beside(mm0, mem0, *mm, frames@, s, t.stack, frame);
                thread_check::lemma_thread_parked(
                    mm0,
                    mem0,
                    *mm,
                    frames@,
                    ids0,
                    KernelThread { process_id: 0, ..t },
                    name,
                    context_check::TEST_ENTRY_A,
                    arg,
                    trampoline,
                );
                lemma_owner(t, *mm, frames@);
                process::lemma_thread_keeps_consistent(p0, *p, t);
                thread_check::lemma_thread_aside(
                    since,
                    mm0,
                    mem0,
                    *mm,
                    frames@,
                    s,
                    s,
                    t.stack,
                    frame,
                );
                assert(thread_check::aside(since.plus(4), s, t.stack, t.stack, *mm, frames@)) by {
                    reveal(thread_check::aside);
                }
                thread_check::lemma_thread_room(mm0, mem0, *mm, frames@, t.stack, frame);
                thread_check::lemma_thread_added(mm0, ids0, *mm, *ids);
            }
            true
        },
        Err(_) => {
            proof {
                thread_check::lemma_refused_aside(since, mm0, mem0, *mm, frames@, s, s);
            }
            false
        },
    }
}

/// Gives a process a thread, beside the stack `s` and that of thread `a`.
fn add_beside_two(
    frames: &mut [PageTable],
    mm: &mut MemoryManager,
    ids: &mut ThreadIds,
    trampoline: u64,
    p: &mut Process,
    name: &'static str,
    arg: usize,
    Ghost(s): Ghost<KernelStack>,
    Ghost(a): Ghost<KernelThread>,
    Ghost(since): Ghost<Since>,
) -> (r: bool)
    requires
        old(mm).ready(old(frames)@),
        thread_check::aside(since, s, a.stack, a.stack, *old(mm), old(frames)@),
        since.lo <= since.hi,
        since.hi == old(mm).vmm.next_dynamic_addr as int / 4096,
        context::usable_address(trampoline),
        old(ids).threads.next < u64::MAX,
        old(p).state == ProcessState::Created,
        old(p).consistent(),
        forall|i: int|
            0 <= i < old(p).threads@.len() ==> (#[trigger] old(p).threads@[i]).id
                != old(ids).threads.next,
        thread_check::duo(s, a.stack, *old(mm), old(frames)@),
        thread_check::parked(a, *old(mm), old(frames)@),
    ensures
        final(mm).ready(final(frames)@),
        final(mm).root == old(mm).root,
        r <==> context::stack_room(*old(mm), old(frames)@, 1, 0),
        r ==> thread_check::room_taken(*old(mm), old(frames)@, *final(mm), final(frames)@),
        thread_check::threads_added(
            *old(mm),
            *old(ids),
            *final(mm),
            *final(ids),
            if r {
                1
            } else {
                0
            },
        ),
        !r ==> since.holds(*final(mm), final(frames)@) && since.hi
            == final(mm).vmm.next_dynamic_addr as int / 4096,
        final(p).id == old(p).id,
        final(p).state == old(p).state,
        final(p).address_space == old(p).address_space,
        r ==> {
            let t = final(p).threads@.last();
            &&& final(p).consistent()
            &&& final(p).threads@ == old(p).threads@.push(t)
            &&& t.id == old(ids).threads.next
            &&& final(ids).threads.next == old(ids).threads.next + 1
            &&& final(mm).vmm.next_dynamic_addr == old(mm).vmm.next_dynamic_addr + 0x4000
            &&& thread_check::staged(s, a.stack, t.stack, *final(mm), final(frames)@)
            &&& thread_check::parked(t, *final(mm), final(frames)@)
            &&& thread_check::aside(
                since.plus(4),
                s,
                a.stack,
                t.stack,
                *final(mm),
                final(frames)@,
            )
            &&& since.plus(4).hi == final(mm).vmm.next_dynamic_addr as int / 4096
            &&& thread_check::parked(a, *final(mm), final(frames)@)
        },
{
    let ghost mm0 = *mm;
    let ghost mem0 = frames@;
    let ghost ids0 = *ids;
    let ghost p0 = *p;
    proof {
        reveal(thread_check::duo);
        reveal(thread_check::staged);
        assert(mm0.is_table(mm0.root.0 as int / 4096));
        context::lemma_stack_room(mm0, mem0);
    }
    match p.create_thread(
        frames,
        mm,
        ids,
        name,
        context_check::TEST_ENTRY_B,
        arg,
        trampoline,
    ) {
        Ok(_) => {
            proof {
                let t = p.threads@.last();
                let frame = context::initial_frame(
                    ids0.contexts.next,
                    context_check::TEST_ENTRY_B,
                    trampoline,
                );
                thread_check::lemma_thread_beside(mm0, mem0, *mm, frames@, s, t.stack, frame);
                thread_check::lemma_thread_beside(
                    mm0,
                    mem0,
                    *mm,
                    frames@,
                    a.stack,
                    t.stack,
                    frame,
                );
                thread_check::lemma_apart_beside(
                    mm0,
                    mem0,
                    *mm,
                    frames@,
                    s,
                    a.stack,
                    t.stack,
                    frame,
                );
                thread_check::lemma_same_words(a, mm0, mem0, *mm, frames@);
                thread_check::lemma_thread_parked(
                    mm0,
                    mem0,
                    *mm,
                    frames@,
                    ids0,
                    KernelThread { process_id: 0, ..t },
                    name,
                    context_check::TEST_ENTRY_B,
                    arg,
                    trampoline,
                );
                lemma_owner(t, *mm, frames@);
                process::lemma_thread_keeps_consistent(p0, *p, t);
                thread_check::lemma_thread_aside(
                    since,
                    mm0,
                    mem0,
                    *mm,
                    frames@,
                    s,
                    a.stack,
                    t.stack,
                    frame,
                );
                thread_check::lemma_thread_room(mm0, mem0, *mm, frames@, t.stack, frame);
                thread_check::lemma_thread_added(mm0, ids0, *mm, *ids);
            }
            true
        },
        Err(_) => {
            proof {
                thread_check::lemma_refused_aside(since, mm0, mem0, *mm, frames@, s, a.stack);
            }
            false
        },
    }
}

/// Goes from the kernel's thread to the first thread of a process, to its second
/// one, back to the first and back to the kernel's. Says how far it came.
fn same_process_switches(
    frames: &mut [PageTable],
    mm: &MemoryManager,
    main: &mut Process,
    p: &mut Process,
    Ghost(since): Ghost<Since>,
) -> (stage: u32)
    requires
        old(main).threads@.len() == 1,
        old(p).threads@.len() == 2,
        thread_check::staged(
            old(main).threads@[0].stack,
            old(p).threads@[0].stack,
            old(p).threads@[1].stack,
            *mm,
            old(frames)@,
        ),
        thread_check::aside(
            since,
            old(main).threads@[0].stack,
            old(p).threads@[0].stack,
            old(p).threads@[1].stack,
            *mm,
            old(frames)@,
        ),
        old(main).threads@[0].id != old(p).threads@[0].id,
        old(p).threads@[0].id != old(p).threads@[1].id,
        old(p).threads@[1].id != old(main).threads@[0].id,
        thread_check::parked(old(p).threads@[0], *mm, old(frames)@),
        thread_check::parked(old(p).threads@[1], *mm, old(frames)@),
    ensures
        stage == 1,
        mm.ready(final(frames)@),
        thread_check::aside(
            since,
            final(main).threads@[0].stack,
            final(main).threads@[0].stack,
            final(main).threads@[0].stack,
            *mm,
            final(frames)@,
        ),
        forall|k: int, spare: int|
            k >= 0 ==> (#[trigger] context::stack_room(*mm, final(frames)@, k, spare)
                <==> context::stack_room(*mm, old(frames)@, k, spare)),
        thread_check::standing(final(main).threads@[0].stack, *mm, final(frames)@),
        final(main).threads@.len() == 1,
        final(main).threads@[0].id == old(main).threads@[0].id,
        final(main).address_space == old(main).address_space,
{
    let main_t = match main.get_thread_mut(0) {
        Some(t) => t,
        None => return 0,
    };
    let (a1, a2) = match p.get_two_threads_mut(0, 1) {
        Some(pair) => pair,
        None => return 0,
    };
    let mut cpu = test_processor(
        main_t,
        Ghost(*mm),
        Ghost(frames@),
        Ghost(a1.stack),
        Ghost(a2.stack),
    );
    proof {
        thread_check::lemma_turn(since, main_t.stack, a1.stack, a2.stack, *mm, frames@);
    }
    let _ = hop(frames, mm, &mut cpu, main_t, a1, a2, Ghost(since));
    proof {
        thread_check::lemma_turn(since, a2.stack, main_t.stack, a1.stack, *mm, frames@);
    }
    let _ = hop(frames, mm, &mut cpu, a1, a2, main_t, Ghost(since));
    proof {
        thread_check::lemma_turn(since, main_t.stack, a1.stack, a2.stack, *mm, frames@);
    }
    let _ = hop(frames, mm, &mut cpu, a2, a1, main_t, Ghost(since));
    let stage: u32 = 1;
    proof {
        thread_check::lemma_turn(since, main_t.stack, a2.stack, a1.stack, *mm, frames@);
    }
    let _ = hop(frames, mm, &mut cpu, a1, main_t, a2, Ghost(since));
    proof {
        thread_check::lemma_staged_standing(since, a2.stack, a1.stack, main_t.stack, *mm, frames@);
    }
    stage
}

/// What is in `CR3`, which held `cr3`, once the processor did what `what` says.
fn loaded(cr3: u64, what: Activation) -> (r: u64)
    ensures
        r == match what {
            Activation::Load(root) => root,
            _ => cr3,
        },
{
    match what {
        Activation::Load(root) => root,
        _ => cr3,
    }
}

/// Goes from the kernel's thread to the thread of one process, to that of
/// another one, back to the first and back to the kernel's, and activates the
/// address space of each before. Says how far it came, and what `CR3` holds.
fn cross_process_switches(
    frames: &mut [PageTable],
    mm: &MemoryManager,
    asids: &mut AsidState,
    cr3: u64,
    main: &mut Process,
    pa: &mut Process,
    pb: &mut Process,
    Ghost(since): Ghost<Since>,
) -> (r: (u32, u64))
    requires
        old(main).threads@.len() == 1,
        old(pa).threads@.len() == 1,
        old(pb).threads@.len() == 1,
        thread_check::staged(
            old(main).threads@[0].stack,
            old(pa).threads@[0].stack,
            old(pb).threads@[0].stack,
            *mm,
            old(frames)@,
        ),
        thread_check::aside(
            since,
            old(main).threads@[0].stack,
            old(pa).threads@[0].stack,
            old(pb).threads@[0].stack,
            *mm,
            old(frames)@,
        ),
        old(main).threads@[0].id != old(pa).threads@[0].id,
        old(pa).threads@[0].id != old(pb).threads@[0].id,
        old(pb).threads@[0].id != old(main).threads@[0].id,
        thread_check::parked(old(pa).threads@[0], *mm, old(frames)@),
        thread_check::parked(old(pb).threads@[0], *mm, old(frames)@),
        old(main).address_space.root_page.0 > 0,
        old(pa).address_space.root_page.0 > 0,
        old(pb).address_space.root_page.0 > 0,
    ensures
        r.0 == 3,
        r.1 == old(main).address_space.root_page.0,
        final(asids).current == old(main).address_space.id,
        final(asids).ids == old(asids).ids,
        mm.ready(final(frames)@),
        thread_check::aside(
            since,
            final(main).threads@[0].stack,
            final(main).threads@[0].stack,
            final(main).threads@[0].stack,
            *mm,
            final(frames)@,
        ),
        forall|k: int, spare: int|
            k >= 0 ==> (#[trigger] context::stack_room(*mm, final(frames)@, k, spare)
                <==> context::stack_room(*mm, old(frames)@, k, spare)),
        final(pb).id == old(pb).id,
        final(pb).name == old(pb).name,
        final(pb).threads@.len() == 1,
        final(pb).threads@[0].process_id == old(pb).threads@[0].process_id,
{
    let mut cr3 = cr3;
    let main_t = &mut main.threads[0];
    let a1 = &mut pa.threads[0];
    let b1 = &mut pb.threads[0];
    let mut cpu = test_processor(
        main_t,
        Ghost(*mm),
        Ghost(frames@),
        Ghost(a1.stack),
        Ghost(b1.stack),
    );
    cr3 = loaded(cr3, pa.address_space.activate(cr3, asids));
    proof {
        thread_check::lemma_turn(since, main_t.stack, a1.stack, b1.stack, *mm, frames@);
    }
    let _ = hop(frames, mm, &mut cpu, main_t, a1, b1, Ghost(since));
    cr3 = loaded(cr3, pb.address_space.activate(cr3, asids));
    proof {
        thread_check::lemma_turn(since, b1.stack, main_t.stack, a1.stack, *mm, frames@);
    }
    let _ = hop(frames, mm, &mut cpu, a1, b1, main_t, Ghost(since));
    cr3 = loaded(cr3, pa.address_space.activate(cr3, asids));
    proof {
        thread_check::lemma_turn(since, main_t.stack, a1.stack, b1.stack, *mm, frames@);
    }
    let _ = hop(frames, mm, &mut cpu, b1, a1, main_t, Ghost(since));
    let stage: u32 = 3;
    cr3 = loaded(cr3, main.address_space.activate(cr3, asids));
    proof {
        thread_check::lemma_turn(since, main_t.stack, b1.stack, a1.stack, *mm, frames@);
    }
    let _ = hop(frames, mm, &mut cpu, a1, main_t, b1, Ghost(since));
    proof {
        thread_check::lemma_staged_standing(since, b1.stack, a1.stack, main_t.stack, *mm, frames@);
    }
    (stage, cr3)
}

/// The kernel's process for the self-test: its thread is on the boot's stack.
fn test_kernel_process(mm: &MemoryManager, boot: &KernelStack) -> (p: Process)
    ensures
        p.threads@.len() == 1,
        p.threads@[0].id == 0,
        p.threads@[0].stack == *boot,
        p.address_space.id == 0,
        p.address_space.root_page == mm.root,
{
    let thread = first_thread(boot);
    let mut p = Process::bootstrap(mm);
    p.threads.set(0, thread);
    p
}

/// What the test within a process lacks; nothing if it has what it needs.
pub open spec fn same_process_fault(mm: MemoryManager, mem: Seq<PageTable>) -> Option<
    &'static str,
> {
    if !context::stack_room(mm, mem, 0, 1) {
        Some("AddressSpace creation failed")
    } else if !context::stack_room(mm, mem, 1, 1) || !context::stack_room(mm, mem, 2, 1) {
        Some("Expected 2 threads in Process A")
    } else {
        None
    }
}

/// How many processes and threads the test within a process makes.
pub open spec fn same_process_made(mm: MemoryManager, mem: Seq<PageTable>) -> (nat, nat) {
    if !context::stack_room(mm, mem, 0, 1) {
        (0, 0)
    } else if !context::stack_room(mm, mem, 1, 1) {
        (1, 0)
    } else if !context::stack_room(mm, mem, 2, 1) {
        (1, 1)
    } else {
        (1, 2)
    }
}

/// How many processes and threads the test between processes makes.
pub open spec fn cross_process_made(mm: MemoryManager, mem: Seq<PageTable>) -> (nat, nat) {
    if !context::stack_room(mm, mem, 0, 1) {
        (0, 0)
    } else if !context::stack_room(mm, mem, 0, 2) {
        (1, 0)
    } else if !context::stack_room(mm, mem, 1, 2) {
        (2, 0)
    } else if !context::stack_room(mm, mem, 2, 2) {
        (2, 1)
    } else {
        (2, 2)
    }
}

/// How many processes and threads the self-test makes before it lacks memory for
/// another one.
pub open spec fn process_made(mm: MemoryManager, mem: Seq<PageTable>) -> (nat, nat) {
    if !context::stack_room(mm, mem, 0, 1) {
        (0, 0)
    } else if !context::stack_room(mm, mem, 0, 2) {
        (1, 0)
    } else if !context::stack_room(mm, mem, 0, 3) {
        (2, 0)
    } else if !context::stack_room(mm, mem, 1, 3) {
        (3, 0)
    } else if !context::stack_room(mm, mem, 2, 3) {
        (3, 1)
    } else if !context::stack_room(mm, mem, 2, 4) {
        (3, 2)
    } else if !context::stack_room(mm, mem, 2, 5) {
        (4, 2)
    } else if !context::stack_room(mm, mem, 3, 5) {
        (5, 2)
    } else if !context::stack_room(mm, mem, 4, 5) {
        (5, 3)
    } else {
        (5, 4)
    }
}

/// What the test between processes lacks; nothing if it has what it needs.
pub open spec fn cross_process_fault(mm: MemoryManager, mem: Seq<PageTable>) -> Option<
    &'static str,
> {
    if !context::stack_room(mm, mem, 0, 1) || !context::stack_room(mm, mem, 0, 2) {
        Some("AddressSpace creation failed")
    } else if !context::stack_room(mm, mem, 1, 2) || !context::stack_room(mm, mem, 2, 2) {
        Some("Process thread creation failed")
    } else {
        None
    }
}

/// What the self-test lacks; nothing if it has what it needs: five address
/// spaces and four stacks, in the order in which it makes them.
pub open spec fn process_fault(mm: MemoryManager, mem: Seq<PageTable>) -> Option<&'static str> {
    if !context::stack_room(mm, mem, 0, 1) || !context::stack_room(mm, mem, 0, 2)
        || !context::stack_room(mm, mem, 0, 3) {
        Some("AddressSpace creation failed")
    } else if !context::stack_room(mm, mem, 1, 3) || !context::stack_room(mm, mem, 2, 3) {
        Some("Expected 2 threads in Process A")
    } else if !context::stack_room(mm, mem, 2, 4) || !context::stack_room(mm, mem, 2, 5) {
        Some("AddressSpace creation failed")
    } else if !context::stack_room(mm, mem, 3, 5) || !context::stack_room(mm, mem, 4, 5) {
        Some("Process thread creation failed")
    } else {
        None
    }
}

/// Makes a process with two threads, checks it, and goes from the kernel's
/// thread to the one, to the other and back.
fn test_same_process(
    frames: &mut [PageTable],
    mm: &mut MemoryManager,
    asids: &mut AsidState,
    pids: &mut IdSource,
    ids: &mut ThreadIds,
    trampoline: u64,
    main: &mut Process,
    Ghost(since): Ghost<Since>,
) -> (r: Result<(), &'static str>)
    requires
        old(mm).ready(old(frames)@),
        context::usable_address(trampoline),
        0 < old(pids).next < u64::MAX,
        0 < old(ids).threads.next < u64::MAX - 1,
        old(main).threads@.len() == 1,
        old(main).threads@[0].id == 0,
        thread_check::standing(old(main).threads@[0].stack, *old(mm), old(frames)@),
        thread_check::aside(
            since,
            old(main).threads@[0].stack,
            old(main).threads@[0].stack,
            old(main).threads@[0].stack,
            *old(mm),
            old(frames)@,
        ),
        since.lo <= since.hi,
        since.hi == old(mm).vmm.next_dynamic_addr as int / 4096,
    ensures
        final(mm).ready(final(frames)@),
        final(mm).root == old(mm).root,
        (Since { hi: final(mm).vmm.next_dynamic_addr as int / 4096, ..since }).holds(
            *final(mm),
            final(frames)@,
        ),
        processes_added(
            *old(asids),
            *old(pids),
            *final(asids),
            *final(pids),
            same_process_made(*old(mm), old(frames)@).0,
        ),
        thread_check::threads_added(
            *old(mm),
            *old(ids),
            *final(mm),
            *final(ids),
            same_process_made(*old(mm), old(frames)@).1,
        ),
        final(asids).current == old(asids).current,
        match r {
            Ok(()) => {
                &&& same_process_fault(*old(mm), old(frames)@) is None
                &&& forall|k: int, spare: int|
                    k >= 0 ==> (#[trigger] context::stack_room(
                        *final(mm),
                        final(frames)@,
                        k,
                        spare,
                    ) <==> context::stack_room(*old(mm), old(frames)@, k + 2, spare + 1))
                &&& final(main).threads@.len() == 1
                &&& final(main).threads@[0].id == 0
                &&& final(main).address_space == old(main).address_space
                &&& thread_check::standing(
                    final(main).threads@[0].stack,
                    *final(mm),
                    final(frames)@,
                )
                &&& thread_check::aside(
                    since.plus(8),
                    final(main).threads@[0].stack,
                    final(main).threads@[0].stack,
                    final(main).threads@[0].stack,
                    *final(mm),
                    final(frames)@,
                )
            },
            Err(m) => same_process_fault(*old(mm), old(frames)@) == Some(m),
        },
{
    let ghost s = main.threads@[0].stack;
    let ghost mm0 = *mm;
    let ghost ids0 = *ids;
    proof {
        reveal(frame_taken);
        reveal(thread_check::room_taken);
    }
    let mut p = match test_process(
        frames,
        mm,
        asids,
        pids,
        "proc_a_multithread",
        Ghost(s),
        Ghost(since),
    ) {
        Some(p) => p,
        None => return Err("AddressSpace creation failed"),
    };
    if !add_beside_one(
        frames,
        mm,
        ids,
        trampoline,
        &mut p,
        "thread_a1",
        10,
        Ghost(s),
        Ghost(since),
    ) {
        return Err("Expected 2 threads in Process A");
    }
    let ghost t = p.threads@[0];
    let ghost mm1 = *mm;
    let ghost ids1 = *ids;
    let added = add_beside_two(
        frames,
        mm,
        ids,
        trampoline,
        &mut p,
        "thread_a2",
        20,
        Ghost(s),
        Ghost(t),
        Ghost(since.plus(4)),
    );
    proof {
        thread_check::lemma_threads_added(
            mm0,
            ids0,
            mm1,
            ids1,
            *mm,
            *ids,
            1,
            if added {
                1
            } else {
                0
            },
        );
    }
    if !added {
        return Err("Expected 2 threads in Process A");
    }
    if p.threads.len() != 2 {
        return Err("Expected 2 threads in Process A");
    }
    if p.threads[0].process_id != p.id || p.threads[1].process_id != p.id {
        return Err("Threads do not match Process A PID!");
    }
    if p.verify().is_err() {
        return Err("Process A verification failed");
    }
    if same_process_switches(frames, mm, main, &mut p, Ghost(since.plus(8))) != 1 {
        return Err("Same-process switch failed to reach stage 1!");
    }
    proof {
        reveal(thread_check::aside);
    }
    Ok(())
}

/// Makes two processes with a thread each, checks them, goes from the kernel's
/// thread to the one, to the other and back, and ends the second.
fn test_cross_process(
    frames: &mut [PageTable],
    mm: &mut MemoryManager,
    asids: &mut AsidState,
    pids: &mut IdSource,
    ids: &mut ThreadIds,
    trampoline: u64,
    cr3: u64,
    main: &mut Process,
    Ghost(since): Ghost<Since>,
) -> (r: Result<(), &'static str>)
    requires
        old(mm).ready(old(frames)@),
        context::usable_address(trampoline),
        0 < old(pids).next < u64::MAX - 1,
        0 < old(ids).threads.next < u64::MAX - 1,
        old(main).threads@.len() == 1,
        old(main).threads@[0].id == 0,
        old(main).address_space.root_page.0 > 0,
        thread_check::standing(old(main).threads@[0].stack, *old(mm), old(frames)@),
        thread_check::aside(
            since,
            old(main).threads@[0].stack,
            old(main).threads@[0].stack,
            old(main).threads@[0].stack,
            *old(mm),
            old(frames)@,
        ),
        since.lo <= since.hi,
        since.hi == old(mm).vmm.next_dynamic_addr as int / 4096,
    ensures
        final(mm).ready(final(frames)@),
        final(mm).root == old(mm).root,
        (Since { hi: final(mm).vmm.next_dynamic_addr as int / 4096, ..since }).holds(
            *final(mm),
            final(frames)@,
        ),
        processes_added(
            *old(asids),
            *old(pids),
            *final(asids),
            *final(pids),
            cross_process_made(*old(mm), old(frames)@).0,
        ),
        thread_check::threads_added(
            *old(mm),
            *old(ids),
            *final(mm),
            *final(ids),
            cross_process_made(*old(mm), old(frames)@).1,
        ),
        r is Err ==> final(asids).current == old(asids).current,
        match r {
            Ok(()) => {
                &&& cross_process_fault(*old(mm), old(frames)@) is None
                &&& forall|k: int, spare: int|
                    k >= 0 ==> (#[trigger] context::stack_room(
                        *final(mm),
                        final(frames)@,
                        k,
                        spare,
                    ) <==> context::stack_room(*old(mm), old(frames)@, k + 2, spare + 2))
                &&& final(asids).current == old(main).address_space.id
            },
            Err(m) => cross_process_fault(*old(mm), old(frames)@) == Some(m),
        },
{
    let ghost s = main.threads@[0].stack;
    let ghost mm0 = *mm;
    let ghost ids0 = *ids;
    proof {
        reveal(frame_taken);
        reveal(thread_check::room_taken);
    }
    let mut pa = match test_process(frames, mm, asids, pids, "proc_a", Ghost(s), Ghost(since)) {
        Some(p) => p,
        None => return Err("AddressSpace creation failed"),
    };
    let mut pb = match test_process(frames, mm, asids, pids, "proc_b", Ghost(s), Ghost(since)) {
        Some(p) => p,
        None => return Err("AddressSpace creation failed"),
    };
    if !add_beside_one(
        frames,
        mm,
        ids,
        trampoline,
        &mut pa,
        "thread_a1",
        100,
        Ghost(s),
        Ghost(since),
    ) {
        return Err("Process thread creation failed");
    }
    let ghost t = pa.threads@[0];
    let ghost mm1 = *mm;
    let ghost ids1 = *ids;
    let added = add_beside_two(
        frames,
        mm,
        ids,
        trampoline,
        &mut pb,
        "thread_b1",
        200,
        Ghost(s),
        Ghost(t),
        Ghost(since.plus(4)),
    );
    proof {
        thread_check::lemma_threads_added(
            mm0,
            ids0,
            mm1,
            ids1,
            *mm,
            *ids,
            1,
            if added {
                1
            } else {
                0
            },
        );
    }
    if !added {
        return Err("Process thread creation failed");
    }
    if pa.verify().is_err() {
        return Err("Process A verification failed");
    }
    if pb.verify().is_err() {
        return Err("Process B verification failed");
    }
    let (stage, _) = cross_process_switches(
        frames,
        mm,
        asids,
        cr3,
        main,
        &mut pa,
        &mut pb,
        Ghost(since.plus(8)),
    );
    proof {
        reveal(thread_check::aside);
    }
    if stage != 3 {
        return Err("Cross-process switch failed to reach stage 3!");
    }
    pb.terminate();
    if pb.state != ProcessState::Terminated {
        return Err("Process B termination state invalid!");
    }
    if pb.verify().is_err() {
        return Err("Process B post-termination verification failed");
    }
    Ok(())
}

/// Checks processes on themselves: numbers of their own, ownership of threads,
/// switches within a process and from one to another with the address space of
/// each, and their end. The kernel's thread runs on the stack `boot`. It passes
/// wherever five address spaces and four stacks can be had; the kernel's address
/// space is then the active one, and the five processes and four threads keep
/// their numbers.
pub fn run_self_tests(
    frames: &mut [PageTable],
    mm: &mut MemoryManager,
    asids: &mut AsidState,
    pids: &mut IdSource,
    ids: &mut ThreadIds,
    trampoline: u64,
    cr3: u64,
    boot: &KernelStack,
) -> (r: Result<(), &'static str>)
    requires
        old(mm).ready(old(frames)@),
        old(mm).root.0 > 0,
        context::usable_address(trampoline),
        0 < old(pids).next < u64::MAX - 4,
        0 < old(ids).threads.next < u64::MAX - 3,
        context_check::plain_stack(*boot),
        boot.backed(*old(mm), old(frames)@),
    ensures
        final(mm).ready(final(frames)@),
        final(mm).root == old(mm).root,
        thread_check::stacks_stayed(*boot, *old(mm), old(frames)@, *final(mm), final(frames)@),
        processes_added(
            *old(asids),
            *old(pids),
            *final(asids),
            *final(pids),
            process_made(*old(mm), old(frames)@).0,
        ),
        thread_check::threads_added(
            *old(mm),
            *old(ids),
            *final(mm),
            *final(ids),
            process_made(*old(mm), old(frames)@).1,
        ),
        r is Err ==> final(asids).current == old(asids).current,
        match r {
            Ok(()) => {
                &&& process_fault(*old(mm), old(frames)@) is None
                &&& final(asids).current == 0
                &&& process_made(*old(mm), old(frames)@) == (5nat, 4nat)
                &&& final(pids).next == old(pids).next + 5
                &&& final(asids).ids.next == old(asids).ids.after(5)
                &&& final(ids).threads.next == old(ids).threads.next + 4
                &&& final(ids).contexts.next == old(ids).contexts.after(4)
                &&& final(mm).vmm.next_dynamic_addr == old(mm).vmm.next_dynamic_addr + 4 * 0x4000
                &&& final(mm).pmm@.free_count() == context::frames_left(
                    *old(mm),
                    old(frames)@,
                    4,
                ) - 5
            },
            Err(m) => process_fault(*old(mm), old(frames)@) == Some(m),
        },
{
    let ghost since = thread_check::before(*boot, *mm, frames@);
    let ghost mm0 = *mm;
    let ghost ids0 = *ids;
    proof {
        thread_check::lemma_first_aside(*boot, *mm, frames@);
        assert(thread_check::standing(*boot, *mm, frames@)) by {
            reveal(thread_check::standing);
        }
        reveal(frame_taken);
        reveal(thread_check::room_taken);
    }
    let proc_a = match test_process(
        frames,
        mm,
        asids,
        pids,
        "process_alpha",
        Ghost(*boot),
        Ghost(since),
    ) {
        Some(p) => p,
        None => return Err("AddressSpace creation failed"),
    };
    let proc_b = match test_process(
        frames,
        mm,
        asids,
        pids,
        "process_beta",
        Ghost(*boot),
        Ghost(since),
    ) {
        Some(p) => p,
        None => return Err("AddressSpace creation failed"),
    };
    if proc_a.id == proc_b.id {
        return Err("Process Alpha and Beta share identical PIDs!");
    }
    let mut main = test_kernel_process(mm, boot);
    match test_same_process(frames, mm, asids, pids, ids, trampoline, &mut main, Ghost(since)) {
        Ok(()) => {},
        Err(message) => return Err(message),
    }
    let ghost mm1 = *mm;
    let ghost mem1 = frames@;
    let ghost ids1 = *ids;
    let r = test_cross_process(
        frames,
        mm,
        asids,
        pids,
        ids,
        trampoline,
        cr3,
        &mut main,
        Ghost(since.plus(8)),
    );
    proof {
        thread_check::lemma_threads_added(
            mm0,
            ids0,
            mm1,
            ids1,
            *mm,
            *ids,
            2,
            cross_process_made(mm1, mem1).1,
        );
        if r is Ok {
            context::lemma_frames_left(*old(mm), old(frames)@, *mm, frames@, 4, 5);
        }
    }
    r
}

} // verus!
