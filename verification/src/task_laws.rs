//! What holds of threads that are made, and of going from one to another.

use vstd::prelude::*;
use crate::address_space::AsidState;
use crate::context;
use crate::context::{ContextState, CpuState};
use crate::ids::IdSource;
use crate::paging;
use crate::paging::MemoryManager;
use crate::paging_laws;
use crate::process;
use crate::process::{Process, ProcessState};
use crate::regions;
use crate::thread;
use crate::thread::{KernelThread, SwitchError, ThreadError, ThreadIds, ThreadState};
use crate::vmm::{PageTable, PageTableFlags, RegionPurpose, VirtAddr};

verus! {

/// When a thread can be made, and why it cannot: where it is to start must be an
/// address that the processor takes, and not 0, and 16 KiB must be there for its stack.
pub proof fn lemma_thread_when(mm: MemoryManager, mem: Seq<PageTable>, entry_addr: u64)
    ensures
        thread::thread_refusal(mm, mem, entry_addr) == if entry_addr == 0 || !paging_laws::proper(
            entry_addr as int,
        ) {
            Some(ThreadError::InvalidEntryPoint)
        } else if regions::allocate_refusal(mm, mem, 0x4000) is Some {
            Some(ThreadError::StackAllocationFailed)
        } else {
            None
        },
{
}

/// What a process that was made has: the next number, its name, no threads yet, and the
/// next address space, whose root is its own and the frame that was handed out for it.
pub proof fn lemma_process_made(
    mm0: MemoryManager,
    mem0: Seq<PageTable>,
    mm1: MemoryManager,
    mem1: Seq<PageTable>,
    asids: AsidState,
    pids: IdSource,
    name: &'static str,
    made: Process,
)
    requires
        process::process_created(mm0, mem0, mm1, mem1, asids, pids, name, made),
    ensures
        made.id == pids.next,
        made.name == name,
        made.state == ProcessState::Created,
        made.threads@.len() == 0,
        made.address_space.id == asids.ids.next,
        made.address_space.owns_root,
        ({
            let root = made.address_space.root_page.0 as int / 4096;
            &&& made.address_space.root_page.0 == 4096 * root
            &&& root > 0
            &&& mm0.pmm@.is_free(root)
            &&& forall|j: int| 0 <= j < root ==> !mm0.pmm@.is_free(j)
            &&& mm1.pmm@.used == mm0.pmm@.used.update(root, true)
            &&& mm1.vmm@ == mm0.vmm@
            &&& mm1.root == mm0.root
        }),
{
}

/// What a thread that was made has: the next number, no process yet, where it starts
/// and with what, and the next 16 KiB of addresses for its stack, which it owns. Its
/// stack pointer is 80 bytes below the end of the stack.
pub proof fn lemma_thread_made(
    mm0: MemoryManager,
    mem0: Seq<PageTable>,
    mm1: MemoryManager,
    mem1: Seq<PageTable>,
    ids: ThreadIds,
    made: KernelThread,
    name: &'static str,
    entry_addr: u64,
    arg: usize,
    trampoline: u64,
)
    requires
        thread::thread_made(mm0, mem0, mm1, mem1, ids, made, name, entry_addr, arg, trampoline),
    ensures
        made.id == ids.threads.next,
        made.process_id == 0,
        made.name == name,
        made.state == ThreadState::Created,
        made.entry == entry_addr,
        made.arg == arg,
        made.context.id == ids.contexts.next,
        made.context.rip == trampoline,
        made.context.r12 == entry_addr,
        made.context.r13 == ids.contexts.next,
        made.context.rflags == 0x202,
        ({
            let region = made.stack.region;
            &&& region.start.0 == mm0.vmm.next_dynamic_addr
            &&& region.size_bytes == 0x4000
            &&& region.permissions.writable
            &&& !region.permissions.executable
            &&& !region.permissions.user
            &&& region.purpose == RegionPurpose::DynamicKernel
            &&& region.owns_physical_pages
            &&& made.context.rsp == region.start.0 + 0x4000 - 80
            &&& mm1.vmm.next_dynamic_addr == region.start.0 + 0x4000
        }),
        mm1.vmm@.len() == mm0.vmm@.len() + 1,
        mm1.vmm@.drop_last() == mm0.vmm@,
        mm1.vmm@.last().start == made.stack.region.start,
        mm1.vmm@.last().size_bytes == 0x4000,
{
    let region = context::stack_region(mm0.vmm.next_dynamic_addr);
    assert(mm0.vmm@.push(region).drop_last() =~= mm0.vmm@);
}

/// What a thread that was made finds on its stack, as 2048 words from its start on:
/// where it goes first in the last, the flags with interrupts on before that, then
/// nothing for `rbx` and `rbp`, where it starts for `r12`, its context's number for
/// `r13`, and nothing for the others.
pub proof fn lemma_thread_stack(
    mm0: MemoryManager,
    mem0: Seq<PageTable>,
    mm1: MemoryManager,
    mem1: Seq<PageTable>,
    ids: ThreadIds,
    made: KernelThread,
    name: &'static str,
    entry_addr: u64,
    arg: usize,
    trampoline: u64,
)
    requires
        thread::thread_made(mm0, mem0, mm1, mem1, ids, made, name, entry_addr, arg, trampoline),
    ensures
        ({
            let ws = made.stack.words(mm1, mem1);
            &&& ws.len() == 2048
            &&& ws[2047] == trampoline
            &&& ws[2046] == 0x202
            &&& ws[2045] == 0
            &&& ws[2044] == 0
            &&& ws[2043] == entry_addr
            &&& ws[2042] == ids.contexts.next
            &&& ws[2041] == 0
            &&& ws[2040] == 0
            &&& ws[2039] == 0
            &&& ws[2038] == 0
        }),
{
    let frame = context::initial_frame(ids.contexts.next, entry_addr, trampoline);
    let mid = choose|mid: Seq<PageTable>| #[trigger]
        context::made_through(mm0, mem0, mm1, mid, mem1, made.stack, frame);
    let before = made.stack.words(mm1, mid);
    assert(before.len() == 2048);
    assert(made.stack.words(mm1, mem1) == context::with_frame(before, 2038, frame));
}

/// The stack of a thread that was made is memory that the kernel can write and not run.
pub proof fn lemma_thread_stack_mapped(
    mm0: MemoryManager,
    mem0: Seq<PageTable>,
    mm1: MemoryManager,
    mem1: Seq<PageTable>,
    ids: ThreadIds,
    made: KernelThread,
    name: &'static str,
    entry_addr: u64,
    arg: usize,
    trampoline: u64,
    addr: u64,
)
    requires
        mm0.ready(mem0),
        4 <= mm0.pmm@.free_count(),
        thread::thread_made(mm0, mem0, mm1, mem1, ids, made, name, entry_addr, arg, trampoline),
        made.stack.region.start.0 <= addr < made.stack.region.start.0 + 0x4000,
    ensures
        paging::translation(mem1, mm1.root, VirtAddr(addr)) matches Some(t) && t.1
            == PageTableFlags(0x8000_0000_0000_0003),
{
    let next = mm0.vmm.next_dynamic_addr;
    let frame = context::initial_frame(ids.contexts.next, entry_addr, trampoline);
    let mid = choose|mid: Seq<PageTable>| #[trigger]
        context::made_through(mm0, mem0, mm1, mid, mem1, made.stack, frame);
    crate::context_laws::lemma_stack_mapped(mm0, mem0, mm1, mid, next, addr);
    paging_laws::lemma_within_translates(mm1, mid, mem1, next as int, 4, mm1.root, addr);
}

/// When the processor can go from one thread to another, and why it cannot, in the
/// order in which it is asked.
pub proof fn lemma_switch_when(current: KernelThread, target: KernelThread)
    ensures
        thread::switch_refusal(current, target) == if current.id == target.id {
            Some(SwitchError::SameThread)
        } else if target.state == ThreadState::Terminated {
            Some(SwitchError::TargetTerminated)
        } else if target.context.rsp == 0 || !paging_laws::proper(target.context.rsp as int) {
            Some(SwitchError::InvalidStackPointer)
        } else if target.context.rip == 0 || !paging_laws::proper(target.context.rip as int) {
            Some(SwitchError::InvalidInstructionPointer)
        } else {
            None
        },
{
}

/// What is noted of the two threads when the processor goes from the one to the other:
/// the one is ready, and its context is suspended 80 bytes below where the stack pointer
/// was and goes on where the processor was; the other is running. Nothing else of them
/// changes.
pub proof fn lemma_switch_noted(
    mm: MemoryManager,
    mem0: Seq<PageTable>,
    cpu0: CpuState,
    current0: KernelThread,
    target0: KernelThread,
    mem1: Seq<PageTable>,
    cpu1: CpuState,
    current1: KernelThread,
    target1: KernelThread,
)
    requires
        cpu0.rsp >= 80,
        thread::switched(mm, mem0, cpu0, current0, target0, mem1, cpu1, current1, target1),
    ensures
        current1.state == ThreadState::Ready,
        current1.context.state == ContextState::Suspended,
        current1.context.rsp == cpu0.rsp - 80,
        current1.context.rip == cpu0.rip,
        current1.context.id == current0.context.id,
        current1.context.r12 == current0.context.r12,
        current1.context.r13 == current0.context.r13,
        current1.id == current0.id,
        current1.process_id == current0.process_id,
        current1.name == current0.name,
        current1.stack == current0.stack,
        current1.entry == current0.entry,
        current1.arg == current0.arg,
        target1.state == ThreadState::Running,
        target1.context.state == ContextState::Running,
        target1.context.rsp == target0.context.rsp,
        target1.context.rip == target0.context.rip,
        target1.context.id == target0.context.id,
        target1.id == target0.id,
        target1.process_id == target0.process_id,
        target1.name == target0.name,
        target1.stack == target0.stack,
        target1.entry == target0.entry,
        target1.arg == target0.arg,
{
}

} // verus!
