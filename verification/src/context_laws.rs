//! What holds of stacks and of the registers that are kept on them, word by word.

use vstd::prelude::*;
use crate::context;
use crate::context::{ContextError, ContextState, CpuState, KernelStack};
use crate::paging;
use crate::paging::MemoryManager;
use crate::paging_laws;
use crate::regions;
use crate::vmm::{PageTable, PageTableFlags, RegionPurpose, VirtAddr};

verus! {

/// The word at `addr` under the kernel's root.
pub open spec fn stack_word(mm: MemoryManager, mem: Seq<PageTable>, addr: int) -> u64 {
    paging::word_at(mem, mm.root.0 as int / 4096, addr)
}

/// A stack has 16 KiB from where it is mapped on, for the kernel to write and not to
/// run, and each of its addresses translates to memory that was free.
pub proof fn lemma_stack_mapped(
    mm0: MemoryManager,
    mem0: Seq<PageTable>,
    mm1: MemoryManager,
    mem1: Seq<PageTable>,
    next: u64,
    addr: u64,
)
    requires
        mm0.ready(mem0),
        next % 4096 == 0,
        next + 0x4000 <= 0x0000_7000_0000_0000,
        4 <= mm0.pmm@.free_count(),
        regions::fresh_mapped(
            mm0,
            mem0,
            mm1,
            mem1,
            next,
            context::stack_region(next).pages(),
            context::stack_region(next).permissions.page_flags(),
        ),
        next <= addr < next + 0x4000,
    ensures
        ({
            let region = context::stack_region(next);
            &&& region.start.0 == next
            &&& region.size_bytes == 0x4000
            &&& region.permissions.writable
            &&& !region.permissions.executable
            &&& !region.permissions.user
            &&& region.purpose == RegionPurpose::DynamicKernel
        }),
        paging::translation(mem1, mm1.root, VirtAddr(addr)) matches Some(t) && {
            &&& t.1 == PageTableFlags(0x8000_0000_0000_0003)
            &&& !mm0.pmm@.used[t.0.0 as int / 4096]
            &&& mm1.pmm@.used[t.0.0 as int / 4096]
        },
{
    let flags = PageTableFlags(0x8000_0000_0000_0003);
    context::lemma_stack_flags();
    assert(context::stack_region(next).permissions.page_flags() == flags);
    paging_laws::lemma_fresh_translates(mm0, mem0, mm1, mem1, next, 4, flags, addr);
    let f = mm0.pmm@.nth_free((addr - next) / 4096);
    let off = addr as int % 4096;
    assert((4096 * f + off) / 4096 == f);
}

/// When a context can be made, and why it cannot: where it is to start and the end of
/// its stack must be addresses that the processor takes, and not 0.
pub proof fn lemma_context_when(entry_addr: u64, stack: KernelStack)
    requires
        stack.region.start.0 + stack.region.size_bytes <= 0xFFFF_FFFF_FFFF_FFFF,
    ensures
        ({
            let top = stack.region.start.0 + stack.region.size_bytes;
            context::context_refusal(entry_addr, stack) == if entry_addr == 0
                || !paging_laws::proper(entry_addr as int) {
                Some(ContextError::InvalidEntryPoint)
            } else if top == 0 || !paging_laws::proper(top) {
                Some(ContextError::InvalidStackPointer)
            } else {
                None
            }
        }),
{
}

/// The words of a frame that was written.
proof fn lemma_frame_word(
    mm: MemoryManager,
    mem0: Seq<PageTable>,
    mem1: Seq<PageTable>,
    addr: int,
    frame: Seq<u64>,
    k: int,
)
    requires
        mm.ready(mem0),
        frame.len() == context::FRAME_WORDS,
        context::writable_frame(mm, mem0, addr),
        context::frame_written(mm, mem0, mem1, addr, frame),
        0 <= k < context::FRAME_WORDS,
    ensures
        stack_word(mm, mem1, addr + 8 * k) == frame[k],
{
    reveal(context::frame_written);
    context::lemma_still_writable(mm, mem0, mem1, addr);
    assert(context::word_frame(mm, mem1, addr, k) == context::word_frame(mm, mem0, addr, k));
    assert(context::word_value(mm, mem0, mem1, addr, k) == frame[k]);
    assert(context::writable_word(mm, mem0, addr, k));
}

/// What a new context finds on its stack, from the highest unit of 16 bytes down: where
/// it goes first, the flags with interrupts on, nothing for `rbx` and `rbp`, where it is
/// to start for `r12`, its number for `r13`, and nothing for the others. Its stack
/// pointer is 80 bytes below.
pub proof fn lemma_new_context_words(
    mm: MemoryManager,
    mem0: Seq<PageTable>,
    mem1: Seq<PageTable>,
    stack: KernelStack,
    id: u64,
    entry_addr: u64,
    trampoline: u64,
)
    requires
        mm.ready(mem0),
        stack.region.start.0 + stack.region.size_bytes <= 0xFFFF_FFFF_FFFF_FFFF,
        context::writable_frame(mm, mem0, context::frame_start(stack)),
        context::frame_written(
            mm,
            mem0,
            mem1,
            context::frame_start(stack),
            context::initial_frame(id, entry_addr, trampoline),
        ),
    ensures
        ({
            let end = stack.region.start.0 + stack.region.size_bytes;
            let top = end - end % 16;
            let made = context::new_context(
                context::frame_start(stack) as u64,
                id,
                entry_addr,
                trampoline,
            );
            &&& stack_word(mm, mem1, top - 8) == trampoline
            &&& stack_word(mm, mem1, top - 16) == 0x202
            &&& stack_word(mm, mem1, top - 24) == 0
            &&& stack_word(mm, mem1, top - 32) == 0
            &&& stack_word(mm, mem1, top - 40) == entry_addr
            &&& stack_word(mm, mem1, top - 48) == id
            &&& stack_word(mm, mem1, top - 56) == 0
            &&& stack_word(mm, mem1, top - 64) == 0
            &&& stack_word(mm, mem1, top - 72) == 0
            &&& stack_word(mm, mem1, top - 80) == 0
            &&& made.rsp == top - 80
            &&& made.rip == trampoline
            &&& made.r12 == entry_addr
            &&& made.r13 == id
            &&& made.id == id
            &&& made.rflags == 0x202
            &&& made.state == ContextState::Initialized
            &&& made.r14 == 0 && made.r15 == 0 && made.rbx == 0 && made.rbp == 0
        }),
{
    let a = context::frame_start(stack);
    let frame = context::initial_frame(id, entry_addr, trampoline);
    let end = stack.region.start.0 + stack.region.size_bytes;
    assert(a == end - end % 16 - 80);
    assert(context::writable_word(mm, mem0, a, 0));
    lemma_frame_word(mm, mem0, mem1, a, frame, 0);
    lemma_frame_word(mm, mem0, mem1, a, frame, 1);
    lemma_frame_word(mm, mem0, mem1, a, frame, 2);
    lemma_frame_word(mm, mem0, mem1, a, frame, 3);
    lemma_frame_word(mm, mem0, mem1, a, frame, 4);
    lemma_frame_word(mm, mem0, mem1, a, frame, 5);
    lemma_frame_word(mm, mem0, mem1, a, frame, 6);
    lemma_frame_word(mm, mem0, mem1, a, frame, 7);
    lemma_frame_word(mm, mem0, mem1, a, frame, 8);
    lemma_frame_word(mm, mem0, mem1, a, frame, 9);
}

/// What a switch leaves on the stack that the processor goes from, from its stack
/// pointer down: where it is, the flags, `rbx`, `rbp`, `r12` to `r15`, `rdi` and `rsi`.
pub proof fn lemma_switch_saves(
    mm: MemoryManager,
    mem0: Seq<PageTable>,
    mem1: Seq<PageTable>,
    cpu: CpuState,
)
    requires
        mm.ready(mem0),
        context::writable_frame(mm, mem0, cpu.rsp - context::FRAME_BYTES),
        context::frame_written(mm, mem0, mem1, cpu.rsp - context::FRAME_BYTES, cpu.frame()),
    ensures
        stack_word(mm, mem1, cpu.rsp - 8) == cpu.rip,
        stack_word(mm, mem1, cpu.rsp - 16) == cpu.rflags,
        stack_word(mm, mem1, cpu.rsp - 24) == cpu.rbx,
        stack_word(mm, mem1, cpu.rsp - 32) == cpu.rbp,
        stack_word(mm, mem1, cpu.rsp - 40) == cpu.r12,
        stack_word(mm, mem1, cpu.rsp - 48) == cpu.r13,
        stack_word(mm, mem1, cpu.rsp - 56) == cpu.r14,
        stack_word(mm, mem1, cpu.rsp - 64) == cpu.r15,
        stack_word(mm, mem1, cpu.rsp - 72) == cpu.rdi,
        stack_word(mm, mem1, cpu.rsp - 80) == cpu.rsi,
{
    let a = cpu.rsp - context::FRAME_BYTES;
    let frame = cpu.frame();
    lemma_frame_word(mm, mem0, mem1, a, frame, 0);
    lemma_frame_word(mm, mem0, mem1, a, frame, 1);
    lemma_frame_word(mm, mem0, mem1, a, frame, 2);
    lemma_frame_word(mm, mem0, mem1, a, frame, 3);
    lemma_frame_word(mm, mem0, mem1, a, frame, 4);
    lemma_frame_word(mm, mem0, mem1, a, frame, 5);
    lemma_frame_word(mm, mem0, mem1, a, frame, 6);
    lemma_frame_word(mm, mem0, mem1, a, frame, 7);
    lemma_frame_word(mm, mem0, mem1, a, frame, 8);
    lemma_frame_word(mm, mem0, mem1, a, frame, 9);
}

/// What a switch takes from the stack that the processor goes to, from the stack
/// pointer that was kept up, and where that leaves the stack pointer.
pub proof fn lemma_switch_loads(mm: MemoryManager, mem: Seq<PageTable>, rsp: u64)
    requires
        context::writable_frame(mm, mem, rsp as int),
    ensures
        ({
            let cpu = CpuState::loaded(mm, mem, rsp as int);
            &&& cpu.rsi == stack_word(mm, mem, rsp as int)
            &&& cpu.rdi == stack_word(mm, mem, rsp + 8)
            &&& cpu.r15 == stack_word(mm, mem, rsp + 16)
            &&& cpu.r14 == stack_word(mm, mem, rsp + 24)
            &&& cpu.r13 == stack_word(mm, mem, rsp + 32)
            &&& cpu.r12 == stack_word(mm, mem, rsp + 40)
            &&& cpu.rbp == stack_word(mm, mem, rsp + 48)
            &&& cpu.rbx == stack_word(mm, mem, rsp + 56)
            &&& cpu.rflags == stack_word(mm, mem, rsp + 64)
            &&& cpu.rip == stack_word(mm, mem, rsp + 72)
            &&& cpu.rsp == (rsp + 80) % 0x1_0000_0000_0000_0000
        }),
{
    let ws = context::frame_words(mm, mem, rsp as int);
    assert forall|k: int| 0 <= k < 10 implies #[trigger] ws[k] == stack_word(mm, mem, rsp + 8 * k) by {
        assert(context::writable_word(mm, mem, rsp as int, k));
    }
    assert(ws[0] == stack_word(mm, mem, rsp as int));
    assert(ws[1] == stack_word(mm, mem, rsp + 8));
    assert(ws[2] == stack_word(mm, mem, rsp + 16));
    assert(ws[3] == stack_word(mm, mem, rsp + 24));
    assert(ws[4] == stack_word(mm, mem, rsp + 32));
    assert(ws[5] == stack_word(mm, mem, rsp + 40));
    assert(ws[6] == stack_word(mm, mem, rsp + 48));
    assert(ws[7] == stack_word(mm, mem, rsp + 56));
    assert(ws[8] == stack_word(mm, mem, rsp + 64));
    assert(ws[9] == stack_word(mm, mem, rsp + 72));
}

} // verus!
