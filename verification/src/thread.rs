//! Kernel threads: their making, and switching from one to another.

use vstd::prelude::*;
use crate::context;
use crate::context::{create_context_raw, switch_context, CpuState, ExecutionContext, KernelStack};
use crate::ids::IdSource;
use crate::paging::MemoryManager;
use crate::regions;
use crate::regions::unmap_region;
use crate::vmm::{is_canonical, PageTable, RegionPurpose, VirtAddr, VirtPermissions, VirtRegion};
use crate::window;

verus! {

/// The most threads that can be registered.
pub const MAX_THREADS: usize = 32;

#[derive(Copy, Clone, Debug, PartialEq, Eq, Structural)]
pub enum ThreadState {
    Created,
    Ready,
    Running,
    Blocked,
    Terminated,
}

impl ThreadState {
    pub open spec fn label(self) -> Seq<char> {
        match self {
            ThreadState::Created => "CREATED"@,
            ThreadState::Ready => "READY"@,
            ThreadState::Running => "RUNNING"@,
            ThreadState::Blocked => "BLOCKED"@,
            ThreadState::Terminated => "TERMINATED"@,
        }
    }

    pub fn name(self) -> (r: &'static str)
        ensures
            r@ == self.label(),
            self == ThreadState::Created ==> r@ == "CREATED"@,
            self == ThreadState::Ready ==> r@ == "READY"@,
            self == ThreadState::Running ==> r@ == "RUNNING"@,
            self == ThreadState::Blocked ==> r@ == "BLOCKED"@,
            self == ThreadState::Terminated ==> r@ == "TERMINATED"@,
    {
        match self {
            ThreadState::Created => "CREATED",
            ThreadState::Ready => "READY",
            ThreadState::Running => "RUNNING",
            ThreadState::Blocked => "BLOCKED",
            ThreadState::Terminated => "TERMINATED",
        }
    }
}

#[derive(Copy, Clone, Debug, PartialEq, Eq, Structural)]
pub enum ThreadError {
    InvalidEntryPoint,
    StackAllocationFailed,
    ContextCreationFailed,
    RegistryFull,
}

#[derive(Copy, Clone, Debug, PartialEq, Eq, Structural)]
pub enum SwitchError {
    NullContext,
    SameThread,
    TargetTerminated,
    InvalidState,
    InvalidStackPointer,
    InvalidInstructionPointer,
}

/// The numbers of contexts and of threads.
#[derive(Copy, Clone, Debug, PartialEq, Eq, Structural)]
pub struct ThreadIds {
    pub contexts: IdSource,
    pub threads: IdSource,
}

impl ThreadIds {
    /// Both start from 1; the boot's thread has number 0.
    pub fn new() -> (r: Self)
        ensures
            r.contexts.next == 1,
            r.threads.next == 1,
    {
        Self { contexts: IdSource::new(), threads: IdSource::new() }
    }
}

/// A thread of the kernel, with a stack of its own.
#[derive(Debug)]
pub struct KernelThread {
    pub id: u64,
    pub process_id: u64,
    pub name: &'static str,
    pub state: ThreadState,
    pub context: ExecutionContext,
    pub stack: KernelStack,
    pub entry: u64,
    pub arg: usize,
}

/// Why no thread can be made; none if one can.
pub open spec fn thread_refusal(
    mm: MemoryManager,
    mem: Seq<PageTable>,
    entry_addr: u64,
) -> Option<ThreadError> {
    if !context::usable_address(entry_addr) {
        Some(ThreadError::InvalidEntryPoint)
    } else if regions::allocate_refusal(mm, mem, context::STACK_SIZE_BYTES) is Some {
        Some(ThreadError::StackAllocationFailed)
    } else {
        None
    }
}

/// What is left of an attempt to make a thread that was refused: nothing where
/// the entry point is bad, and else what is left of its stack.
pub open spec fn thread_refused(
    mm0: MemoryManager,
    mem0: Seq<PageTable>,
    mm1: MemoryManager,
    mem1: Seq<PageTable>,
    entry_addr: u64,
) -> bool {
    &&& regions::rolled_back(mm0, mem0, mm1, mem1)
    &&& if context::usable_address(entry_addr) {
        regions::region_refused(mm0, mem0, mm1, mem1, context::STACK_SIZE_BYTES)
    } else {
        mm1 == mm0 && mem1 == mem0
    }
}

/// From one state to another, `thread` was made to start at `entry_addr`.
pub open spec fn thread_made(
    mm0: MemoryManager,
    mem0: Seq<PageTable>,
    mm1: MemoryManager,
    mem1: Seq<PageTable>,
    ids: ThreadIds,
    thread: KernelThread,
    name: &'static str,
    entry_addr: u64,
    arg: usize,
    trampoline: u64,
) -> bool {
    let id = ids.contexts.next;
    let top = thread.stack.region.limit();
    &&& thread.id == ids.threads.next
    &&& thread.process_id == 0
    &&& thread.name == name
    &&& thread.state == ThreadState::Created
    &&& thread.entry == entry_addr
    &&& thread.arg == arg
    &&& thread.context == context::new_context(
        (top - context::FRAME_BYTES) as u64,
        id,
        entry_addr,
        trampoline,
    )
    &&& context::context_made(
        mm0,
        mem0,
        mm1,
        mem1,
        thread.stack,
        context::initial_frame(id, entry_addr, trampoline),
    )
}

impl KernelThread {
    /// Makes a thread that starts at `entry_addr` with `arg`, on a stack of its
    /// own.
    pub fn new_raw(
        frames: &mut [PageTable],
        mm: &mut MemoryManager,
        ids: &mut ThreadIds,
        name: &'static str,
        entry_addr: u64,
        arg: usize,
        trampoline: u64,
    ) -> (r: Result<Self, ThreadError>)
        requires
            old(mm).ready(old(frames)@),
        ensures
            final(mm).ready(final(frames)@),
            match thread_refusal(*old(mm), old(frames)@, entry_addr) {
                Some(e) => {
                    &&& r is Err
                    &&& r->Err_0 == e
                    &&& *final(ids) == *old(ids)
                    &&& thread_refused(
                        *old(mm),
                        old(frames)@,
                        *final(mm),
                        final(frames)@,
                        entry_addr,
                    )
                },
                None => {
                    &&& r is Ok
                    &&& thread_made(
                        *old(mm),
                        old(frames)@,
                        *final(mm),
                        final(frames)@,
                        *old(ids),
                        r->Ok_0,
                        name,
                        entry_addr,
                        arg,
                        trampoline,
                    )
                    &&& final(ids).contexts.next == old(ids).contexts.after(1)
                    &&& final(ids).threads.next == old(ids).threads.after(1)
                },
            },
    {
        let ghost mm0 = *mm;
        let ghost mem0 = frames@;
        proof {
            crate::paging::lemma_grown_reflexive(mm0, mem0);
        }
        if entry_addr == 0 || !is_canonical(entry_addr) {
            return Err(ThreadError::InvalidEntryPoint);
        }
        let stack = match KernelStack::allocate(frames, mm) {
            Ok(s) => s,
            Err(_) => return Err(ThreadError::StackAllocationFailed),
        };
        let ghost mid = frames@;
        proof {
            context::lemma_backed_writable(stack, *mm, mid);
        }
        let context = match create_context_raw(
            frames,
            mm,
            &mut ids.contexts,
            entry_addr,
            &stack,
            trampoline,
        ) {
            Ok(ctx) => ctx,
            Err(_) => {
                let _ = unmap_region(frames, mm, &stack.region);
                return Err(ThreadError::ContextCreationFailed);
            },
        };
        let id: u64 = ids.threads.take();
        proof {
            assert(context::made_through(
                mm0,
                mem0,
                *mm,
                mid,
                frames@,
                stack,
                context::initial_frame(context.id, entry_addr, trampoline),
            ));
        }
        Ok(
            Self {
                id,
                process_id: 0,
                name,
                state: ThreadState::Created,
                context,
                stack,
                entry: entry_addr,
                arg,
            },
        )
    }

    /// Makes a thread that runs the function at `entry` with `arg`.
    pub fn new(
        frames: &mut [PageTable],
        mm: &mut MemoryManager,
        ids: &mut ThreadIds,
        name: &'static str,
        entry: u64,
        arg: usize,
        trampoline: u64,
    ) -> (r: Result<Self, ThreadError>)
        requires
            old(mm).ready(old(frames)@),
        ensures
            final(mm).ready(final(frames)@),
            match thread_refusal(*old(mm), old(frames)@, entry) {
                Some(e) => {
                    &&& r is Err
                    &&& r->Err_0 == e
                    &&& *final(ids) == *old(ids)
                    &&& thread_refused(
                        *old(mm),
                        old(frames)@,
                        *final(mm),
                        final(frames)@,
                        entry,
                    )
                },
                None => {
                    &&& r is Ok
                    &&& thread_made(
                        *old(mm),
                        old(frames)@,
                        *final(mm),
                        final(frames)@,
                        *old(ids),
                        r->Ok_0,
                        name,
                        entry,
                        arg,
                        trampoline,
                    )
                    &&& final(ids).contexts.next == old(ids).contexts.after(1)
                    &&& final(ids).threads.next == old(ids).threads.after(1)
                },
            },
    {
        Self::new_raw(frames, mm, ids, name, entry, arg, trampoline)
    }

    pub open spec fn is_bootstrap(self) -> bool {
        &&& self.id == 0
        &&& self.process_id == 0
        &&& self.name == "bootstrap"
        &&& self.state == ThreadState::Running
        &&& self.context == ExecutionContext::spec_empty()
        &&& self.stack.region == (VirtRegion {
            start: VirtAddr(0x0000_2000_0000_0000),
            size_bytes: 0x4000,
            permissions: VirtPermissions {
                readable: true,
                writable: true,
                executable: false,
                user: false,
            },
            purpose: RegionPurpose::DynamicKernel,
            owns_physical_pages: false,
        })
        &&& self.entry == 0
        &&& self.arg == 0
    }

    /// The thread that the kernel boots on.
    pub fn bootstrap() -> (r: Self)
        ensures
            r.is_bootstrap(),
            r.id == 0,
            r.process_id == 0,
            r.name == "bootstrap",
            r.state == ThreadState::Running,
            r.entry == 0,
            r.arg == 0,
            r.context.rsp == 0 && r.context.rip == 0 && r.context.rflags == 0x202,
            r.stack.region.start.0 == 0x0000_2000_0000_0000,
            r.stack.region.size_bytes == 0x4000,
            r.stack.region.permissions.writable && !r.stack.region.permissions.executable,
            !r.stack.region.owns_physical_pages,
    {
        Self {
            id: 0,
            process_id: 0,
            name: "bootstrap",
            state: ThreadState::Running,
            context: ExecutionContext::empty(),
            stack: KernelStack {
                region: VirtRegion {
                    start: VirtAddr::new(0x0000_2000_0000_0000),
                    size_bytes: 0x4000,
                    permissions: VirtPermissions::kernel_data(),
                    purpose: RegionPurpose::DynamicKernel,
                    owns_physical_pages: false,
                },
            },
            entry: 0,
            arg: 0,
        }
    }
}

/// Why the processor cannot go from `current` to `target`; none if it can.
pub open spec fn switch_refusal(
    current: KernelThread,
    target: KernelThread,
) -> Option<SwitchError> {
    if current.id == target.id {
        Some(SwitchError::SameThread)
    } else if target.state == ThreadState::Terminated {
        Some(SwitchError::TargetTerminated)
    } else if !context::usable_address(target.context.rsp) {
        Some(SwitchError::InvalidStackPointer)
    } else if !context::usable_address(target.context.rip) {
        Some(SwitchError::InvalidInstructionPointer)
    } else {
        None
    }
}

/// Decides whether the processor can go from `current` to `target`, and notes
/// the states of both. The switch of the registers follows.
pub fn switch_to(current: &mut KernelThread, target: &mut KernelThread) -> (r: Result<
    (),
    SwitchError,
>)
    ensures
        match switch_refusal(*old(current), *old(target)) {
            Some(e) => {
                &&& r == Err::<(), SwitchError>(e)
                &&& *final(current) == *old(current)
                &&& *final(target) == *old(target)
            },
            None => {
                &&& r == Ok::<(), SwitchError>(())
                &&& *final(current) == (KernelThread { state: ThreadState::Ready, ..*old(current) })
                &&& *final(target) == (KernelThread { state: ThreadState::Running, ..*old(target) })
            },
        },
{
    if current.id == target.id {
        return Err(SwitchError::SameThread);
    }
    if target.state == ThreadState::Terminated {
        return Err(SwitchError::TargetTerminated);
    }
    if target.context.rsp == 0 || !is_canonical(target.context.rsp) {
        return Err(SwitchError::InvalidStackPointer);
    }
    if target.context.rip == 0 || !is_canonical(target.context.rip) {
        return Err(SwitchError::InvalidInstructionPointer);
    }
    current.state = ThreadState::Ready;
    target.state = ThreadState::Running;
    Ok(())
}

/// Threads that are registered, oldest first.
pub struct ThreadRegistry {
    threads: Vec<KernelThread>,
}

impl View for ThreadRegistry {
    type V = Seq<KernelThread>;

    closed spec fn view(&self) -> Seq<KernelThread> {
        self.threads@
    }
}

impl ThreadRegistry {
    /// There are no more threads than can be registered.
    pub open spec fn wf(&self) -> bool {
        self@.len() <= MAX_THREADS
    }

    pub fn new() -> (r: Self)
        ensures
            r.wf(),
            r@ == Seq::<KernelThread>::empty(),
    {
        Self { threads: Vec::new() }
    }
}

/// Registers a thread and says its number.
pub fn register_thread(registry: &mut ThreadRegistry, thread: KernelThread) -> (r: Result<
    u64,
    ThreadError,
>)
    requires
        old(registry).wf(),
    ensures
        final(registry).wf(),
        r is Ok <==> old(registry)@.len() < 32,
        if old(registry)@.len() < MAX_THREADS {
            &&& r == Ok::<u64, ThreadError>(thread.id)
            &&& final(registry)@ == old(registry)@.push(thread)
        } else {
            &&& r == Err::<u64, ThreadError>(ThreadError::RegistryFull)
            &&& final(registry)@ == old(registry)@
        },
{
    if registry.threads.len() >= MAX_THREADS {
        return Err(ThreadError::RegistryFull);
    }
    let id: u64 = thread.id;
    registry.threads.push(thread);
    Ok(id)
}

/// How many threads are registered.
pub fn active_thread_count(registry: &ThreadRegistry) -> (r: usize)
    ensures
        r == registry@.len(),
{
    registry.threads.len()
}

/// The stacks of two threads are ready for a switch of a processor from one to
/// the other.
pub open spec fn stacks_ready(
    mm: MemoryManager,
    mem: Seq<PageTable>,
    cpu: CpuState,
    current: KernelThread,
    target: KernelThread,
) -> bool {
    &&& current.stack.backed(mm, mem)
    &&& target.stack.backed(mm, mem)
    &&& context::stacks_apart(current.stack, target.stack, mm, mem)
    &&& current.stack.region.start.0 + context::FRAME_BYTES <= cpu.rsp
        <= current.stack.region.limit()
    &&& cpu.rsp % 8 == 0
    &&& target.stack.region.start.0 <= target.context.rsp
    &&& target.context.rsp + context::FRAME_BYTES <= target.stack.region.limit()
    &&& target.context.rsp % 8 == 0
}

/// The frame that the registers are saved in, below the stack pointer, and the one
/// that those of `target` are in are mapped to memory.
pub open spec fn frames_ready(
    mm: MemoryManager,
    mem: Seq<PageTable>,
    cpu: CpuState,
    target: KernelThread,
) -> bool {
    &&& context::writable_frame(mm, mem, cpu.rsp - context::FRAME_BYTES)
    &&& context::writable_frame(mm, mem, target.context.rsp as int)
}

/// Stacks that are ready for a switch hold the frames for it.
pub proof fn lemma_stacks_ready(
    mm: MemoryManager,
    mem: Seq<PageTable>,
    cpu: CpuState,
    current: KernelThread,
    target: KernelThread,
)
    requires
        mm.ready(mem),
        stacks_ready(mm, mem, cpu, current, target),
    ensures
        frames_ready(mm, mem, cpu, target),
{
    let left = cpu.rsp - context::FRAME_BYTES;
    let resumed = target.context.rsp as int;
    assert(context::writable_frame(mm, mem, left)) by {
        context::lemma_frame_in_stack(current.stack, mm, mem, left);
    }
    assert(context::writable_frame(mm, mem, resumed)) by {
        context::lemma_frame_in_stack(target.stack, mm, mem, resumed);
    }
}

/// A processor went from `current0` to `target0`: what became of it, of the two
/// threads and of memory.
pub open spec fn switched(
    mm: MemoryManager,
    mem0: Seq<PageTable>,
    cpu0: CpuState,
    current0: KernelThread,
    target0: KernelThread,
    mem1: Seq<PageTable>,
    cpu1: CpuState,
    current1: KernelThread,
    target1: KernelThread,
) -> bool {
    &&& current1 == (KernelThread {
        state: ThreadState::Ready,
        context: ExecutionContext {
            rsp: (cpu0.rsp - context::FRAME_BYTES) as u64,
            rip: cpu0.rip,
            state: crate::context::ContextState::Suspended,
            ..current0.context
        },
        ..current0
    })
    &&& target1 == (KernelThread {
        state: ThreadState::Running,
        context: ExecutionContext {
            state: crate::context::ContextState::Running,
            ..target0.context
        },
        ..target0
    })
    &&& context::frame_written(
        mm,
        mem0,
        mem1,
        cpu0.rsp - context::FRAME_BYTES,
        cpu0.frame(),
    )
    &&& cpu1 == CpuState::loaded(mm, mem1, target0.context.rsp as int)
}

/// What a switch does to the stacks of the threads, where the one that the
/// processor is on and the one that it goes to are ready for it.
pub open spec fn stacks_switched(
    mm: MemoryManager,
    mem0: Seq<PageTable>,
    cpu0: CpuState,
    current0: KernelThread,
    target0: KernelThread,
    mem1: Seq<PageTable>,
    cpu1: CpuState,
) -> bool {
    let from = current0.stack;
    let to = target0.stack;
    &&& from.backed(mm, mem1)
    &&& to.backed(mm, mem1)
    &&& from.words(mm, mem1) == context::with_frame(
        from.words(mm, mem0),
        (cpu0.rsp - context::FRAME_BYTES - from.region.start.0) / 8,
        cpu0.frame(),
    )
    &&& to.words(mm, mem1) == to.words(mm, mem0)
    &&& cpu1 == CpuState::resumed(
        to.words(mm, mem0),
        (target0.context.rsp - to.region.start.0) / 8,
        (target0.context.rsp + context::FRAME_BYTES) as u64,
    )
    &&& window::only_within(
        mm,
        mem0,
        mem1,
        from.region.start.0 as int,
        from.region.pages(),
    )
}

/// Takes a processor from `current` to `target`, if it can go there: registers
/// are saved on the one stack and resumed from the other.
pub fn switch_threads(
    frames: &mut [PageTable],
    mm: &MemoryManager,
    cpu: &mut CpuState,
    current: &mut KernelThread,
    target: &mut KernelThread,
) -> (r: Result<(), SwitchError>)
    requires
        mm.ready(old(frames)@),
        switch_refusal(*old(current), *old(target)) is None ==> frames_ready(
            *mm,
            old(frames)@,
            *old(cpu),
            *old(target),
        ),
    ensures
        mm.ready(final(frames)@),
        match switch_refusal(*old(current), *old(target)) {
            Some(e) => {
                &&& r == Err::<(), SwitchError>(e)
                &&& *final(current) == *old(current)
                &&& *final(target) == *old(target)
                &&& *final(cpu) == *old(cpu)
                &&& final(frames)@ == old(frames)@
            },
            None => {
                &&& r == Ok::<(), SwitchError>(())
                &&& switched(
                    *mm,
                    old(frames)@,
                    *old(cpu),
                    *old(current),
                    *old(target),
                    final(frames)@,
                    *final(cpu),
                    *final(current),
                    *final(target),
                )
                &&& stacks_ready(
                    *mm,
                    old(frames)@,
                    *old(cpu),
                    *old(current),
                    *old(target),
                ) ==> stacks_switched(
                    *mm,
                    old(frames)@,
                    *old(cpu),
                    *old(current),
                    *old(target),
                    final(frames)@,
                    *final(cpu),
                )
            },
        },
{
    let ghost mem0 = frames@;
    let ghost cpu0 = *cpu;
    let ghost current0 = *current;
    let ghost target0 = *target;
    match switch_to(current, target) {
        Ok(()) => {
            switch_context(frames, mm, cpu, &mut current.context, &mut target.context);
            proof {
                if stacks_ready(*mm, mem0, cpu0, current0, target0) {
                    context::lemma_switch_on_stacks(
                        *mm,
                        mem0,
                        frames@,
                        cpu0,
                        target0.context.rsp as int,
                        current0.stack,
                        target0.stack,
                    );
                }
            }
            Ok(())
        },
        Err(e) => Err(e),
    }
}

/// A thread that the processor left can be gone back to: where it left off is
/// kept.
pub proof fn lemma_switch_back(before: KernelThread, left: KernelThread, other: KernelThread, cpu: CpuState)
    requires
        left == (KernelThread {
            state: ThreadState::Ready,
            context: ExecutionContext {
                rsp: (cpu.rsp - context::FRAME_BYTES) as u64,
                rip: cpu.rip,
                state: crate::context::ContextState::Suspended,
                ..before.context
            },
            ..before
        }),
        cpu.rsp > context::FRAME_BYTES,
        crate::vmm::canonical((cpu.rsp - context::FRAME_BYTES) as u64),
        context::usable_address(cpu.rip),
        other.id != before.id,
    ensures
        switch_refusal(other, left) is None,
{
}

/// What a thread that was made is: it waits to be run from its entry point, on a
/// stack of 16 KiB of its own that its stack pointer lies in. Its number is not 0,
/// and differs from those of the `made` threads before it, as long as the numbers
/// have not run out.
pub proof fn lemma_made_thread(
    mm0: MemoryManager,
    mem0: Seq<PageTable>,
    mm1: MemoryManager,
    mem1: Seq<PageTable>,
    ids: ThreadIds,
    thread: KernelThread,
    name: &'static str,
    entry_addr: u64,
    arg: usize,
    trampoline: u64,
    made: nat,
)
    requires
        thread_made(mm0, mem0, mm1, mem1, ids, thread, name, entry_addr, arg, trampoline),
        ids.threads.next == (IdSource { next: 1 }).after(made),
        made < u64::MAX,
    ensures
        thread.id != 0,
        forall|k: nat| k < made ==> thread.id != #[trigger] (IdSource { next: 1 }).after(k),
        thread.process_id == 0,
        thread.state == ThreadState::Created,
        thread.name == name,
        thread.entry == entry_addr,
        thread.arg == arg,
        thread.context.r12 == entry_addr,
        thread.stack.region.size_bytes == 16384,
        thread.stack.region.start.0 <= thread.context.rsp < thread.stack.region.limit(),
        thread.stack.backed(mm1, mem1),
        mm1.vmm@ == mm0.vmm@.push(context::stack_region(mm0.vmm.next_dynamic_addr)),
{
    let first = IdSource { next: 1 };
    vstd::arithmetic::div_mod::lemma_small_mod(1 + made, 0x1_0000_0000_0000_0000);
    assert forall|k: nat| k < made implies thread.id != #[trigger] first.after(k) by {
        crate::ids::lemma_ids_differ(first, k, made);
    }
}

/// A thread cannot be made at an entry point that is 0 or no canonical address,
/// and then nothing is reserved for it. That is the only reason for this error.
pub proof fn lemma_bad_entry_refused(
    mm0: MemoryManager,
    mem0: Seq<PageTable>,
    mm1: MemoryManager,
    mem1: Seq<PageTable>,
    entry_addr: u64,
)
    ensures
        thread_refusal(mm0, mem0, entry_addr) == Some(ThreadError::InvalidEntryPoint) <==> (
        entry_addr == 0 || !crate::vmm::canonical(entry_addr)),
        (entry_addr == 0 || !crate::vmm::canonical(entry_addr)) && thread_refused(
            mm0,
            mem0,
            mm1,
            mem1,
            entry_addr,
        ) ==> mm1 == mm0 && mem1 == mem0,
{
}

/// Threads that were made with other threads in between have different numbers,
/// as long as fewer than 2^64 were made from one to the other.
pub proof fn lemma_thread_numbers_differ(
    earlier: KernelThread,
    ids: ThreadIds,
    later: KernelThread,
    n: nat,
)
    requires
        earlier.id == ids.threads.next,
        later.id == ids.threads.after(n),
        0 < n < 0x1_0000_0000_0000_0000,
    ensures
        earlier.id != later.id,
{
    crate::ids::lemma_ids_differ(ids.threads, 0, n);
    vstd::arithmetic::div_mod::lemma_small_mod(
        ids.threads.next as nat,
        0x1_0000_0000_0000_0000,
    );
}
/// The words of a frame that was written are those that it was written with.
proof fn lemma_frame_read_back(
    mm: MemoryManager,
    mem0: Seq<PageTable>,
    mem1: Seq<PageTable>,
    addr: int,
    frame: Seq<u64>,
)
    requires
        mm.ready(mem0),
        frame.len() == context::FRAME_WORDS,
        context::writable_frame(mm, mem0, addr),
        context::frame_written(mm, mem0, mem1, addr, frame),
    ensures
        context::frame_words(mm, mem1, addr) == frame,
{
    reveal(context::frame_written);
    context::lemma_still_writable(mm, mem0, mem1, addr);
    let ws = context::frame_words(mm, mem1, addr);
    assert forall|k: int| 0 <= k < context::FRAME_WORDS implies #[trigger] ws[k] == frame[k] by {
        assert(context::word_frame(mm, mem1, addr, k) == context::word_frame(mm, mem0, addr, k));
        assert(context::word_value(mm, mem0, mem1, addr, k) == frame[k]);
    }
    assert(ws =~= frame);
}


/// The frame of some registers resumes those registers.
proof fn lemma_frame_resumed(cpu: CpuState)
    ensures
        CpuState::resumed(cpu.frame(), 0, cpu.rsp) == cpu,
{
}

/// A frame that was written and not touched since holds the registers still.
proof fn lemma_registers_back(
    mm: MemoryManager,
    mem0: Seq<PageTable>,
    mem1: Seq<PageTable>,
    mem3: Seq<PageTable>,
    cpu: CpuState,
)
    requires
        mm.ready(mem0),
        context::writable_frame(mm, mem0, cpu.rsp - context::FRAME_BYTES),
        context::frame_written(mm, mem0, mem1, cpu.rsp - context::FRAME_BYTES, cpu.frame()),
        context::frame_words(mm, mem3, cpu.rsp - context::FRAME_BYTES) == context::frame_words(
            mm,
            mem1,
            cpu.rsp - context::FRAME_BYTES,
        ),
    ensures
        CpuState::loaded(mm, mem3, cpu.rsp - context::FRAME_BYTES) == cpu,
{
    let addr = cpu.rsp - context::FRAME_BYTES;
    assert(context::frame_words(mm, mem3, addr) == cpu.frame()) by {
        assert(cpu.frame().len() == context::FRAME_WORDS);
        lemma_frame_read_back(mm, mem0, mem1, addr, cpu.frame());
    }
    assert(((addr + context::FRAME_BYTES) % 0x1_0000_0000_0000_0000) as u64 == cpu.rsp);
    lemma_frame_resumed(cpu);
}

/// After the processor went from `main` to another thread it can go back: the
/// way back is not refused. It leaves `main` running and the other thread ready,
/// and where the frame of `main` is as it was left when the processor comes back
/// to it, the processor has all registers that it had. `main` may be any thread,
/// the boot's too, on any stack.
pub proof fn lemma_there_and_back(
    mm: MemoryManager,
    mem0: Seq<PageTable>,
    cpu0: CpuState,
    main0: KernelThread,
    a0: KernelThread,
    mem1: Seq<PageTable>,
    cpu1: CpuState,
    main1: KernelThread,
    a1: KernelThread,
    mem2: Seq<PageTable>,
    cpu2: CpuState,
    mem3: Seq<PageTable>,
    cpu3: CpuState,
    main3: KernelThread,
    a3: KernelThread,
)
    requires
        mm.ready(mem0),
        frames_ready(mm, mem0, cpu0, a0),
        switch_refusal(main0, a0) is None,
        cpu0.rsp > context::FRAME_BYTES,
        context::usable_address(cpu0.rip),
        switched(mm, mem0, cpu0, main0, a0, mem1, cpu1, main1, a1),
        switched(mm, mem2, cpu2, a1, main1, mem3, cpu3, a3, main3),
        context::frame_words(mm, mem3, cpu0.rsp - context::FRAME_BYTES) == context::frame_words(
            mm,
            mem1,
            cpu0.rsp - context::FRAME_BYTES,
        ),
    ensures
        switch_refusal(a1, main1) is None,
        main1.state == ThreadState::Ready,
        a1.state == ThreadState::Running,
        main3.state == ThreadState::Running,
        a3.state == ThreadState::Ready,
        main3.id == main0.id,
        cpu3 == cpu0,
{
    assert(context::writable_word(mm, mem0, cpu0.rsp - context::FRAME_BYTES, 0));
    lemma_switch_back(main0, main1, a1, cpu0);
    lemma_registers_back(mm, mem0, mem1, mem3, cpu0);
}

} // verus!
