use ventura::address_space::{
    current_asid, Activation, AddressSpace, AddressSpaceError, AsidState,
};
use ventura::context::{
    create_context, create_context_raw, switch_context, ContextError, ContextState, CpuState,
    ExecutionContext, KernelStack,
};
use ventura::ids::IdSource;
use ventura::memory::{init_from_uefi, PhysicalMemoryMap, EFI_CONVENTIONAL_MEMORY};
use ventura::paging::{read_word, translate, write_word, MemoryManager};
use ventura::pmm::{allocate_physical_page, PageAllocator, PhysPage};
use ventura::process::{
    active_process_count, register_process, Process, ProcessError, ProcessRegistry, ProcessState,
    MAX_PROCESSES,
};
use ventura::thread::{
    active_thread_count, register_thread, switch_threads, switch_to, KernelThread, SwitchError,
    ThreadError, ThreadIds, ThreadRegistry, ThreadState, MAX_THREADS,
};
use ventura::vmm::{PageTable, PageTableFlags, VirtAddr};

const TRAMPOLINE: u64 = 0x10_0000;

struct Machine {
    frames: Vec<PageTable>,
    mm: MemoryManager,
}

fn machine(pages: u64) -> Machine {
    let mut raw = vec![0u8; 48];
    raw[0..4].copy_from_slice(&EFI_CONVENTIONAL_MEMORY.to_le_bytes());
    raw[24..32].copy_from_slice(&pages.to_le_bytes());
    let mut map = PhysicalMemoryMap::new();
    init_from_uefi(&mut map, &raw, 48, 1);
    let mut pmm = PageAllocator::new();
    ventura::pmm::init(&mut pmm, &map);
    let mut frames = vec![PageTable::empty(); pages as usize];
    let mut mm = MemoryManager::new(pmm);
    ventura::kernel_space::init(&mut frames, &mut mm, &map);
    Machine { frames, mm }
}

fn drain(m: &mut Machine, left: usize) {
    while ventura::pmm::stats(&m.mm.pmm).free_pages > left {
        allocate_physical_page(&mut m.mm.pmm).unwrap();
    }
}

fn free_pages(m: &Machine) -> usize {
    ventura::pmm::stats(&m.mm.pmm).free_pages
}

fn cpu(rsp: u64) -> CpuState {
    CpuState {
        rip: 0x30_0000,
        rsp,
        rflags: 0x246,
        rbx: 1,
        rbp: 2,
        r12: 3,
        r13: 4,
        r14: 5,
        r15: 6,
        rdi: 7,
        rsi: 8,
    }
}

#[test]
fn spaces_share_the_kernel_and_nothing_else() {
    let mut m = machine(512);
    let mut asids = AsidState::new();
    let mut a = AddressSpace::new(&mut m.frames, &mut m.mm, &mut asids).unwrap();
    let b = AddressSpace::new(&mut m.frames, &mut m.mm, &mut asids).unwrap();
    assert_eq!(a.id, 1);
    assert_eq!(b.id, 2);
    assert_ne!(a.root_page, b.root_page);
    assert!(a.owns_root);
    let virt = VirtAddr(0x0000_4000_0000_0000);
    let flags = PageTableFlags::kernel_data();
    let page = allocate_physical_page(&mut m.mm.pmm).unwrap();
    assert_eq!(a.map_page(&mut m.frames, &mut m.mm, virt, page, flags), Ok(()));
    assert_eq!(a.translate(&m.frames, &m.mm, virt), Some((page, flags)));
    assert_eq!(b.translate(&m.frames, &m.mm, virt), None);
    assert_eq!(translate(&m.frames, &m.mm, m.mm.root, virt), None);
    assert!(a.translate(&m.frames, &m.mm, VirtAddr(0x5000)).is_some());
    assert!(b.translate(&m.frames, &m.mm, VirtAddr(0xFEE0_0000)).is_some());
    assert_eq!(a.unmap_page(&mut m.frames, &m.mm, virt), Ok(page));
    assert_eq!(a.translate(&m.frames, &m.mm, virt), None);
    let root = a.root_page;
    a.destroy(&m.frames, &mut m.mm);
    assert_eq!(a.root_page, PhysPage(0));
    assert_eq!(allocate_physical_page(&mut m.mm.pmm), Some(root));
}

#[test]
fn a_space_needs_a_frame() {
    let mut m = machine(64);
    let mut asids = AsidState::new();
    drain(&mut m, 0);
    let r = AddressSpace::new(&mut m.frames, &mut m.mm, &mut asids);
    assert!(matches!(r, Err(AddressSpaceError::RootPageAllocationFailed)));
    assert_eq!(asids.ids.next, 1);
}

#[test]
fn spaces_are_activated() {
    let mut m = machine(64);
    let mut asids = AsidState::new();
    let a = AddressSpace::new(&mut m.frames, &mut m.mm, &mut asids).unwrap();
    let kernel = AddressSpace::bootstrap(&m.mm);
    assert_eq!(current_asid(&asids), 0);
    assert_eq!(a.activate(m.mm.root.0, &mut asids), Activation::Load(a.root_page.0));
    assert_eq!(current_asid(&asids), 1);
    assert_eq!(a.activate(a.root_page.0, &mut asids), Activation::Keep);
    let none = AddressSpace { id: 9, root_page: PhysPage(0), owns_root: false };
    assert_eq!(none.activate(0, &mut asids), Activation::Refused);
    assert_eq!(current_asid(&asids), 1);
    assert_eq!(kernel.activate(a.root_page.0, &mut asids), Activation::Load(m.mm.root.0));
    assert_eq!(current_asid(&asids), 0);
}

#[test]
fn spaces_pass_their_self_test() {
    let mut m = machine(512);
    let mut asids = AsidState::new();
    assert_eq!(
        ventura::address_space::run_self_tests(&mut m.frames, &mut m.mm, &mut asids),
        Ok(())
    );
}

#[test]
fn a_new_context_starts_at_the_trampoline() {
    let mut m = machine(512);
    let mut ids = IdSource::new();
    let stack = KernelStack::allocate(&mut m.frames, &mut m.mm).unwrap();
    assert_eq!(stack.top() - stack.bottom(), 0x4000);
    assert_eq!(
        create_context_raw(&mut m.frames, &m.mm, &mut ids, 0, &stack, TRAMPOLINE),
        Err(ContextError::InvalidEntryPoint)
    );
    assert_eq!(
        create_context_raw(
            &mut m.frames,
            &m.mm,
            &mut ids,
            0xDEAD_0000_0000_0000,
            &stack,
            TRAMPOLINE
        ),
        Err(ContextError::InvalidEntryPoint)
    );
    let ctx = create_context(&mut m.frames, &m.mm, &mut ids, 0x40_0000, &stack, TRAMPOLINE).unwrap();
    assert_eq!(ctx.rsp, stack.top() - 80);
    assert_eq!(ctx.state, ContextState::Initialized);
    assert_eq!(ctx.id, 1);
    let root = m.mm.root;
    let word = |i: u64| read_word(&m.frames, &m.mm, root, VirtAddr(ctx.rsp + 8 * i));
    assert_eq!(word(4), 1);
    assert_eq!(word(5), 0x40_0000);
    assert_eq!(word(8), 0x202);
    assert_eq!(word(9), TRAMPOLINE);
}

#[test]
fn a_switch_and_back_brings_the_registers_back() {
    let mut m = machine(512);
    let mut ids = IdSource::new();
    let here = KernelStack::allocate(&mut m.frames, &mut m.mm).unwrap();
    let there = KernelStack::allocate(&mut m.frames, &mut m.mm).unwrap();
    let mut next =
        create_context(&mut m.frames, &m.mm, &mut ids, 0x40_0000, &there, TRAMPOLINE).unwrap();
    let mut main = ExecutionContext::empty();
    let start = cpu(here.top() - 16);
    let mut now = start;
    switch_context(&mut m.frames, &m.mm, &mut now, &mut main, &mut next);
    assert_eq!(now.rip, TRAMPOLINE);
    assert_eq!(now.rsp, there.top());
    assert_eq!(now.r12, 0x40_0000);
    assert_eq!(now.r13, 1);
    assert_eq!(main.state, ContextState::Suspended);
    assert_eq!(main.rip, 0x30_0000);
    assert_eq!(next.state, ContextState::Running);
    switch_context(&mut m.frames, &m.mm, &mut now, &mut next, &mut main);
    assert_eq!(now, start);
}

#[test]
fn contexts_pass_their_self_test() {
    let mut m = machine(512);
    let mut ids = IdSource::new();
    assert_eq!(
        ventura::context_check::run_self_tests(&mut m.frames, &mut m.mm, &mut ids, TRAMPOLINE),
        Ok(())
    );
    let mut m = machine(64);
    drain(&mut m, 3);
    assert_eq!(
        ventura::context_check::run_self_tests(&mut m.frames, &mut m.mm, &mut ids, TRAMPOLINE),
        Err("Failed to allocate dummy stack!")
    );
}

#[test]
fn threads_are_made_and_switched() {
    let mut m = machine(512);
    let mut ids = ThreadIds::new();
    let bad = KernelThread::new(&mut m.frames, &mut m.mm, &mut ids, "bad", 0, 0, TRAMPOLINE);
    assert!(matches!(bad, Err(ThreadError::InvalidEntryPoint)));
    let mut a =
        KernelThread::new(&mut m.frames, &mut m.mm, &mut ids, "a", 0x40_0000, 5, TRAMPOLINE).unwrap();
    let mut b =
        KernelThread::new(&mut m.frames, &mut m.mm, &mut ids, "b", 0x50_0000, 6, TRAMPOLINE).unwrap();
    assert_eq!((a.id, b.id), (1, 2));
    assert_eq!(a.state, ThreadState::Created);
    assert_eq!(a.state.name(), "CREATED");
    let mut now = cpu(a.stack.top());
    let start = now;
    assert_eq!(switch_threads(&mut m.frames, &m.mm, &mut now, &mut a, &mut b), Ok(()));
    assert_eq!((a.state, b.state), (ThreadState::Ready, ThreadState::Running));
    assert_eq!(now.r12, 0x50_0000);
    assert_eq!(switch_threads(&mut m.frames, &m.mm, &mut now, &mut b, &mut a), Ok(()));
    assert_eq!(now, start);
}

#[test]
fn refused_switches() {
    let mut m = machine(512);
    let mut ids = ThreadIds::new();
    let mut a =
        KernelThread::new(&mut m.frames, &mut m.mm, &mut ids, "a", 0x40_0000, 0, TRAMPOLINE).unwrap();
    let mut main = KernelThread::bootstrap();
    let mut same = KernelThread::bootstrap();
    assert_eq!(switch_to(&mut main, &mut same), Err(SwitchError::SameThread));
    assert_eq!(switch_to(&mut a, &mut main), Err(SwitchError::InvalidStackPointer));
    main.context.rsp = 0x5000;
    assert_eq!(switch_to(&mut a, &mut main), Err(SwitchError::InvalidInstructionPointer));
    main.context.rip = 0x6000;
    assert_eq!(switch_to(&mut a, &mut main), Ok(()));
    main.state = ThreadState::Terminated;
    assert_eq!(switch_to(&mut a, &mut main), Err(SwitchError::TargetTerminated));
}

#[test]
fn threads_need_memory_and_a_place_in_the_registry() {
    let mut m = machine(64);
    let mut ids = ThreadIds::new();
    drain(&mut m, 3);
    let r = KernelThread::new(&mut m.frames, &mut m.mm, &mut ids, "a", 0x40_0000, 0, TRAMPOLINE);
    assert!(matches!(r, Err(ThreadError::StackAllocationFailed)));
    let mut registry = ThreadRegistry::new();
    for _ in 0..MAX_THREADS {
        assert_eq!(register_thread(&mut registry, KernelThread::bootstrap()), Ok(0));
    }
    assert_eq!(
        register_thread(&mut registry, KernelThread::bootstrap()),
        Err(ThreadError::RegistryFull)
    );
    assert_eq!(active_thread_count(&registry), MAX_THREADS);
}

#[test]
fn threads_pass_their_self_test() {
    let mut m = machine(512);
    let mut ids = ThreadIds::new();
    let boot = KernelStack::allocate(&mut m.frames, &mut m.mm).unwrap();
    assert_eq!(
        ventura::thread_check::run_self_tests(
            &mut m.frames,
            &mut m.mm,
            &mut ids,
            TRAMPOLINE,
            &boot
        ),
        Ok(())
    );
}

#[test]
fn processes_own_their_threads() {
    let mut m = machine(512);
    let mut asids = AsidState::new();
    let mut pids = IdSource::new();
    let mut ids = ThreadIds::new();
    let mut p = Process::new(&mut m.frames, &mut m.mm, &mut asids, &mut pids, "p");
    let q = Process::new(&mut m.frames, &mut m.mm, &mut asids, &mut pids, "q");
    assert_eq!((p.id, q.id), (1, 2));
    for i in 0..2 {
        assert_eq!(
            p.create_thread(&mut m.frames, &mut m.mm, &mut ids, "t", 0x40_0000, i, TRAMPOLINE),
            Ok(i as u64 + 1)
        );
    }
    assert!(p.threads.iter().all(|t| t.process_id == 1));
    assert_eq!(p.verify(), Ok(()));
    assert!(p.get_thread_mut(2).is_none());
    assert!(p.get_two_threads_mut(1, 1).is_none());
    let (x, y) = p.get_two_threads_mut(1, 0).unwrap();
    assert_eq!((x.id, y.id), (2, 1));
    x.process_id = 7;
    assert_eq!(p.verify(), Err(ProcessError::InvariantViolation));
    p.threads[1].process_id = 1;
    p.threads[1].id = 1;
    assert_eq!(p.verify(), Err(ProcessError::InvariantViolation));
    p.threads[1].id = 2;
    p.terminate();
    assert_eq!(p.state, ProcessState::Terminated);
    assert!(p.threads.iter().all(|t| t.state == ThreadState::Terminated));
    assert_eq!(p.verify(), Ok(()));
    assert_eq!(
        p.create_thread(&mut m.frames, &mut m.mm, &mut ids, "t", 0x40_0000, 0, TRAMPOLINE),
        Err(ProcessError::ProcessTerminated)
    );
    p.threads[0].state = ThreadState::Running;
    assert_eq!(p.verify(), Err(ProcessError::InvariantViolation));
    let mut q = q;
    assert_eq!(
        q.create_thread(&mut m.frames, &mut m.mm, &mut ids, "t", 0, 0, TRAMPOLINE),
        Err(ProcessError::ThreadCreationFailed(ThreadError::InvalidEntryPoint))
    );
    q.id = 0;
    assert_eq!(q.verify(), Err(ProcessError::InvariantViolation));
}

#[test]
fn the_kernel_has_a_process() {
    let m = machine(64);
    let p = Process::bootstrap(&m.mm);
    assert_eq!(p.id, 0);
    assert_eq!(p.threads.len(), 1);
    assert_eq!(p.verify(), Ok(()));
    let mut registry = ProcessRegistry::new();
    for _ in 0..MAX_PROCESSES {
        assert_eq!(register_process(&mut registry, Process::bootstrap(&m.mm)), Ok(0));
    }
    assert_eq!(register_process(&mut registry, p), Err(ProcessError::RegistryFull));
    assert_eq!(active_process_count(&registry), MAX_PROCESSES);
}

#[test]
fn processes_pass_their_self_test() {
    let mut m = machine(1024);
    let mut asids = AsidState::new();
    let mut pids = IdSource::new();
    let mut ids = ThreadIds::new();
    let cr3 = m.mm.root.0;
    let boot = KernelStack::allocate(&mut m.frames, &mut m.mm).unwrap();
    assert_eq!(
        ventura::process_check::run_self_tests(
            &mut m.frames,
            &mut m.mm,
            &mut asids,
            &mut pids,
            &mut ids,
            TRAMPOLINE,
            cr3,
            &boot
        ),
        Ok(())
    );
    assert_eq!(current_asid(&asids), 0);
}

#[test]
fn numbers_are_handed_out_in_turn() {
    let mut ids = IdSource::new();
    assert_eq!((ids.take(), ids.take(), ids.take()), (1, 2, 3));
    ids.next = u64::MAX;
    assert_eq!((ids.take(), ids.take()), (u64::MAX, 0));
}

#[test]
fn the_self_test_of_spaces_names_what_it_lacks() {
    let cases = [
        (0, Err("Failed to create AddressSpace A")),
        (1, Err("Failed to create AddressSpace B")),
        (2, Err("failed frame A")),
        (3, Err("failed frame B")),
        (6, Err("map AS A failed")),
        (7, Err("map AS B failed")),
        (9, Err("map AS B failed")),
        (10, Ok(())),
    ];
    for (free, outcome) in cases {
        let mut m = machine(128);
        drain(&mut m, free);
        let mut asids = AsidState::new();
        assert_eq!(
            ventura::address_space::run_self_tests(&mut m.frames, &mut m.mm, &mut asids),
            outcome
        );
        if outcome.is_ok() {
            assert_eq!(ventura::pmm::stats(&m.mm.pmm).free_pages, free - 6);
        }
    }
}

#[test]
fn the_self_test_of_contexts_names_the_stack_it_lacks() {
    let cases = [
        (6, Err("Failed to allocate dummy stack!")),
        (7, Err("failed stack A allocation")),
        (11, Err("failed stack B allocation")),
        (15, Ok(())),
    ];
    for (free, outcome) in cases {
        let mut m = machine(128);
        drain(&mut m, free);
        let mut ids = IdSource::new();
        assert_eq!(
            ventura::context_check::run_self_tests(&mut m.frames, &mut m.mm, &mut ids, TRAMPOLINE),
            outcome
        );
    }
}

#[test]
fn the_self_test_of_threads_names_the_thread_it_lacks() {
    let cases = [
        (3, Err("failed thread A")),
        (7, Err("failed thread B")),
        (11, Err("failed thread loop A")),
        (15, Err("failed thread loop B")),
        (16, Ok(())),
    ];
    for (free, outcome) in cases {
        let mut m = machine(128);
        let boot = KernelStack::allocate(&mut m.frames, &mut m.mm).unwrap();
        drain(&mut m, free);
        let mut ids = ThreadIds::new();
        assert_eq!(
            ventura::thread_check::run_self_tests(
                &mut m.frames,
                &mut m.mm,
                &mut ids,
                TRAMPOLINE,
                &boot
            ),
            outcome
        );
        if outcome.is_ok() {
            assert_eq!(free_pages(&m), 0);
        }
    }
}

#[test]
fn the_self_test_of_processes_names_what_it_lacks() {
    let cases = [
        (2, Err("AddressSpace creation failed")),
        (3, Err("Expected 2 threads in Process A")),
        (10, Err("Expected 2 threads in Process A")),
        (11, Err("AddressSpace creation failed")),
        (12, Err("AddressSpace creation failed")),
        (13, Err("Process thread creation failed")),
        (20, Err("Process thread creation failed")),
        (21, Ok(())),
    ];
    for (free, outcome) in cases {
        let mut m = machine(128);
        let boot = KernelStack::allocate(&mut m.frames, &mut m.mm).unwrap();
        drain(&mut m, free);
        let mut asids = AsidState::new();
        let mut pids = IdSource::new();
        let mut ids = ThreadIds::new();
        let cr3 = m.mm.root.0;
        assert_eq!(
            ventura::process_check::run_self_tests(
                &mut m.frames,
                &mut m.mm,
                &mut asids,
                &mut pids,
                &mut ids,
                TRAMPOLINE,
                cr3,
                &boot
            ),
            outcome
        );
    }
}

#[test]
fn the_self_test_of_contexts_gives_its_stacks_back() {
    let mut m = machine(512);
    let mut ids = IdSource::new();
    let first = KernelStack::allocate(&mut m.frames, &mut m.mm).unwrap();
    let word = VirtAddr::new(first.bottom() + 8);
    let root = m.mm.root;
    write_word(&mut m.frames, &m.mm, root, word, 0x1234);
    let before = free_pages(&m);
    assert_eq!(
        ventura::context_check::run_self_tests(&mut m.frames, &mut m.mm, &mut ids, TRAMPOLINE),
        Ok(())
    );
    assert_eq!(free_pages(&m), before);
    assert_eq!(read_word(&m.frames, &m.mm, root, word), 0x1234);
}

#[test]
fn a_stack_that_is_refused_leaves_no_trace() {
    let mut m = machine(128);
    drain(&mut m, 3);
    let next = m.mm.vmm.next_dynamic_addr;
    assert!(KernelStack::allocate(&mut m.frames, &mut m.mm).is_err());
    assert_eq!(free_pages(&m), 3);
    assert_eq!(m.mm.vmm.next_dynamic_addr, next);
    let mut ids = ThreadIds::new();
    let bad = KernelThread::new(&mut m.frames, &mut m.mm, &mut ids, "t", 0x40_0000, 0, TRAMPOLINE);
    assert!(matches!(bad, Err(ThreadError::StackAllocationFailed)));
    assert_eq!(free_pages(&m), 3);
    assert_eq!(ids.threads.next, 1);
}

#[test]
fn a_context_starts_below_the_rounded_top_of_its_stack() {
    let mut m = machine(512);
    let mut ids = IdSource::new();
    let whole = KernelStack::allocate(&mut m.frames, &mut m.mm).unwrap();
    let top = whole.top();
    let mut stack = whole;
    stack.region.size_bytes -= 8;
    let c = create_context_raw(&mut m.frames, &m.mm, &mut ids, 0x40_0000, &stack, TRAMPOLINE)
        .unwrap();
    assert_eq!(c.rsp, top - 16 - 80);
    assert_eq!(c.rip, TRAMPOLINE);
}

#[test]
fn a_thread_that_was_left_can_be_gone_back_to() {
    let mut m = machine(512);
    let mut ids = ThreadIds::new();
    let mut a =
        KernelThread::new(&mut m.frames, &mut m.mm, &mut ids, "a", 0x40_0000, 0, TRAMPOLINE).unwrap();
    let mut b =
        KernelThread::new(&mut m.frames, &mut m.mm, &mut ids, "b", 0x41_0000, 0, TRAMPOLINE).unwrap();
    assert_ne!(a.id, b.id);
    assert_eq!(switch_to(&mut a, &mut b), Ok(()));
    assert_eq!((a.state, b.state), (ThreadState::Ready, ThreadState::Running));
    assert_eq!(switch_to(&mut b, &mut a), Ok(()));
    assert_eq!((a.state, b.state), (ThreadState::Running, ThreadState::Ready));
}

#[test]
fn processes_stay_consistent_with_each_thread() {
    let mut m = machine(512);
    let mut asids = AsidState::new();
    let mut pids = IdSource::new();
    let mut ids = ThreadIds::new();
    let mut p = Process::new(&mut m.frames, &mut m.mm, &mut asids, &mut pids, "p");
    let q = Process::new(&mut m.frames, &mut m.mm, &mut asids, &mut pids, "q");
    assert_eq!((p.id, q.id), (1, 2));
    assert_ne!(p.address_space.id, q.address_space.id);
    assert_ne!(p.address_space.id, 0);
    assert_eq!(q.verify(), Ok(()));
    for i in 1..4 {
        let made =
            p.create_thread(&mut m.frames, &mut m.mm, &mut ids, "t", 0x40_0000, 0, TRAMPOLINE);
        assert_eq!(made, Ok(i));
        assert_eq!(p.verify(), Ok(()));
    }
}

#[test]
fn the_boot_thread_can_be_gone_back_to_on_any_stack() {
    let mut m = machine(512);
    let mut ids = ThreadIds::new();
    let mut main = KernelThread::bootstrap();
    let mut a =
        KernelThread::new(&mut m.frames, &mut m.mm, &mut ids, "a", 0x40_0000, 0, TRAMPOLINE).unwrap();
    let page = allocate_physical_page(&mut m.mm.pmm).unwrap();
    let start = cpu(page.addr() + 4096);
    let mut now = start;
    assert_eq!(switch_threads(&mut m.frames, &m.mm, &mut now, &mut main, &mut a), Ok(()));
    assert_eq!((main.state, a.state), (ThreadState::Ready, ThreadState::Running));
    assert_eq!(main.context.rsp, page.addr() + 4096 - 80);
    assert_eq!(now.r12, 0x40_0000);
    assert_eq!(switch_threads(&mut m.frames, &m.mm, &mut now, &mut a, &mut main), Ok(()));
    assert_eq!((main.state, a.state), (ThreadState::Running, ThreadState::Ready));
    assert_eq!(now, start);
}

#[test]
fn a_switch_saves_over_two_pages() {
    let mut m = machine(512);
    let mut ids = IdSource::new();
    let here = KernelStack::allocate(&mut m.frames, &mut m.mm).unwrap();
    let there = KernelStack::allocate(&mut m.frames, &mut m.mm).unwrap();
    let mut next =
        create_context(&mut m.frames, &m.mm, &mut ids, 0x40_0000, &there, TRAMPOLINE).unwrap();
    let mut main = ExecutionContext::empty();
    let start = cpu(here.bottom() + 4096 + 40);
    let mut now = start;
    switch_context(&mut m.frames, &m.mm, &mut now, &mut main, &mut next);
    assert_eq!(main.rsp, here.bottom() + 4096 - 40);
    switch_context(&mut m.frames, &m.mm, &mut now, &mut next, &mut main);
    assert_eq!(now, start);
}

#[test]
fn self_tests_take_their_numbers() {
    let mut m = machine(512);
    let mut asids = AsidState::new();
    let mut pids = IdSource::new();
    let mut ids = ThreadIds::new();
    let boot = KernelStack::allocate(&mut m.frames, &mut m.mm).unwrap();
    let next = m.mm.vmm.next_dynamic_addr;
    assert_eq!(
        ventura::thread_check::run_self_tests(
            &mut m.frames,
            &mut m.mm,
            &mut ids,
            TRAMPOLINE,
            &boot
        ),
        Ok(())
    );
    assert_eq!((ids.threads.next, ids.contexts.next), (5, 5));
    assert_eq!(m.mm.vmm.next_dynamic_addr, next + 4 * 0x4000);
    let cr3 = m.mm.root.0;
    assert_eq!(
        ventura::process_check::run_self_tests(
            &mut m.frames,
            &mut m.mm,
            &mut asids,
            &mut pids,
            &mut ids,
            TRAMPOLINE,
            cr3,
            &boot
        ),
        Ok(())
    );
    assert_eq!((ids.threads.next, ids.contexts.next), (9, 9));
    assert_eq!((pids.next, asids.ids.next), (6, 6));
}

#[test]
fn a_self_test_that_fails_keeps_what_it_made() {
    let mut m = machine(128);
    let boot = KernelStack::allocate(&mut m.frames, &mut m.mm).unwrap();
    drain(&mut m, 10);
    let mut asids = AsidState::new();
    let mut pids = IdSource::new();
    let mut ids = ThreadIds::new();
    let next = m.mm.vmm.next_dynamic_addr;
    let cr3 = m.mm.root.0;
    assert_eq!(
        ventura::process_check::run_self_tests(
            &mut m.frames,
            &mut m.mm,
            &mut asids,
            &mut pids,
            &mut ids,
            TRAMPOLINE,
            cr3,
            &boot
        ),
        Err("Expected 2 threads in Process A")
    );
    assert_eq!((pids.next, asids.ids.next), (4, 4));
    assert_eq!((ids.threads.next, ids.contexts.next), (2, 2));
    assert_eq!(m.mm.vmm.next_dynamic_addr, next + 0x4000);
    let mut m = machine(64);
    drain(&mut m, 3);
    let mut asids = AsidState::new();
    assert_eq!(
        ventura::address_space::run_self_tests(&mut m.frames, &mut m.mm, &mut asids),
        Err("failed frame B")
    );
    assert_eq!((asids.ids.next, asids.current, free_pages(&m)), (3, 0, 0));
}
