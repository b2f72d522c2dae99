//! Processes: an address space and the threads in it.

use vstd::prelude::*;
use crate::address_space;
use crate::address_space::{AddressSpace, AsidState};
use crate::ids::IdSource;
use crate::paging::MemoryManager;
use crate::pmm::PhysPage;
use crate::thread;
use crate::thread::{KernelThread, ThreadError, ThreadIds, ThreadState};
use crate::vmm::PageTable;

verus! {

/// The most processes that can be registered.
pub const MAX_PROCESSES: usize = 16;

#[derive(Copy, Clone, Debug, PartialEq, Eq, Structural)]
pub enum ProcessState {
    Created,
    Ready,
    Running,
    Terminating,
    Terminated,
}

impl ProcessState {
    pub open spec fn label(self) -> Seq<char> {
        match self {
            ProcessState::Created => "CREATED"@,
            ProcessState::Ready => "READY"@,
            ProcessState::Running => "RUNNING"@,
            ProcessState::Terminating => "TERMINATING"@,
            ProcessState::Terminated => "TERMINATED"@,
        }
    }

    pub fn name(self) -> (r: &'static str)
        ensures
            r@ == self.label(),
            self == ProcessState::Created ==> r@ == "CREATED"@,
            self == ProcessState::Ready ==> r@ == "READY"@,
            self == ProcessState::Running ==> r@ == "RUNNING"@,
            self == ProcessState::Terminating ==> r@ == "TERMINATING"@,
            self == ProcessState::Terminated ==> r@ == "TERMINATED"@,
    {
        match self {
            ProcessState::Created => "CREATED",
            ProcessState::Ready => "READY",
            ProcessState::Running => "RUNNING",
            ProcessState::Terminating => "TERMINATING",
            ProcessState::Terminated => "TERMINATED",
        }
    }
}

#[derive(Copy, Clone, Debug, PartialEq, Eq, Structural)]
pub enum ProcessError {
    InvalidPid,
    RegistryFull,
    ThreadCreationFailed(ThreadError),
    AddressSpaceCreationFailed,
    ProcessTerminated,
    InvariantViolation,
}

#[derive(Debug)]
pub struct Process {
    pub id: u64,
    pub name: &'static str,
    pub state: ProcessState,
    pub threads: Vec<KernelThread>,
    pub address_space: AddressSpace,
}

/// Whether two strings are the same.
fn same_text(a: &str, b: &str) -> (r: bool)
    ensures
        r == (a@ == b@),
{
    let n: usize = a.unicode_len();
    if n != b.unicode_len() {
        return false;
    }
    let mut i: usize = 0;
    while i < n
        invariant
            n == a@.len(),
            n == b@.len(),
            i <= n,
            forall|k: int| 0 <= k < i ==> a@[k] == b@[k],
        decreases n - i,
    {
        if a.get_char(i) != b.get_char(i) {
            return false;
        }
        i = i + 1;
    }
    assert(a@ =~= b@);
    true
}

/// The process `r` named `name` was made, without threads, with the next numbers of
/// `pids` and `asids`, in an address space of its own that was made for it.
pub open spec fn process_created(
    mm0: MemoryManager,
    mem0: Seq<PageTable>,
    mm1: MemoryManager,
    mem1: Seq<PageTable>,
    asids: AsidState,
    pids: IdSource,
    name: &'static str,
    r: Process,
) -> bool {
    &&& r.id == pids.next
    &&& r.name == name
    &&& r.state == ProcessState::Created
    &&& r.threads@ == Seq::<KernelThread>::empty()
    &&& r.address_space.id == asids.ids.next
    &&& r.address_space.owns_root
    &&& r.address_space.root_page.0 > 0
    &&& mm1.has_root(r.address_space.root_page)
    &&& address_space::space_created(
        mm0,
        mem0,
        mm1,
        mem1,
        r.address_space.root_page.0 as int / 4096,
    )
}

impl Process {
    /// Makes a process without threads, in an address space of its own.
    pub fn new(
        frames: &mut [PageTable],
        mm: &mut MemoryManager,
        asids: &mut AsidState,
        pids: &mut IdSource,
        name: &'static str,
    ) -> (r: Self)
        requires
            old(mm).ready(old(frames)@),
            old(mm).pmm@.free_count() > 0,
        ensures
            final(mm).ready(final(frames)@),
            process_created(
                *old(mm),
                old(frames)@,
                *final(mm),
                final(frames)@,
                *old(asids),
                *old(pids),
                name,
                r,
            ),
            r.id == old(pids).next,
            r.name == name,
            r.state == ProcessState::Created,
            r.threads@.len() == 0,
            r.address_space.id == old(asids).ids.next,
            r.address_space.owns_root,
            final(pids).next == old(pids).after(1),
            final(asids).ids.next == old(asids).ids.after(1),
            final(asids).current == old(asids).current,
    {
        let address_space = match AddressSpace::new(frames, mm, asids) {
            Ok(space) => space,
            Err(_) => AddressSpace { id: 0, root_page: PhysPage::null(), owns_root: false },
        };
        Self::within(pids, name, address_space)
    }

    /// A process without threads in the given address space.
    pub(crate) fn within(
        pids: &mut IdSource,
        name: &'static str,
        address_space: AddressSpace,
    ) -> (r: Self)
        ensures
            r.id == old(pids).next,
            final(pids).next == old(pids).after(1),
            r.name == name,
            r.state == ProcessState::Created,
            r.threads@ == Seq::<KernelThread>::empty(),
            r.address_space == address_space,
    {
        let id: u64 = pids.take();
        Self { id, name, state: ProcessState::Created, threads: Vec::new(), address_space }
    }

    /// The process that the kernel boots in, with the thread that it boots on.
    pub fn bootstrap(mm: &MemoryManager) -> (r: Self)
        ensures
            r.id == 0,
            r.name == "kernel_bootstrap",
            r.state == ProcessState::Running,
            r.threads@.len() == 1,
            r.threads@[0].is_bootstrap(),
            r.address_space.id == 0,
            r.address_space.root_page == mm.root,
            !r.address_space.owns_root,
    {
        let mut threads: Vec<KernelThread> = Vec::new();
        threads.push(KernelThread::bootstrap());
        Self {
            id: 0,
            name: "kernel_bootstrap",
            state: ProcessState::Running,
            threads,
            address_space: AddressSpace::bootstrap(mm),
        }
    }

    /// Makes a thread of this process and says its number.
    pub fn create_thread(
        &mut self,
        frames: &mut [PageTable],
        mm: &mut MemoryManager,
        ids: &mut ThreadIds,
        name: &'static str,
        entry: u64,
        arg: usize,
        trampoline: u64,
    ) -> (r: Result<u64, ProcessError>)
        requires
            old(mm).ready(old(frames)@),
        ensures
            final(mm).ready(final(frames)@),
            final(self).id == old(self).id,
            final(self).name == old(self).name,
            final(self).state == old(self).state,
            final(self).address_space == old(self).address_space,
            if old(self).state == ProcessState::Terminated {
                &&& r == Err::<u64, ProcessError>(ProcessError::ProcessTerminated)
                &&& final(self).threads@ == old(self).threads@
                &&& *final(ids) == *old(ids)
                &&& *final(mm) == *old(mm)
                &&& final(frames)@ == old(frames)@
            } else {
                match thread::thread_refusal(*old(mm), old(frames)@, entry) {
                    Some(e) => {
                        &&& r == Err::<u64, ProcessError>(ProcessError::ThreadCreationFailed(e))
                        &&& final(self).threads@ == old(self).threads@
                        &&& *final(ids) == *old(ids)
                        &&& thread::thread_refused(
                            *old(mm),
                            old(frames)@,
                            *final(mm),
                            final(frames)@,
                            entry,
                        )
                    },
                    None => {
                        let made = final(self).threads@.last();
                        &&& r == Ok::<u64, ProcessError>(old(ids).threads.next)
                        &&& final(self).threads@ == old(self).threads@.push(made)
                        &&& made.process_id == old(self).id
                        &&& thread::thread_made(
                            *old(mm),
                            old(frames)@,
                            *final(mm),
                            final(frames)@,
                            *old(ids),
                            KernelThread { process_id: 0, ..made },
                            name,
                            entry,
                            arg,
                            trampoline,
                        )
                        &&& final(ids).contexts.next == old(ids).contexts.after(1)
                        &&& final(ids).threads.next == old(ids).threads.after(1)
                    },
                }
            },
    {
        if self.state == ProcessState::Terminated {
            return Err(ProcessError::ProcessTerminated);
        }
        let mut thread = match KernelThread::new(frames, mm, ids, name, entry, arg, trampoline) {
            Ok(thread) => thread,
            Err(e) => return Err(ProcessError::ThreadCreationFailed(e)),
        };
        let ghost made = thread;
        thread.process_id = self.id;
        let tid: u64 = thread.id;
        let ghost before = self.threads@;
        self.threads.push(thread);
        proof {
            assert(self.threads@.last() == (KernelThread { process_id: self.id, ..made }));
            assert((KernelThread { process_id: 0, ..self.threads@.last() }) == made);
        }
        Ok(tid)
    }

    /// The thread at `index`.
    pub fn get_thread_mut(&mut self, index: usize) -> (r: Option<&mut KernelThread>)
        ensures
            match r {
                Some(t) => {
                    &&& index < old(self).threads@.len()
                    &&& *t == old(self).threads@[index as int]
                    &&& final(self).threads@ == old(self).threads@.update(index as int, *final(t))
                },
                None => {
                    &&& index >= old(self).threads@.len()
                    &&& final(self).threads@ == old(self).threads@
                },
            },
            final(self).id == old(self).id,
            final(self).name == old(self).name,
            final(self).state == old(self).state,
            final(self).address_space == old(self).address_space,
    {
        if index < self.threads.len() {
            Some(&mut self.threads[index])
        } else {
            None
        }
    }

    /// The threads at two different indices.
    pub fn get_two_threads_mut(&mut self, idx1: usize, idx2: usize) -> (r: Option<
        (&mut KernelThread, &mut KernelThread),
    >)
        ensures
            match r {
                Some((t1, t2)) => {
                    &&& idx1 != idx2
                    &&& idx1 < old(self).threads@.len()
                    &&& idx2 < old(self).threads@.len()
                    &&& *t1 == old(self).threads@[idx1 as int]
                    &&& *t2 == old(self).threads@[idx2 as int]
                    &&& final(self).threads@ == old(self).threads@.update(
                        idx1 as int,
                        *final(t1),
                    ).update(idx2 as int, *final(t2))
                },
                None => {
                    &&& idx1 == idx2 || idx1 >= old(self).threads@.len() || idx2
                        >= old(self).threads@.len()
                    &&& final(self).threads@ == old(self).threads@
                },
            },
            final(self).id == old(self).id,
            final(self).name == old(self).name,
            final(self).state == old(self).state,
            final(self).address_space == old(self).address_space,
    {
        if idx1 == idx2 || idx1 >= self.threads.len() || idx2 >= self.threads.len() {
            return None;
        }
        if idx1 < idx2 {
            let (first, second) = self.threads.as_mut_slice().split_at_mut(idx2);
            Some((&mut first[idx1], &mut second[0]))
        } else {
            let (first, second) = self.threads.as_mut_slice().split_at_mut(idx1);
            Some((&mut second[0], &mut first[idx2]))
        }
    }
}

/// The numbers of the threads `ts` differ.
pub open spec fn distinct_ids(ts: Seq<KernelThread>) -> bool {
    forall|i: int, j: int| 0 <= i < j < ts.len() ==> (#[trigger] ts[i]).id != (#[trigger] ts[j]).id
}

/// The threads `ts` belong to the process with number `id`.
pub open spec fn all_owned(ts: Seq<KernelThread>, id: u64) -> bool {
    forall|i: int| 0 <= i < ts.len() ==> (#[trigger] ts[i]).process_id == id
}

/// None of the threads `ts` runs.
pub open spec fn none_running(ts: Seq<KernelThread>) -> bool {
    forall|i: int| 0 <= i < ts.len() ==> (#[trigger] ts[i]).state != ThreadState::Running
}

impl Process {
    /// Process 0 is the kernel's own, nothing runs in a process that ended, and
    /// the threads belong to the process and have numbers of their own.
    pub open spec fn consistent(self) -> bool {
        &&& self.id == 0 ==> self.name@ == "kernel_bootstrap"@
        &&& self.state == ProcessState::Terminated ==> none_running(self.threads@)
        &&& all_owned(self.threads@, self.id)
        &&& distinct_ids(self.threads@)
    }

    /// Ends the process and all its threads.
    pub fn terminate(&mut self)
        ensures
            final(self).id == old(self).id,
            final(self).name == old(self).name,
            final(self).state == ProcessState::Terminated,
            final(self).address_space == old(self).address_space,
            final(self).threads@.len() == old(self).threads@.len(),
            forall|i: int|
                0 <= i < old(self).threads@.len() ==> #[trigger] final(self).threads@[i] == (
                KernelThread { state: ThreadState::Terminated, ..old(self).threads@[i] }),
    {
        self.state = ProcessState::Terminating;
        let ghost before = self.threads@;
        let mut i: usize = 0;
        while i < self.threads.len()
            invariant
                self.id == old(self).id,
                self.name == old(self).name,
                self.address_space == old(self).address_space,
                before == old(self).threads@,
                self.threads@.len() == before.len(),
                i <= before.len(),
                forall|k: int|
                    0 <= k < i ==> #[trigger] self.threads@[k] == (KernelThread {
                        state: ThreadState::Terminated,
                        ..before[k]
                    }),
                forall|k: int| i <= k < before.len() ==> #[trigger] self.threads@[k] == before[k],
            decreases before.len() - i,
        {
            self.threads[i].state = ThreadState::Terminated;
            i = i + 1;
        }
        self.state = ProcessState::Terminated;
    }

    /// Checks the process.
    pub fn verify(&self) -> (r: Result<(), ProcessError>)
        ensures
            r is Ok <==> {
                &&& self.id == 0 ==> self.name@ == "kernel_bootstrap"@
                &&& self.state == ProcessState::Terminated ==> forall|i: int|
                    0 <= i < self.threads@.len() ==> (#[trigger] self.threads@[i]).state
                        != ThreadState::Running
                &&& forall|i: int|
                    0 <= i < self.threads@.len() ==> (#[trigger] self.threads@[i]).process_id
                        == self.id
                &&& forall|i: int, j: int|
                    0 <= i < j < self.threads@.len() ==> (#[trigger] self.threads@[i]).id != (
                    #[trigger] self.threads@[j]).id
            },
            r == if self.consistent() {
                Ok::<(), ProcessError>(())
            } else {
                Err(ProcessError::InvariantViolation)
            },
    {
        if self.id == 0 && !same_text(self.name, "kernel_bootstrap") {
            return Err(ProcessError::InvariantViolation);
        }
        let n: usize = self.threads.len();
        if self.state == ProcessState::Terminated {
            let mut i: usize = 0;
            while i < n
                invariant
                    n == self.threads@.len(),
                    self.state == ProcessState::Terminated,
                    i <= n,
                    forall|k: int|
                        0 <= k < i ==> (#[trigger] self.threads@[k]).state != ThreadState::Running,
                decreases n - i,
            {
                if self.threads[i].state == ThreadState::Running {
                    return Err(ProcessError::InvariantViolation);
                }
                i = i + 1;
            }
        }
        let mut i: usize = 0;
        while i < n
            invariant
                n == self.threads@.len(),
                i <= n,
                forall|k: int| 0 <= k < i ==> (#[trigger] self.threads@[k]).process_id == self.id,
            decreases n - i,
        {
            if self.threads[i].process_id != self.id {
                return Err(ProcessError::InvariantViolation);
            }
            i = i + 1;
        }
        let mut i: usize = 0;
        while i < n
            invariant
                n == self.threads@.len(),
                i <= n,
                forall|a: int, b: int|
                    0 <= a < i && a < b < n ==> (#[trigger] self.threads@[a]).id != (
                    #[trigger] self.threads@[b]).id,
            decreases n - i,
        {
            let mut j: usize = i + 1;
            while j < n
                invariant
                    n == self.threads@.len(),
                    i < n,
                    i < j <= n,
                    forall|b: int|
                        i < b < j ==> self.threads@[i as int].id != (#[trigger] self.threads@[b]).id,
                decreases n - j,
            {
                if self.threads[i].id == self.threads[j].id {
                    return Err(ProcessError::InvariantViolation);
                }
                j = j + 1;
            }
            i = i + 1;
        }
        Ok(())
    }
}

/// A process stays consistent when it gets a thread of its own with a number
/// that none of its threads has.
pub proof fn lemma_thread_keeps_consistent(before: Process, after: Process, made: KernelThread)
    requires
        before.consistent(),
        before.state != ProcessState::Terminated,
        after.id == before.id,
        after.name == before.name,
        after.state == before.state,
        after.threads@ == before.threads@.push(made),
        made.process_id == before.id,
        forall|i: int| 0 <= i < before.threads@.len() ==> (#[trigger] before.threads@[i]).id != made.id,
    ensures
        after.consistent(),
{
}

/// A consistent process is consistent after its end.
pub proof fn lemma_terminated_consistent(before: Process, after: Process)
    requires
        before.consistent(),
        after.id == before.id,
        after.name == before.name,
        after.threads@.len() == before.threads@.len(),
        forall|i: int|
            0 <= i < before.threads@.len() ==> #[trigger] after.threads@[i] == (KernelThread {
                state: ThreadState::Terminated,
                ..before.threads@[i]
            }),
    ensures
        after.consistent(),
{
    assert forall|i: int, j: int| 0 <= i < j < after.threads@.len() implies (
    #[trigger] after.threads@[i]).id != (#[trigger] after.threads@[j]).id by {
        assert(before.threads@[i].id != before.threads@[j].id);
    }
    assert forall|i: int| 0 <= i < after.threads@.len() implies (
    #[trigger] after.threads@[i]).process_id == after.id by {
        assert(before.threads@[i].process_id == before.id);
    }
}

/// Processes that are registered, oldest first.
pub struct ProcessRegistry {
    processes: Vec<Process>,
}

impl View for ProcessRegistry {
    type V = Seq<Process>;

    closed spec fn view(&self) -> Seq<Process> {
        self.processes@
    }
}

impl ProcessRegistry {
    /// There are no more processes than can be registered.
    pub open spec fn wf(&self) -> bool {
        self@.len() <= MAX_PROCESSES
    }

    pub fn new() -> (r: Self)
        ensures
            r.wf(),
            r@ == Seq::<Process>::empty(),
    {
        Self { processes: Vec::new() }
    }
}

/// Registers a process and says its number.
pub fn register_process(registry: &mut ProcessRegistry, process: Process) -> (r: Result<
    u64,
    ProcessError,
>)
    requires
        old(registry).wf(),
    ensures
        final(registry).wf(),
        r is Ok <==> old(registry)@.len() < 16,
        if old(registry)@.len() < MAX_PROCESSES {
            &&& r == Ok::<u64, ProcessError>(process.id)
            &&& final(registry)@ == old(registry)@.push(process)
        } else {
            &&& r == Err::<u64, ProcessError>(ProcessError::RegistryFull)
            &&& final(registry)@ == old(registry)@
        },
{
    if registry.processes.len() >= MAX_PROCESSES {
        return Err(ProcessError::RegistryFull);
    }
    let pid: u64 = process.id;
    registry.processes.push(process);
    Ok(pid)
}

/// How many processes are registered.
pub fn active_process_count(registry: &ProcessRegistry) -> (r: usize)
    ensures
        r == registry@.len(),
{
    registry.processes.len()
}

/// Every thread of the process got its number before those that `ids` still
/// hands out.
pub open spec fn numbered_before(p: Process, ids: ThreadIds) -> bool {
    forall|i: int| 0 <= i < p.threads@.len() ==> (#[trigger] p.threads@[i]).id < ids.threads.next
}

/// A consistent process stays so with each thread that it makes, as long as the
/// numbers have not run out.
pub proof fn lemma_created_thread_consistent(
    before: Process,
    after: Process,
    ids0: ThreadIds,
    ids1: ThreadIds,
)
    requires
        before.consistent(),
        before.state != ProcessState::Terminated,
        numbered_before(before, ids0),
        ids0.threads.next < u64::MAX,
        ids1.threads.next == ids0.threads.after(1),
        after.id == before.id,
        after.name == before.name,
        after.state == before.state,
        after.threads@.len() == before.threads@.len() + 1,
        after.threads@ == before.threads@.push(after.threads@.last()),
        after.threads@.last().process_id == before.id,
        after.threads@.last().id == ids0.threads.next,
    ensures
        after.consistent(),
        numbered_before(after, ids1),
        forall|i: int|
            0 <= i < before.threads@.len() ==> #[trigger] after.threads@[i] == before.threads@[i],
{
    lemma_thread_keeps_consistent(before, after, after.threads@.last());
    vstd::arithmetic::div_mod::lemma_small_mod(
        (ids0.threads.next + 1) as nat,
        0x1_0000_0000_0000_0000,
    );
}

/// Two processes that were made with `n - 1` others and `m - 1` other address
/// spaces in between differ in their numbers and in those of their address
/// spaces, and neither number is 0, as long as the counters have not run out. If
/// the root of the first is still in place when the second is made, they have
/// different roots. Both are consistent.
pub proof fn lemma_processes_differ(
    mm0: MemoryManager,
    mem0: Seq<PageTable>,
    mm1: MemoryManager,
    mem1: Seq<PageTable>,
    mm2: MemoryManager,
    mem2: Seq<PageTable>,
    mm3: MemoryManager,
    mem3: Seq<PageTable>,
    pids: IdSource,
    later_pids: IdSource,
    asids: AsidState,
    later_asids: AsidState,
    p: Process,
    q: Process,
    n: nat,
    m: nat,
)
    requires
        process_created(mm0, mem0, mm1, mem1, asids, pids, p.name, p),
        process_created(mm2, mem2, mm3, mem3, later_asids, later_pids, q.name, q),
        later_pids.next == pids.after(n),
        later_asids.ids.next == asids.ids.after(m),
        pids.next > 0,
        asids.ids.next > 0,
        0 < n,
        pids.next + n <= u64::MAX,
        0 < m,
        asids.ids.next + m <= u64::MAX,
    ensures
        p.id != q.id,
        p.address_space.id != q.address_space.id,
        p.id != 0,
        q.id != 0,
        p.address_space.id != 0,
        q.address_space.id != 0,
        mm2.has_root(p.address_space.root_page) ==> p.address_space.root_page
            != q.address_space.root_page,
        p.consistent(),
        q.consistent(),
{
    vstd::arithmetic::div_mod::lemma_small_mod((pids.next + n) as nat, 0x1_0000_0000_0000_0000);
    vstd::arithmetic::div_mod::lemma_small_mod((asids.ids.next + m) as nat, 0x1_0000_0000_0000_0000);
}

} // verus!
