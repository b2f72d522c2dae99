//! Execution contexts: kernel stacks, the frame that a new context starts from,
//! and what a switch saves and restores.

use vstd::prelude::*;
use crate::ids::IdSource;
use crate::paging;
use crate::paging::{read_word, write_word, MemoryManager};
use crate::regions;
use crate::regions::allocate_and_map_region;
use crate::vmm::{is_canonical, PageTable, PageTableEntry, RegionPurpose, VirtAddr, VirtPermissions, VirtRegion, VmmError};
use crate::window;

verus! {

/// The bytes of a kernel stack.
pub const STACK_SIZE_BYTES: u64 = 0x4000;

/// The words of the frame that a context is resumed from.
pub const FRAME_WORDS: usize = 10;

/// The bytes of that frame.
pub const FRAME_BYTES: u64 = 80;

/// The flags that a context starts with: interrupts are on.
pub const INITIAL_RFLAGS: u64 = 0x202;

#[derive(Copy, Clone, Debug, PartialEq, Eq, Structural)]
pub enum ContextState {
    Uninitialized,
    Initialized,
    Ready,
    Running,
    Suspended,
    Terminated,
}

impl ContextState {
    pub open spec fn label(self) -> Seq<char> {
        match self {
            ContextState::Uninitialized => "UNINITIALIZED"@,
            ContextState::Initialized => "INITIALIZED"@,
            ContextState::Ready => "READY"@,
            ContextState::Running => "RUNNING"@,
            ContextState::Suspended => "SUSPENDED"@,
            ContextState::Terminated => "TERMINATED"@,
        }
    }

    pub fn name(self) -> (r: &'static str)
        ensures
            r@ == self.label(),
            self == ContextState::Uninitialized ==> r@ == "UNINITIALIZED"@,
            self == ContextState::Initialized ==> r@ == "INITIALIZED"@,
            self == ContextState::Ready ==> r@ == "READY"@,
            self == ContextState::Running ==> r@ == "RUNNING"@,
            self == ContextState::Suspended ==> r@ == "SUSPENDED"@,
            self == ContextState::Terminated ==> r@ == "TERMINATED"@,
    {
        match self {
            ContextState::Uninitialized => "UNINITIALIZED",
            ContextState::Initialized => "INITIALIZED",
            ContextState::Ready => "READY",
            ContextState::Running => "RUNNING",
            ContextState::Suspended => "SUSPENDED",
            ContextState::Terminated => "TERMINATED",
        }
    }
}

#[derive(Copy, Clone, Debug, PartialEq, Eq, Structural)]
pub enum ContextError {
    InvalidEntryPoint,
    InvalidStackPointer,
    StackAllocationFailed,
}

/// The region that a stack lies in. The stack grows down from its end.
#[derive(Debug, PartialEq, Eq, Structural)]
pub struct KernelStack {
    pub region: VirtRegion,
}

impl KernelStack {
    /// The stack is whole pages, at least one, that are backed by memory.
    pub open spec fn backed(self, mm: MemoryManager, mem: Seq<PageTable>) -> bool {
        &&& self.region.pages() > 0
        &&& self.region.size_bytes % 4096 == 0
        &&& window::backed(mm, mem, self.region.start.0 as int, self.region.pages())
    }

    /// The words of the stack, from the bottom up.
    pub open spec fn words(self, mm: MemoryManager, mem: Seq<PageTable>) -> Seq<u64> {
        window::words(mm, mem, self.region.start.0 as int, self.region.pages())
    }

    /// Maps a stack in the dynamic range.
    pub fn allocate(frames: &mut [PageTable], mm: &mut MemoryManager) -> (r: Result<
        Self,
        VmmError,
    >)
        requires
            old(mm).ready(old(frames)@),
        ensures
            final(mm).ready(final(frames)@),
            match regions::allocate_refusal(*old(mm), old(frames)@, STACK_SIZE_BYTES) {
                Some(e) => {
                    &&& r == Err::<Self, VmmError>(e)
                    &&& regions::region_refused(
                        *old(mm),
                        old(frames)@,
                        *final(mm),
                        final(frames)@,
                        STACK_SIZE_BYTES,
                    )
                },
                None => {
                    let next = old(mm).vmm.next_dynamic_addr;
                    let region = stack_region(next);
                    &&& r == Ok::<Self, VmmError>(
                        KernelStack {
                            region: VirtRegion { owns_physical_pages: true, ..region },
                        },
                    )
                    &&& r->Ok_0.backed(*final(mm), final(frames)@)
                    &&& region.limit() <= crate::vmm::DYNAMIC_VIRT_END
                    &&& final(mm).vmm@ == old(mm).vmm@.push(region)
                    &&& final(mm).vmm.next_dynamic_addr == region.limit()
                    &&& regions::fresh_mapped(
                        *old(mm),
                        old(frames)@,
                        *final(mm),
                        final(frames)@,
                        next,
                        region.pages(),
                        region.permissions.page_flags(),
                    )
                },
            },
    {
        let ghost mm0 = *mm;
        let ghost mem0 = frames@;
        match allocate_and_map_region(
            frames,
            mm,
            STACK_SIZE_BYTES,
            VirtPermissions::kernel_data(),
            RegionPurpose::DynamicKernel,
        ) {
            Ok(region) => {
                proof {
                    lemma_stack_flags();
                    window::lemma_fresh_backed(
                        mm0,
                        mem0,
                        *mm,
                        frames@,
                        region.start.0,
                        4,
                        region.permissions.page_flags(),
                    );
                }
                Ok(Self { region })
            },
            Err(e) => Err(e),
        }
    }

    /// The address after the stack.
    pub fn top(&self) -> (r: u64)
        requires
            self.region.fits(),
        ensures
            r == self.region.limit(),
            r == self.region.start.0 + self.region.size_bytes,
    {
        self.region.end().as_u64()
    }

    /// The lowest address of the stack.
    pub fn bottom(&self) -> (r: u64)
        ensures
            r == self.region.start.0,
    {
        self.region.start.as_u64()
    }
}

/// The region of a stack that is mapped at `next`.
pub open spec fn stack_region(next: u64) -> VirtRegion {
    crate::vmm::next_region(
        next,
        STACK_SIZE_BYTES,
        VirtPermissions { readable: true, writable: true, executable: false, user: false },
        RegionPurpose::DynamicKernel,
    )
}

/// The flags of a stack's pages say that a page is there, and hold no address.
pub proof fn lemma_stack_flags()
    ensures
        0x8000_0000_0000_0003u64 & 1 != 0,
        0x8000_0000_0000_0003u64 & crate::vmm::ENTRY_ADDRESS_MASK == 0,
{
    assert(0x8000_0000_0000_0003u64 & 1 != 0 && 0x8000_0000_0000_0003u64 & 0x000F_FFFF_FFFF_F000
        == 0) by (bit_vector);
}

/// What is kept of a context that does not run.
#[derive(Copy, Clone, Debug, PartialEq, Eq, Structural)]
pub struct ExecutionContext {
    pub rsp: u64,
    pub r15: u64,
    pub r14: u64,
    pub r13: u64,
    pub r12: u64,
    pub rbx: u64,
    pub rbp: u64,
    pub rip: u64,
    pub rflags: u64,
    pub state: ContextState,
    pub id: u64,
}

impl ExecutionContext {
    pub open spec fn spec_empty() -> ExecutionContext {
        ExecutionContext {
            rsp: 0,
            r15: 0,
            r14: 0,
            r13: 0,
            r12: 0,
            rbx: 0,
            rbp: 0,
            rip: 0,
            rflags: INITIAL_RFLAGS,
            state: ContextState::Uninitialized,
            id: 0,
        }
    }

    pub fn empty() -> (r: Self)
        ensures
            r == ExecutionContext::spec_empty(),
            r.rsp == 0 && r.rip == 0 && r.rbx == 0 && r.rbp == 0,
            r.r12 == 0 && r.r13 == 0 && r.r14 == 0 && r.r15 == 0,
            r.rflags == 0x202,
            r.state == ContextState::Uninitialized,
            r.id == 0,
    {
        Self {
            rsp: 0,
            r15: 0,
            r14: 0,
            r13: 0,
            r12: 0,
            rbx: 0,
            rbp: 0,
            rip: 0,
            rflags: INITIAL_RFLAGS,
            state: ContextState::Uninitialized,
            id: 0,
        }
    }
}

/// An address that can be jumped to or used as a stack pointer.
pub open spec fn usable_address(addr: u64) -> bool {
    addr != 0 && crate::vmm::canonical(addr)
}

/// The frame of a new context: `rsi`, `rdi`, `r15`, `r14`, `r13`, `r12`, `rbp`,
/// `rbx`, the flags, and where to go.
pub open spec fn initial_frame(id: u64, entry_addr: u64, trampoline: u64) -> Seq<u64> {
    seq![0, 0, 0, 0, id, entry_addr, 0, 0, INITIAL_RFLAGS, trampoline]
}

/// The words `ws` with the words `frame` from `at` on.
pub open spec fn with_frame(ws: Seq<u64>, at: int, frame: Seq<u64>) -> Seq<u64> {
    Seq::new(
        ws.len(),
        |x: int|
            if at <= x < at + frame.len() {
                frame[x - at]
            } else {
                ws[x]
            },
    )
}

/// The context that starts at `trampoline` with a frame at `rsp`.
pub open spec fn new_context(
    rsp: u64,
    id: u64,
    entry_addr: u64,
    trampoline: u64,
) -> ExecutionContext {
    ExecutionContext {
        rsp,
        r13: id,
        r12: entry_addr,
        rip: trampoline,
        state: ContextState::Initialized,
        id,
        ..ExecutionContext::spec_empty()
    }
}

/// Why no context can be made; none if one can.
pub open spec fn context_refusal(entry_addr: u64, stack: KernelStack) -> Option<ContextError> {
    if !usable_address(entry_addr) {
        Some(ContextError::InvalidEntryPoint)
    } else if !usable_address(stack.region.limit() as u64) {
        Some(ContextError::InvalidStackPointer)
    } else {
        None
    }
}

/// Where the frame of a new context on `stack` starts: at the first unit of 16
/// bytes below its end that leaves room for it.
pub open spec fn frame_start(stack: KernelStack) -> int {
    stack.region.limit() / 16 * 16 - FRAME_BYTES
}

/// The frame of memory behind word `k` of the words from `addr` on.
pub open spec fn word_frame(mm: MemoryManager, mem: Seq<PageTable>, addr: int, k: int) -> int {
    paging::frame_of(
        mem,
        mm.root.0 as int / 4096,
        crate::walk::page_of((addr + 8 * k) as u64),
    )
}

/// Which word of its frame word `k` of the words from `addr` on is.
pub open spec fn word_index(addr: int, k: int) -> int {
    ((addr + 8 * k) % 4096) / 8
}

/// Word `k` of the words from `addr` on can be written under the kernel's root:
/// it is mapped to memory that is no table.
pub open spec fn writable_word(
    mm: MemoryManager,
    mem: Seq<PageTable>,
    addr: int,
    k: int,
) -> bool {
    &&& 0 <= addr + 8 * k <= u64::MAX
    &&& crate::vmm::canonical((addr + 8 * k) as u64)
    &&& paging::is_data(
        mm,
        mem,
        mm.root.0 as int / 4096,
        crate::walk::page_of((addr + 8 * k) as u64),
    )
}

/// The words of a frame can be written from `addr` on.
pub open spec fn writable_frame(mm: MemoryManager, mem: Seq<PageTable>, addr: int) -> bool {
    &&& addr % 8 == 0
    &&& forall|k: int| 0 <= k < FRAME_WORDS ==> #[trigger] writable_word(mm, mem, addr, k)
}

/// From one memory to another, the words `frame` were written from `addr` on, and
/// nothing else.
#[verifier::opaque]
pub open spec fn frame_written(
    mm: MemoryManager,
    mem0: Seq<PageTable>,
    mem1: Seq<PageTable>,
    addr: int,
    frame: Seq<u64>,
) -> bool {
    &&& mem1.len() == mem0.len()
    &&& crate::walk::same_mappings(mem0, mem1, mm.tables())
    &&& forall|k: int|
        0 <= k < frame.len() ==> #[trigger] word_value(mm, mem0, mem1, addr, k) == frame[k]
    &&& forall|f: int, i: int|
        0 <= f < mem0.len() && 0 <= i < 512 && (forall|k: int|
            0 <= k < frame.len() ==> !(#[trigger] word_frame(mm, mem0, addr, k) == f && word_index(
                addr,
                k,
            ) == i)) ==> #[trigger] crate::walk::word(mem1, f, i) == crate::walk::word(mem0, f, i)
}

/// What `mem1` holds as word `k` of the words from `addr` on, by the mappings of
/// `mem0`.
pub open spec fn word_value(
    mm: MemoryManager,
    mem0: Seq<PageTable>,
    mem1: Seq<PageTable>,
    addr: int,
    k: int,
) -> u64 {
    crate::walk::word(mem1, word_frame(mm, mem0, addr, k), word_index(addr, k)).0
}

/// Writes the words of `frame` from `addr` on.
fn put_frame(
    frames: &mut [PageTable],
    mm: &MemoryManager,
    addr: u64,
    frame: &[u64; FRAME_WORDS],
)
    requires
        mm.ready(old(frames)@),
        writable_frame(*mm, old(frames)@, addr as int),
    ensures
        mm.ready(final(frames)@),
        frame_written(*mm, old(frames)@, final(frames)@, addr as int, frame@),
        forall|f: int| mm.is_table(f) ==> #[trigger] final(frames)@[f] == old(frames)@[f],
{
    proof {
        reveal(frame_written);
    }
    let ghost mem0 = frames@;
    let ghost a = addr as int;
    let ghost root = mm.root.0 as int / 4096;
    assert(frame@.take(0).len() == 0);
    assert(mm.is_table(root));
    let mut i: usize = 0;
    while i < FRAME_WORDS
        invariant
            mm.ready(mem0),
            mm.ready(frames@),
            a == addr,
            root == mm.root.0 as int / 4096,
            crate::walk::is_root(mm.tables(), root),
            writable_frame(*mm, mem0, a),
            i <= FRAME_WORDS,
            frame_written(*mm, mem0, frames@, a, frame@.take(i as int)),
            forall|f: int| mm.is_table(f) ==> #[trigger] frames@[f] == mem0[f],
        decreases FRAME_WORDS - i,
    {
        let ghost mem1 = frames@;
        proof {
            reveal(frame_written);
            assert(writable_word(*mm, mem0, a, i as int));
            let page = crate::walk::page_of((a + 8 * i) as u64);
            assert(0 <= page < crate::walk::page_limit());
            assert(crate::walk::mapping(mem1, root, page) == crate::walk::mapping(
                mem0,
                root,
                page,
            ));
        }
        write_word(frames, mm, mm.root, VirtAddr::new(addr + 8 * (i as u64)), frame[i]);
        proof {
            assert forall|k: int| 0 <= k < i implies 0 <= #[trigger] word_frame(*mm, mem0, a, k)
                < mem0.len() by {
                assert(writable_word(*mm, mem0, a, k));
            }
            lemma_word_written(*mm, mem0, mem1, frames@, a, frame@, i as int);
        }
        i = i + 1;
    }
    assert(frame@.take(FRAME_WORDS as int) =~= frame@);
}

/// One more word of a frame is written.
proof fn lemma_word_written(
    mm: MemoryManager,
    mem0: Seq<PageTable>,
    mem1: Seq<PageTable>,
    mem2: Seq<PageTable>,
    addr: int,
    frame: Seq<u64>,
    n: int,
)
    requires
        0 <= n < frame.len(),
        frame.len() == FRAME_WORDS,
        addr % 8 == 0,
        0 <= addr,
        frame_written(mm, mem0, mem1, addr, frame.take(n)),
        0 <= word_frame(mm, mem0, addr, n) < mem0.len(),
        mem2.len() == mem1.len(),
        crate::walk::same_mappings(mem1, mem2, mm.tables()),
        forall|f: int, i: int|
            0 <= f < mem1.len() && 0 <= i < 512 ==> #[trigger] crate::walk::word(mem2, f, i)
                == if f == word_frame(mm, mem0, addr, n) && i == word_index(addr, n) {
                PageTableEntry(frame[n])
            } else {
                crate::walk::word(mem1, f, i)
            },
        forall|k: int|
            0 <= k < n ==> 0 <= #[trigger] word_frame(mm, mem0, addr, k) < mem0.len(),
    ensures
        frame_written(mm, mem0, mem2, addr, frame.take(n + 1)),
{
    reveal(frame_written);
    let short = frame.take(n);
    let long = frame.take(n + 1);
    assert forall|k: int| 0 <= k < n + 1 implies #[trigger] word_value(mm, mem0, mem2, addr, k)
        == long[k] by {
        assert(0 <= word_index(addr, k) < 512);
        if k < n {
            assert(word_index(addr, k) != word_index(addr, n)) by {
                lemma_indices_differ(addr, k, n);
            }
            assert(word_value(mm, mem0, mem1, addr, k) == short[k]);
            assert(0 <= word_frame(mm, mem0, addr, k) < mem0.len());
        }
    }
    assert forall|f: int, i: int|
        0 <= f < mem0.len() && 0 <= i < 512 && (forall|k: int|
            0 <= k < long.len() ==> !(#[trigger] word_frame(mm, mem0, addr, k) == f && word_index(
                addr,
                k,
            ) == i)) implies #[trigger] crate::walk::word(mem2, f, i) == crate::walk::word(
        mem0,
        f,
        i,
    ) by {
        assert(!(word_frame(mm, mem0, addr, n) == f && word_index(addr, n) == i));
        assert(crate::walk::word(mem1, f, i) == crate::walk::word(mem0, f, i));
    }
    assert forall|r: int, p: int|
        crate::walk::is_root(mm.tables(), r) && 0 <= p
            < crate::walk::page_limit() implies #[trigger] crate::walk::mapping(mem2, r, p)
        == crate::walk::mapping(mem0, r, p) by {
        assert(crate::walk::mapping(mem1, r, p) == crate::walk::mapping(mem0, r, p));
    }
}

/// Words that are close to each other are different words of their frames.
proof fn lemma_indices_differ(addr: int, k: int, n: int)
    requires
        addr % 8 == 0,
        0 <= addr,
        0 <= k < n < FRAME_WORDS,
    ensures
        word_index(addr, k) != word_index(addr, n),
{
    let q = addr / 8;
    assert(addr == 8 * q);
    assert((addr + 8 * k) % 4096 == 8 * ((q + k) % 512));
    assert((addr + 8 * n) % 4096 == 8 * ((q + n) % 512));
}

/// Where word `k` of the words from `addr` on lies on a stack that is backed.
proof fn lemma_word_on_stack(
    stack: KernelStack,
    mm: MemoryManager,
    mem: Seq<PageTable>,
    addr: int,
    k: int,
)
    requires
        mm.ready(mem),
        stack.backed(mm, mem),
        addr % 8 == 0,
        stack.region.start.0 <= addr + 8 * k < stack.region.limit(),
    ensures
        ({
            let x = (addr - stack.region.start.0) / 8 + k;
            &&& 0 <= x < stack.words(mm, mem).len()
            &&& word_frame(mm, mem, addr, k) == window::frame_at(
                mm,
                mem,
                stack.region.start.0 as int,
                x / 512,
            )
            &&& word_index(addr, k) == x % 512
            &&& 0 <= x / 512 < stack.region.pages()
            &&& writable_word(mm, mem, addr, k)
            &&& word_value(mm, mem, mem, addr, k) == stack.words(mm, mem)[x]
        }),
{
    reveal(window::backed);
    let s = stack.region.start.0 as int;
    let n = stack.region.pages();
    let a = addr + 8 * k;
    let q = s / 4096;
    let x = (addr - s) / 8 + k;
    assert(s == 4096 * q);
    assert(stack.region.limit() == s + 4096 * n);
    assert(addr - s == 8 * ((addr - s) / 8)) by {
        assert((addr - s) % 8 == 0);
    }
    assert(a == 4096 * q + 8 * x);
    assert(a / 4096 == q + x / 512);
    assert(a % 4096 == 8 * (x % 512));
    assert(crate::walk::page_of(a as u64) == q + x / 512);
    assert(window::holds(mm, mem, s, x / 512));
}

/// A frame that is written on a stack that is backed is written to the stack, and
/// nowhere else.
proof fn lemma_frame_on_stack(
    stack: KernelStack,
    mm: MemoryManager,
    mem0: Seq<PageTable>,
    mem1: Seq<PageTable>,
    addr: int,
    frame: Seq<u64>,
)
    requires
        mm.ready(mem0),
        mm.ready(mem1),
        stack.backed(mm, mem0),
        frame.len() == FRAME_WORDS,
        addr % 8 == 0,
        stack.region.start.0 <= addr,
        addr + FRAME_BYTES <= stack.region.limit(),
        frame_written(mm, mem0, mem1, addr, frame),
    ensures
        stack.backed(mm, mem1),
        stack.words(mm, mem1) == with_frame(
            stack.words(mm, mem0),
            (addr - stack.region.start.0) / 8,
            frame,
        ),
        window::only_within(
            mm,
            mem0,
            mem1,
            stack.region.start.0 as int,
            stack.region.pages(),
        ),
{
    reveal(frame_written);
    let s = stack.region.start.0 as int;
    let n = stack.region.pages();
    let at = (addr - s) / 8;
    assert(mm.is_table(mm.root.0 as int / 4096));
    assert forall|k: int| 0 <= k < FRAME_WORDS implies {
        &&& #[trigger] word_frame(mm, mem0, addr, k) == window::frame_at(
            mm,
            mem0,
            s,
            (at + k) / 512,
        )
        &&& word_index(addr, k) == (at + k) % 512
        &&& 0 <= at + k < 512 * n
        &&& 0 <= (at + k) / 512 < n
    } by {
        lemma_word_on_stack(stack, mm, mem0, addr, k);
    }
    window::lemma_same_frames(mm, mem0, mem1, s, n);
    assert(window::only_within(mm, mem0, mem1, s, n)) by {
        lemma_frame_within(stack, mm, mem0, mem1, addr, frame);
    }
    let ws0 = stack.words(mm, mem0);
    let ws1 = stack.words(mm, mem1);
    assert forall|x: int| 0 <= x < ws0.len() implies #[trigger] ws1[x] == with_frame(
        ws0,
        at,
        frame,
    )[x] by {
        let i = x / 512;
        assert(0 <= i < n);
        let f = window::frame_at(mm, mem0, s, i);
        assert(window::frame_at(mm, mem1, s, i) == f);
        assert(0 <= f < mem0.len()) by {
            reveal(window::backed);
            assert(window::holds(mm, mem0, s, i));
        }
        if at <= x < at + FRAME_WORDS {
            let k = x - at;
            assert(word_frame(mm, mem0, addr, k) == f);
            assert(word_value(mm, mem0, mem1, addr, k) == frame[k]);
        } else {
            assert forall|k: int| 0 <= k < frame.len() implies !(#[trigger] word_frame(
                mm,
                mem0,
                addr,
                k,
            ) == f && word_index(addr, k) == x % 512) by {
                let y = at + k;
                if y / 512 != i {
                    reveal(window::backed);
                    assert(window::frame_at(mm, mem0, s, y / 512) != window::frame_at(
                        mm,
                        mem0,
                        s,
                        i,
                    ));
                }
            }
            assert(crate::walk::word(mem1, f, x % 512) == crate::walk::word(mem0, f, x % 512));
        }
    }
    assert(ws1 =~= with_frame(ws0, at, frame));
}

/// A frame that is written on a stack changes no frame of memory but the stack's.
proof fn lemma_frame_within(
    stack: KernelStack,
    mm: MemoryManager,
    mem0: Seq<PageTable>,
    mem1: Seq<PageTable>,
    addr: int,
    frame: Seq<u64>,
)
    requires
        mm.ready(mem0),
        stack.backed(mm, mem0),
        frame.len() == FRAME_WORDS,
        frame_written(mm, mem0, mem1, addr, frame),
        forall|k: int|
            0 <= k < FRAME_WORDS ==> {
                let x = (addr - stack.region.start.0) / 8 + k;
                &&& #[trigger] word_frame(mm, mem0, addr, k) == window::frame_at(
                    mm,
                    mem0,
                    stack.region.start.0 as int,
                    x / 512,
                )
                &&& 0 <= x / 512 < stack.region.pages()
            },
    ensures
        window::only_within(
            mm,
            mem0,
            mem1,
            stack.region.start.0 as int,
            stack.region.pages(),
        ),
{
    reveal(frame_written);
    reveal(window::only_within);
    let s = stack.region.start.0 as int;
    let n = stack.region.pages();
    assert forall|f: int|
        0 <= f < mem0.len() && (forall|i: int|
            0 <= i < n ==> f != #[trigger] window::frame_at(
                mm,
                mem0,
                s,
                i,
            )) implies #[trigger] mem1[f] == mem0[f] by {
        assert forall|i: int| 0 <= i < 512 implies mem1[f].entries@[i] == mem0[f].entries@[i] by {
            assert(crate::walk::word(mem1, f, i) == crate::walk::word(mem0, f, i));
        }
        assert(mem1[f].entries@ =~= mem0[f].entries@);
        assert(mem1[f].entries == mem0[f].entries);
    }
}

/// A frame on a stack that is backed can be written, and holds words of the stack.
pub proof fn lemma_frame_in_stack(
    stack: KernelStack,
    mm: MemoryManager,
    mem: Seq<PageTable>,
    addr: int,
)
    requires
        mm.ready(mem),
        stack.backed(mm, mem),
        addr % 8 == 0,
        stack.region.start.0 <= addr,
        addr + FRAME_BYTES <= stack.region.limit(),
    ensures
        writable_frame(mm, mem, addr),
        addr + FRAME_BYTES <= window::LOWER_HALF_END,
        CpuState::loaded(mm, mem, addr) == CpuState::resumed(
            stack.words(mm, mem),
            (addr - stack.region.start.0) / 8,
            (addr + FRAME_BYTES) as u64,
        ),
{
    assert(addr + FRAME_BYTES <= window::LOWER_HALF_END) by {
        reveal(window::backed);
    }
    lemma_words_in_stack(stack, mm, mem, addr);
    lemma_resumed_alike(
        frame_words(mm, mem, addr),
        stack.words(mm, mem),
        (addr - stack.region.start.0) / 8,
        (addr + FRAME_BYTES) as u64,
    );
    vstd::arithmetic::div_mod::lemma_small_mod(
        (addr + FRAME_BYTES) as nat,
        0x1_0000_0000_0000_0000,
    );
}

proof fn lemma_words_in_stack(
    stack: KernelStack,
    mm: MemoryManager,
    mem: Seq<PageTable>,
    addr: int,
)
    requires
        mm.ready(mem),
        stack.backed(mm, mem),
        addr % 8 == 0,
        stack.region.start.0 <= addr,
        addr + FRAME_BYTES <= stack.region.limit(),
    ensures
        writable_frame(mm, mem, addr),
        forall|k: int|
            0 <= k < FRAME_WORDS ==> #[trigger] frame_words(mm, mem, addr)[k] == stack.words(
                mm,
                mem,
            )[(addr - stack.region.start.0) / 8 + k],
{
    assert forall|k: int| 0 <= k < FRAME_WORDS implies #[trigger] writable_word(mm, mem, addr, k) by {
        lemma_word_on_stack(stack, mm, mem, addr, k);
    }
    assert forall|k: int| 0 <= k < FRAME_WORDS implies #[trigger] frame_words(mm, mem, addr)[k]
        == stack.words(mm, mem)[(addr - stack.region.start.0) / 8 + k] by {
        lemma_word_on_stack(stack, mm, mem, addr, k);
    }
}

/// Equal words resume equal registers.
proof fn lemma_resumed_alike(fs: Seq<u64>, ws: Seq<u64>, at: int, rsp: u64)
    requires
        forall|k: int| 0 <= k < FRAME_WORDS ==> #[trigger] fs[k] == ws[at + k],
    ensures
        CpuState::resumed(fs, 0, rsp) == CpuState::resumed(ws, at, rsp),
{
}

/// The end of a stack that is backed can be written.
pub proof fn lemma_backed_writable(stack: KernelStack, mm: MemoryManager, mem: Seq<PageTable>)
    requires
        mm.ready(mem),
        stack.backed(mm, mem),
    ensures
        frame_start(stack) == stack.region.limit() - FRAME_BYTES,
        writable_frame(mm, mem, frame_start(stack)),
        stack.region.fits(),
{
    reveal(window::backed);
    let s = stack.region.start.0 as int;
    let n = stack.region.pages();
    lemma_stack_top(s, n);
    assert(stack.region.limit() == s + 4096 * n);
    let addr = s + 4096 * n - FRAME_BYTES;
    assert forall|k: int| 0 <= k < FRAME_WORDS implies #[trigger] writable_word(mm, mem, addr, k) by {
        let a = addr + 8 * k;
        assert(a / 4096 == s / 4096 + n - 1) by {
            let q = s / 4096;
            assert(s == 4096 * q);
            assert(a == 4096 * (q + n - 1) + (4096 - FRAME_BYTES + 8 * k));
        }
        assert(crate::walk::page_of(a as u64) == s / 4096 + n - 1);
        assert(window::holds(mm, mem, s, n - 1));
    }
}

/// Where the frame at the end of a stack is.
proof fn lemma_stack_top(s: int, n: int)
    requires
        s % 4096 == 0,
    ensures
        (s + 4096 * n) / 16 * 16 == s + 4096 * n,
        (s + 4096 * n - FRAME_BYTES) % 8 == 0,
        (s + 4096 * n - FRAME_BYTES - s) / 8 == 512 * n - FRAME_WORDS,
        s % 8 == 0,
{
    let q = s / 4096;
    assert(s == 4096 * q);
    let x = 256 * q + 256 * n;
    assert(s + 4096 * n == 16 * x);
    assert(s + 4096 * n - FRAME_BYTES == 8 * (2 * x - 10));
}

/// Makes a context that starts at `entry_addr` on `stack`: its first switch goes
/// to `trampoline` with the entry point and the context's number in registers.
///
/// Only the bytes of the frame below the end of the stack have to be mapped to
/// memory. The frame starts at a multiple of 16.
pub fn create_context_raw(
    frames: &mut [PageTable],
    mm: &MemoryManager,
    ids: &mut IdSource,
    entry_addr: u64,
    stack: &KernelStack,
    trampoline: u64,
) -> (r: Result<ExecutionContext, ContextError>)
    requires
        mm.ready(old(frames)@),
        stack.region.fits(),
        context_refusal(entry_addr, *stack) is None ==> writable_frame(
            *mm,
            old(frames)@,
            frame_start(*stack),
        ),
    ensures
        mm.ready(final(frames)@),
        match context_refusal(entry_addr, *stack) {
            Some(e) => {
                &&& r == Err::<ExecutionContext, ContextError>(e)
                &&& *final(ids) == *old(ids)
                &&& final(frames)@ == old(frames)@
            },
            None => {
                let id = old(ids).next;
                let ws = stack.words(*mm, old(frames)@);
                &&& r == Ok::<ExecutionContext, ContextError>(
                    new_context(
                        frame_start(*stack) as u64,
                        id,
                        entry_addr,
                        trampoline,
                    ),
                )
                &&& final(ids).next == old(ids).after(1)
                &&& frame_written(
                    *mm,
                    old(frames)@,
                    final(frames)@,
                    frame_start(*stack),
                    initial_frame(id, entry_addr, trampoline),
                )
                &&& stack.backed(*mm, old(frames)@) ==> {
                    &&& stack.backed(*mm, final(frames)@)
                    &&& stack.words(*mm, final(frames)@) == with_frame(
                        ws,
                        ws.len() - FRAME_WORDS,
                        initial_frame(id, entry_addr, trampoline),
                    )
                    &&& window::only_within(
                        *mm,
                        old(frames)@,
                        final(frames)@,
                        stack.region.start.0 as int,
                        stack.region.pages(),
                    )
                }
            },
        },
{
    if entry_addr == 0 || !is_canonical(entry_addr) {
        return Err(ContextError::InvalidEntryPoint);
    }
    let stack_top: u64 = stack.top();
    if stack_top == 0 || !is_canonical(stack_top) {
        return Err(ContextError::InvalidStackPointer);
    }
    let id: u64 = ids.take();
    let ghost mem0 = frames@;
    proof {
        assert(writable_word(*mm, mem0, frame_start(*stack), 0));
    }
    let initial_sp: u64 = stack_top / 16 * 16 - FRAME_BYTES;
    let frame: [u64; FRAME_WORDS] = [
        0,
        0,
        0,
        0,
        id,
        entry_addr,
        0,
        0,
        INITIAL_RFLAGS,
        trampoline,
    ];
    put_frame(frames, mm, initial_sp, &frame);
    proof {
        assert(frame@ =~= initial_frame(id, entry_addr, trampoline));
        if stack.backed(*mm, mem0) {
            lemma_backed_writable(*stack, *mm, mem0);
            assert((stack.region.limit() - FRAME_BYTES - stack.region.start.0) / 8
                == stack.words(*mm, mem0).len() - FRAME_WORDS && stack.region.start.0
                <= stack.region.limit() - FRAME_BYTES && (stack.region.limit() - FRAME_BYTES) % 8
                == 0) by {
                reveal(window::backed);
                lemma_stack_top(stack.region.start.0 as int, stack.region.pages());
            }
            lemma_frame_on_stack(
                *stack,
                *mm,
                mem0,
                frames@,
                stack.region.limit() - FRAME_BYTES,
                frame@,
            );
        }
    }
    Ok(
        ExecutionContext {
            rsp: initial_sp,
            r15: 0,
            r14: 0,
            r13: id,
            r12: entry_addr,
            rbx: 0,
            rbp: 0,
            rip: trampoline,
            rflags: INITIAL_RFLAGS,
            state: ContextState::Initialized,
            id,
        },
    )
}

/// Makes a context that starts at the function at `entry_point` on `stack`.
pub fn create_context(
    frames: &mut [PageTable],
    mm: &MemoryManager,
    ids: &mut IdSource,
    entry_point: u64,
    stack: &KernelStack,
    trampoline: u64,
) -> (r: Result<ExecutionContext, ContextError>)
    requires
        mm.ready(old(frames)@),
        stack.region.fits(),
        context_refusal(entry_point, *stack) is None ==> writable_frame(
            *mm,
            old(frames)@,
            frame_start(*stack),
        ),
    ensures
        mm.ready(final(frames)@),
        match context_refusal(entry_point, *stack) {
            Some(e) => {
                &&& r == Err::<ExecutionContext, ContextError>(e)
                &&& *final(ids) == *old(ids)
                &&& final(frames)@ == old(frames)@
            },
            None => {
                let id = old(ids).next;
                let ws = stack.words(*mm, old(frames)@);
                &&& r == Ok::<ExecutionContext, ContextError>(
                    new_context(
                        frame_start(*stack) as u64,
                        id,
                        entry_point,
                        trampoline,
                    ),
                )
                &&& final(ids).next == old(ids).after(1)
                &&& frame_written(
                    *mm,
                    old(frames)@,
                    final(frames)@,
                    frame_start(*stack),
                    initial_frame(id, entry_point, trampoline),
                )
                &&& stack.backed(*mm, old(frames)@) ==> {
                    &&& stack.backed(*mm, final(frames)@)
                    &&& stack.words(*mm, final(frames)@) == with_frame(
                        ws,
                        ws.len() - FRAME_WORDS,
                        initial_frame(id, entry_point, trampoline),
                    )
                    &&& window::only_within(
                        *mm,
                        old(frames)@,
                        final(frames)@,
                        stack.region.start.0 as int,
                        stack.region.pages(),
                    )
                }
            },
        },
{
    create_context_raw(frames, mm, ids, entry_point, stack, trampoline)
}

/// The registers of the processor that a switch saves and restores.
#[derive(Copy, Clone, Debug, PartialEq, Eq, Structural)]
pub struct CpuState {
    pub rip: u64,
    pub rsp: u64,
    pub rflags: u64,
    pub rbx: u64,
    pub rbp: u64,
    pub r12: u64,
    pub r13: u64,
    pub r14: u64,
    pub r15: u64,
    pub rdi: u64,
    pub rsi: u64,
}

impl CpuState {
    /// The frame that the registers are saved in.
    pub open spec fn frame(self) -> Seq<u64> {
        seq![
            self.rsi,
            self.rdi,
            self.r15,
            self.r14,
            self.r13,
            self.r12,
            self.rbp,
            self.rbx,
            self.rflags,
            self.rip,
        ]
    }

    /// The registers that the frame at `ws[at]` resumes, with the stack pointer
    /// behind it.
    pub open spec fn resumed(ws: Seq<u64>, at: int, rsp: u64) -> CpuState {
        CpuState {
            rsi: ws[at],
            rdi: ws[at + 1],
            r15: ws[at + 2],
            r14: ws[at + 3],
            r13: ws[at + 4],
            r12: ws[at + 5],
            rbp: ws[at + 6],
            rbx: ws[at + 7],
            rflags: ws[at + 8],
            rip: ws[at + 9],
            rsp,
        }
    }

    /// The registers that the frame at `addr` in memory resumes, with the stack
    /// pointer behind it.
    pub open spec fn loaded(mm: MemoryManager, mem: Seq<PageTable>, addr: int) -> CpuState {
        CpuState::resumed(
            frame_words(mm, mem, addr),
            0,
            ((addr + FRAME_BYTES) % 0x1_0000_0000_0000_0000) as u64,
        )
    }
}

/// The words of a frame from `addr` on, under the kernel's root.
pub open spec fn frame_words(mm: MemoryManager, mem: Seq<PageTable>, addr: int) -> Seq<u64> {
    Seq::new(FRAME_WORDS as nat, |k: int| word_value(mm, mem, mem, addr, k))
}

/// The stacks have no frame of memory in common.
pub open spec fn stacks_apart(
    a: KernelStack,
    b: KernelStack,
    mm: MemoryManager,
    mem: Seq<PageTable>,
) -> bool {
    forall|i: int, j: int|
        0 <= i < a.region.pages() && 0 <= j < b.region.pages() ==> #[trigger] window::frame_at(
            mm,
            mem,
            a.region.start.0 as int,
            i,
        ) != #[trigger] window::frame_at(mm, mem, b.region.start.0 as int, j)
}

/// Writing to one stack leaves another that is apart from it.
pub proof fn lemma_stack_kept(
    a: KernelStack,
    b: KernelStack,
    mm: MemoryManager,
    mem0: Seq<PageTable>,
    mem1: Seq<PageTable>,
)
    requires
        mm.ready(mem0),
        b.backed(mm, mem0),
        stacks_apart(a, b, mm, mem0),
        window::only_within(
            mm,
            mem0,
            mem1,
            a.region.start.0 as int,
            a.region.pages(),
        ),
    ensures
        b.backed(mm, mem1),
        b.words(mm, mem1) == b.words(mm, mem0),
{
    reveal(window::backed);
    reveal(window::only_within);
    let s = b.region.start.0 as int;
    let n = b.region.pages();
    let r = mm.root.0 as int / 4096;
    assert forall|i: int| 0 <= i < n implies #[trigger] crate::walk::mapping(
        mem1,
        r,
        s / 4096 + i,
    ) == crate::walk::mapping(mem0, r, s / 4096 + i) by {
        assert(0 <= s / 4096 + i < crate::walk::page_limit());
    }
    assert forall|i: int| 0 <= i < n implies {
        let f = #[trigger] window::frame_at(mm, mem0, s, i);
        mm.pmm@.used[f] && !mm.is_table(f) && mem1[f] == mem0[f]
    } by {
        assert(window::holds(mm, mem0, s, i));
        let f = window::frame_at(mm, mem0, s, i);
        assert forall|k: int| 0 <= k < a.region.pages() implies f != #[trigger] window::frame_at(
            mm,
            mem0,
            a.region.start.0 as int,
            k,
        ) by {}
    }
    window::lemma_backed_kept(mm, mem0, mm, mem1, s, n);
}

/// Saves the registers in a frame below the stack pointer, and resumes those of
/// the frame that `next` was left or made with.
///
/// The stack pointer and the instruction pointer of the context that is left are
/// kept in `prev`. Both frames have to be mapped to memory.
pub fn switch_context(
    frames: &mut [PageTable],
    mm: &MemoryManager,
    cpu: &mut CpuState,
    prev: &mut ExecutionContext,
    next: &mut ExecutionContext,
)
    requires
        mm.ready(old(frames)@),
        writable_frame(*mm, old(frames)@, old(cpu).rsp - FRAME_BYTES),
        writable_frame(*mm, old(frames)@, old(next).rsp as int),
    ensures
        mm.ready(final(frames)@),
        final(prev).rsp == old(cpu).rsp - 80,
        *final(prev) == (ExecutionContext {
            rsp: (old(cpu).rsp - FRAME_BYTES) as u64,
            rip: old(cpu).rip,
            state: ContextState::Suspended,
            ..*old(prev)
        }),
        *final(next) == (ExecutionContext { state: ContextState::Running, ..*old(next) }),
        frame_written(
            *mm,
            old(frames)@,
            final(frames)@,
            old(cpu).rsp - FRAME_BYTES,
            old(cpu).frame(),
        ),
        *final(cpu) == CpuState::loaded(*mm, final(frames)@, old(next).rsp as int),
{
    let ghost mem0 = frames@;
    let frame: [u64; FRAME_WORDS] = [
        cpu.rsi,
        cpu.rdi,
        cpu.r15,
        cpu.r14,
        cpu.r13,
        cpu.r12,
        cpu.rbp,
        cpu.rbx,
        cpu.rflags,
        cpu.rip,
    ];
    proof {
        assert(writable_word(*mm, mem0, cpu.rsp - FRAME_BYTES, 0));
    }
    let sp: u64 = cpu.rsp - FRAME_BYTES;
    put_frame(frames, mm, sp, &frame);
    proof {
        assert(frame@ =~= cpu.frame());
        assert(frames@.len() == mem0.len() && crate::walk::same_mappings(
            mem0,
            frames@,
            mm.tables(),
        )) by {
            reveal(frame_written);
        }
        lemma_still_writable(*mm, mem0, frames@, next.rsp as int);
    }
    prev.rsp = sp;
    prev.rip = cpu.rip;
    prev.state = ContextState::Suspended;
    next.state = ContextState::Running;
    *cpu = get_frame(frames, mm, next.rsp);
}

/// Under the same mappings a frame can be written still.
pub proof fn lemma_still_writable(
    mm: MemoryManager,
    mem0: Seq<PageTable>,
    mem1: Seq<PageTable>,
    addr: int,
)
    requires
        mm.ready(mem0),
        mem1.len() == mem0.len(),
        crate::walk::same_mappings(mem0, mem1, mm.tables()),
        writable_frame(mm, mem0, addr),
    ensures
        writable_frame(mm, mem1, addr),
        forall|k: int|
            0 <= k < FRAME_WORDS ==> #[trigger] word_frame(mm, mem1, addr, k) == word_frame(
                mm,
                mem0,
                addr,
                k,
            ),
{
    let root = mm.root.0 as int / 4096;
    assert(mm.is_table(root));
    assert forall|k: int| 0 <= k < FRAME_WORDS implies #[trigger] writable_word(mm, mem1, addr, k)
        && word_frame(mm, mem1, addr, k) == word_frame(mm, mem0, addr, k) by {
        assert(writable_word(mm, mem0, addr, k));
        let page = crate::walk::page_of((addr + 8 * k) as u64);
        assert(0 <= page < crate::walk::page_limit());
        assert(crate::walk::mapping(mem1, root, page) == crate::walk::mapping(mem0, root, page));
    }
    assert forall|k: int| 0 <= k < FRAME_WORDS implies #[trigger] word_frame(mm, mem1, addr, k)
        == word_frame(mm, mem0, addr, k) by {
        assert(writable_word(mm, mem1, addr, k));
    }
}

/// Reads the words of a frame from `addr` on.
fn get_words(frames: &[PageTable], mm: &MemoryManager, addr: u64) -> (r: [u64; FRAME_WORDS])
    requires
        mm.ready(frames@),
        writable_frame(*mm, frames@, addr as int),
    ensures
        r@ == frame_words(*mm, frames@, addr as int),
{
    let ghost a = addr as int;
    let mut frame: [u64; FRAME_WORDS] = [0; FRAME_WORDS];
    let mut i: usize = 0;
    while i < FRAME_WORDS
        invariant
            mm.ready(frames@),
            a == addr,
            writable_frame(*mm, frames@, a),
            i <= FRAME_WORDS,
            forall|k: int|
                0 <= k < i ==> #[trigger] frame@[k] == frame_words(*mm, frames@, a)[k],
        decreases FRAME_WORDS - i,
    {
        proof {
            assert(writable_word(*mm, frames@, a, i as int));
        }
        frame[i] = read_word(frames, mm, mm.root, VirtAddr::new(addr + 8 * (i as u64)));
        i = i + 1;
    }
    assert(frame@ =~= frame_words(*mm, frames@, a));
    frame
}

/// The registers that the words of a frame resume, with the stack pointer `rsp`.
fn registers_of(frame: &[u64; FRAME_WORDS], rsp: u64) -> (r: CpuState)
    ensures
        r == CpuState::resumed(frame@, 0, rsp),
{
    CpuState {
        rsi: frame[0],
        rdi: frame[1],
        r15: frame[2],
        r14: frame[3],
        r13: frame[4],
        r12: frame[5],
        rbp: frame[6],
        rbx: frame[7],
        rflags: frame[8],
        rip: frame[9],
        rsp,
    }
}

/// Reads the registers that the frame at `addr` resumes.
fn get_frame(frames: &[PageTable], mm: &MemoryManager, addr: u64) -> (r: CpuState)
    requires
        mm.ready(frames@),
        writable_frame(*mm, frames@, addr as int),
    ensures
        r == CpuState::loaded(*mm, frames@, addr as int),
{
    let frame = get_words(frames, mm, addr);
    registers_of(&frame, addr.wrapping_add(FRAME_BYTES))
}

/// What a switch does where the processor goes from one stack to another that is
/// apart from it: the frame is written to the one, and the registers are those on
/// the other.
pub proof fn lemma_switch_on_stacks(
    mm: MemoryManager,
    mem0: Seq<PageTable>,
    mem1: Seq<PageTable>,
    cpu: CpuState,
    resumed: int,
    from: KernelStack,
    to: KernelStack,
)
    requires
        mm.ready(mem0),
        mm.ready(mem1),
        from.backed(mm, mem0),
        to.backed(mm, mem0),
        stacks_apart(from, to, mm, mem0),
        from.region.start.0 + FRAME_BYTES <= cpu.rsp <= from.region.limit(),
        cpu.rsp % 8 == 0,
        to.region.start.0 <= resumed,
        resumed + FRAME_BYTES <= to.region.limit(),
        resumed % 8 == 0,
        frame_written(mm, mem0, mem1, cpu.rsp - FRAME_BYTES, cpu.frame()),
    ensures
        from.backed(mm, mem1),
        to.backed(mm, mem1),
        from.words(mm, mem1) == with_frame(
            from.words(mm, mem0),
            (cpu.rsp - FRAME_BYTES - from.region.start.0) / 8,
            cpu.frame(),
        ),
        to.words(mm, mem1) == to.words(mm, mem0),
        CpuState::loaded(mm, mem1, resumed) == CpuState::resumed(
            to.words(mm, mem0),
            (resumed - to.region.start.0) / 8,
            (resumed + FRAME_BYTES) as u64,
        ),
        window::only_within(
            mm,
            mem0,
            mem1,
            from.region.start.0 as int,
            from.region.pages(),
        ),
{
    lemma_frame_on_stack(from, mm, mem0, mem1, cpu.rsp - FRAME_BYTES, cpu.frame());
    lemma_stack_kept(from, to, mm, mem0, mem1);
    lemma_frame_in_stack(to, mm, mem1, resumed);
}

/// Where the frame that a context was left with is as it was, switching back
/// brings all its registers back.
pub proof fn lemma_switch_round_trip(ws: Seq<u64>, cpu: CpuState, start: int)
    requires
        start + FRAME_BYTES <= cpu.rsp,
        cpu.rsp - start <= 8 * ws.len(),
        (cpu.rsp - start) % 8 == 0,
    ensures
        ({
            let at = (cpu.rsp - FRAME_BYTES - start) / 8;
            CpuState::resumed(with_frame(ws, at, cpu.frame()), at, cpu.rsp) == cpu
        }),
{
}

/// The first switch to a new context goes to the trampoline, with the entry
/// point in `r12`, the context's number in `r13`, interrupts on, and an empty
/// stack.
pub proof fn lemma_first_switch(
    ws: Seq<u64>,
    id: u64,
    entry_addr: u64,
    trampoline: u64,
    top: u64,
)
    requires
        ws.len() >= FRAME_WORDS,
    ensures
        ({
            let at = ws.len() - FRAME_WORDS;
            CpuState::resumed(
                with_frame(ws, at, initial_frame(id, entry_addr, trampoline)),
                at,
                top,
            ) == (CpuState {
                rip: trampoline,
                rsp: top,
                rflags: INITIAL_RFLAGS,
                r12: entry_addr,
                r13: id,
                rbx: 0,
                rbp: 0,
                r14: 0,
                r15: 0,
                rdi: 0,
                rsi: 0,
            })
        }),
{
}

/// There is room for `k` more stacks and `spare` more frames: in the registry,
/// in the dynamic range and in memory, tables counted.
#[verifier::opaque]
pub open spec fn stack_room(mm: MemoryManager, mem: Seq<PageTable>, k: int, spare: int) -> bool {
    let next = mm.vmm.next_dynamic_addr;
    let root = mm.root.0 as int / 4096;
    &&& k > 0 ==> stacks_free(mm, mem, k)
    &&& mm.pmm@.free_count() >= 4 * k + crate::walk::run_missing(
        mem,
        root,
        next as int / 4096,
        (4 * k) as nat,
    ) + spare
}

/// The next addresses of the dynamic range suffice for `k` stacks, the registry
/// can hold them, and nothing is registered or mapped there.
pub open spec fn stacks_free(mm: MemoryManager, mem: Seq<PageTable>, k: int) -> bool {
    let next = mm.vmm.next_dynamic_addr;
    &&& mm.vmm@.len() + k <= crate::vmm::MAX_VIRT_REGIONS
    &&& next + 0x4000 * k <= crate::vmm::DYNAMIC_VIRT_END
    &&& !crate::vmm::taken(mm.vmm@, next as int, next + 0x4000 * k)
    &&& forall|p: int|
        next as int / 4096 <= p < next as int / 4096 + 4 * k
            ==> #[trigger] crate::walk::mapping(mem, mm.root.0 as int / 4096, p) is None
}

/// Room for frames alone is a matter of how many are free.
pub proof fn lemma_room_for_frames(mm: MemoryManager, mem: Seq<PageTable>, spare: int)
    ensures
        stack_room(mm, mem, 0, spare) <==> mm.pmm@.free_count() >= spare,
{
    reveal(stack_room);
}

/// Sixteen frames suffice for a stack and its tables.
pub proof fn lemma_room_suffices(mm: MemoryManager, mem: Seq<PageTable>, k: int, spare: int)
    requires
        k >= 0,
        stacks_free(mm, mem, k),
        mm.pmm@.free_count() >= 16 * k + spare,
    ensures
        stack_room(mm, mem, k, spare),
{
    reveal(stack_room);
    crate::walk::lemma_run_missing_bound(
        mem,
        mm.root.0 as int / 4096,
        mm.vmm.next_dynamic_addr as int / 4096,
        (4 * k) as nat,
    );
}

/// How many frames are free once `k` stacks have been mapped, tables counted.
pub open spec fn frames_left(mm: MemoryManager, mem: Seq<PageTable>, k: int) -> int {
    mm.pmm@.free_count() - 4 * k - crate::walk::run_missing(
        mem,
        mm.root.0 as int / 4096,
        mm.vmm.next_dynamic_addr as int / 4096,
        (4 * k) as nat,
    )
}

/// Where the room is less by that of `k` stacks and `spare` frames, so are the
/// free frames.
pub proof fn lemma_frames_left(
    mm0: MemoryManager,
    mem0: Seq<PageTable>,
    mm1: MemoryManager,
    mem1: Seq<PageTable>,
    k: int,
    spare: int,
)
    requires
        k >= 0,
        stack_room(mm0, mem0, k, spare),
        forall|more: int| #[trigger]
            stack_room(mm1, mem1, 0, more) <==> stack_room(mm0, mem0, k, spare + more),
    ensures
        mm1.pmm@.free_count() == frames_left(mm0, mem0, k) - spare,
{
    reveal(stack_room);
    let free = mm1.pmm@.free_count() as int;
    assert(stack_room(mm1, mem1, 0, free));
    assert(!stack_room(mm1, mem1, 0, free + 1));
    assert(!stack_room(mm0, mem0, k, spare + (free + 1)));
}

/// A stack can be had where there is room for one, and only there.
pub proof fn lemma_stack_room(mm: MemoryManager, mem: Seq<PageTable>)
    requires
        mm.ready(mem),
    ensures
        stack_room(mm, mem, 1, 0) <==> regions::allocate_refusal(
            mm,
            mem,
            STACK_SIZE_BYTES,
        ) is None,
{
    reveal(stack_room);
    let next = mm.vmm.next_dynamic_addr;
    let root = mm.root.0 as int / 4096;
    let pool = mm.pmm@;
    let first = next as int / 4096;
    assert(next + 0x4000 <= crate::vmm::DYNAMIC_VIRT_END ==> crate::walk::page_of(next) == first);
    if pool.free_count() >= 4 && next + 0x4000 <= crate::vmm::DYNAMIC_VIRT_END {
        let fresh = regions::fresh_pages(pool, 4);
        assert forall|i: int| 0 <= i < 4 implies (#[trigger] regions::mappable(
            mem,
            root,
            next,
            i,
            fresh[i],
        ) <==> crate::walk::mapping(mem, root, first + i) is None) by {
            let addr = regions::page_addr(next, i);
            crate::pmm::lemma_nth_free(pool, i);
            assert(addr == next + 4096 * i);
            assert(addr % 4096 == 0);
            assert(crate::walk::page_of(addr) == first + i);
            assert((4096 * pool.nth_free(i)) % 4096 == 0);
        }
        if regions::allocate_refusal(mm, mem, STACK_SIZE_BYTES) is None {
            assert forall|p: int| first <= p < first + 4 implies #[trigger] crate::walk::mapping(
                mem,
                root,
                p,
            ) is None by {
                assert(regions::mappable(mem, root, next, p - first, fresh[p - first]));
            }
        }
    }
}

/// A stack takes the room for one.
pub proof fn lemma_stack_taken(
    mm0: MemoryManager,
    mem0: Seq<PageTable>,
    mm1: MemoryManager,
    mem1: Seq<PageTable>,
    k: int,
    spare: int,
)
    requires
        mm0.ready(mem0),
        k >= 0,
        stack_room(mm0, mem0, 1, 0),
        ({
            let region = stack_region(mm0.vmm.next_dynamic_addr);
            &&& mm1.vmm@ == mm0.vmm@.push(region)
            &&& mm1.vmm.next_dynamic_addr == region.limit()
            &&& regions::fresh_mapped(
                mm0,
                mem0,
                mm1,
                mem1,
                mm0.vmm.next_dynamic_addr,
                region.pages(),
                region.permissions.page_flags(),
            )
        }),
    ensures
        stack_room(mm1, mem1, k, spare) <==> stack_room(mm0, mem0, k + 1, spare),
{
    reveal(stack_room);
    let next = mm0.vmm.next_dynamic_addr;
    let first = next as int / 4096;
    let root = mm0.root.0 as int / 4096;
    assert(mm0.is_table(root));
    assert(crate::walk::page_of(next) == first);
    assert(mm1.vmm.next_dynamic_addr == next + 0x4000);
    if next + 0x4000 * (k + 1) <= crate::vmm::DYNAMIC_VIRT_END {
        crate::walk::lemma_run_missing_splits(mem0, mem1, root, first, 4, (4 * k) as nat);
        assert(4 + 4 * k == 4 * (k + 1));
        lemma_stacks_free(mm0, mem0, mm1, mem1, k);
    } else {
        assert(k > 0);
    }
}

/// What is free for stacks behind the next one stays so when that is mapped.
proof fn lemma_stacks_free(
    mm0: MemoryManager,
    mem0: Seq<PageTable>,
    mm1: MemoryManager,
    mem1: Seq<PageTable>,
    k: int,
)
    requires
        mm0.ready(mem0),
        k >= 0,
        stacks_free(mm0, mem0, 1),
        mm0.vmm.next_dynamic_addr + 0x4000 * (k + 1) <= crate::vmm::DYNAMIC_VIRT_END,
        ({
            let region = stack_region(mm0.vmm.next_dynamic_addr);
            &&& mm1.vmm@ == mm0.vmm@.push(region)
            &&& mm1.vmm.next_dynamic_addr == region.limit()
            &&& regions::fresh_mapped(
                mm0,
                mem0,
                mm1,
                mem1,
                mm0.vmm.next_dynamic_addr,
                region.pages(),
                region.permissions.page_flags(),
            )
        }),
    ensures
        k > 0 ==> (stacks_free(mm1, mem1, k) <==> stacks_free(mm0, mem0, k + 1)),
        k == 0 ==> stacks_free(mm0, mem0, k + 1),
{
    let next = mm0.vmm.next_dynamic_addr;
    let first = next as int / 4096;
    let root = mm0.root.0 as int / 4096;
    let end = next + 0x4000 * (k + 1);
    assert(mm0.is_table(root));
    assert(crate::walk::page_of(next) == first);
    assert(mm1.vmm.next_dynamic_addr == next + 0x4000);
    if k > 0 {
        assert(crate::vmm::taken(mm1.vmm@, next + 0x4000, end) <==> crate::vmm::taken(
            mm0.vmm@,
            next as int,
            end,
        )) by {
            if crate::vmm::taken(mm1.vmm@, next + 0x4000, end) {
                let i = choose|i: int|
                    0 <= i < mm1.vmm@.len() && (#[trigger] mm1.vmm@[i]).meets(next + 0x4000, end);
                assert(i < mm0.vmm@.len());
                assert(mm0.vmm@[i] == mm1.vmm@[i]);
                assert(mm0.vmm@[i].meets(next as int, end));
            }
            if crate::vmm::taken(mm0.vmm@, next as int, end) {
                let i = choose|i: int|
                    0 <= i < mm0.vmm@.len() && (#[trigger] mm0.vmm@[i]).meets(next as int, end);
                assert(!mm0.vmm@[i].meets(next as int, next + 0x4000));
                assert(crate::vmm::region_ok(mm0.vmm@[i]));
                assert(mm1.vmm@[i] == mm0.vmm@[i]);
                assert(mm1.vmm@[i].meets(next + 0x4000, end));
            }
        }
        assert forall|p: int| first + 4 <= p < first + 4 * (k + 1) implies #[trigger]
            crate::walk::mapping(mem1, root, p) == crate::walk::mapping(mem0, root, p) by {
            assert(0 <= p < crate::walk::page_limit());
        }
        if stacks_free(mm1, mem1, k) {
            assert forall|p: int| first <= p < first + 4 * (k + 1) implies #[trigger]
                crate::walk::mapping(mem0, root, p) is None by {
                if p >= first + 4 {
                    assert(crate::walk::mapping(mem1, root, p) is None);
                }
            }
        }
        if stacks_free(mm0, mem0, k + 1) {
            assert forall|p: int| first + 4 <= p < first + 4 + 4 * k implies #[trigger]
                crate::walk::mapping(mem1, root, p) is None by {
                assert(crate::walk::mapping(mem0, root, p) is None);
            }
        }
    }
}

/// Where neither the kernel's mappings and tables nor what is registered differ,
/// the room differs by the frames that are free.
pub proof fn lemma_room_same(
    mm0: MemoryManager,
    mem0: Seq<PageTable>,
    mm1: MemoryManager,
    mem1: Seq<PageTable>,
    k: int,
    spare: int,
)
    requires
        mm0.vmm.wf(),
        k >= 0,
        mm1.root == mm0.root,
        mm1.vmm@ == mm0.vmm@,
        mm1.vmm.next_dynamic_addr == mm0.vmm.next_dynamic_addr,
        forall|p: int|
            0 <= p < crate::walk::page_limit() ==> #[trigger] crate::walk::mapping(
                mem1,
                mm0.root.0 as int / 4096,
                p,
            ) == crate::walk::mapping(mem0, mm0.root.0 as int / 4096, p),
        forall|p: int, l: nat|
            0 <= p < crate::walk::page_limit() && 1 <= l <= 3 ==> #[trigger] crate::walk::table_at(
                mem1,
                mm0.root.0 as int / 4096,
                p,
                l,
            ) == crate::walk::table_at(mem0, mm0.root.0 as int / 4096, p, l),
    ensures
        stack_room(mm1, mem1, k, spare) <==> stack_room(
            mm0,
            mem0,
            k,
            spare + mm0.pmm@.free_count() - mm1.pmm@.free_count(),
        ),
{
    reveal(stack_room);
    let next = mm0.vmm.next_dynamic_addr;
    let first = next as int / 4096;
    let root = mm0.root.0 as int / 4096;
    if next + 0x4000 * k <= crate::vmm::DYNAMIC_VIRT_END {
        crate::walk::lemma_run_missing_same(mem0, mem1, root, first, (4 * k) as nat);
        assert forall|p: int| first <= p < first + 4 * k implies #[trigger] crate::walk::mapping(
            mem1,
            root,
            p,
        ) == crate::walk::mapping(mem0, root, p) by {
            assert(0 <= p < crate::walk::page_limit());
        }
        assert(stacks_free(mm1, mem1, k) <==> stacks_free(mm0, mem0, k)) by {
            if stacks_free(mm1, mem1, k) {
                assert forall|p: int| first <= p < first + 4 * k implies #[trigger]
                    crate::walk::mapping(mem0, root, p) is None by {
                    assert(crate::walk::mapping(mem1, root, p) is None);
                }
            }
        }
    }
}

/// Writing to pages that are mapped leaves the room.
pub proof fn lemma_room_kept(
    mm: MemoryManager,
    mem0: Seq<PageTable>,
    mem1: Seq<PageTable>,
    start: int,
    n: int,
    k: int,
    spare: int,
)
    requires
        mm.ready(mem0),
        k >= 0,
        window::backed(mm, mem0, start, n),
        window::only_within(mm, mem0, mem1, start, n),
    ensures
        stack_room(mm, mem1, k, spare) <==> stack_room(mm, mem0, k, spare),
{
    assert(mm.is_table(mm.root.0 as int / 4096));
    window::lemma_tables_kept(mm, mem0, mem1, start, n);
    lemma_room_same(mm, mem0, mm, mem1, k, spare);
}

/// The registry `s` once `n` stacks, one behind the other from `next` on, were
/// reserved.
pub open spec fn with_stacks(s: Seq<VirtRegion>, next: u64, n: nat) -> Seq<VirtRegion>
    decreases n,
{
    if n == 0 {
        s
    } else {
        with_stacks(s, next, (n - 1) as nat).push(stack_region((next + 0x4000 * (n - 1)) as u64))
    }
}

/// From one state to another, a stack was mapped at the next dynamic address and
/// the frame of a new context was written to its end.
pub open spec fn context_made(
    mm0: MemoryManager,
    mem0: Seq<PageTable>,
    mm1: MemoryManager,
    mem1: Seq<PageTable>,
    stack: KernelStack,
    frame: Seq<u64>,
) -> bool {
    let next = mm0.vmm.next_dynamic_addr;
    let region = stack_region(next);
    &&& stack.region == (VirtRegion { owns_physical_pages: true, ..region })
    &&& region.limit() <= crate::vmm::DYNAMIC_VIRT_END
    &&& stack.backed(mm1, mem1)
    &&& mm1.vmm@ == mm0.vmm@.push(region)
    &&& mm1.vmm.next_dynamic_addr == region.limit()
    &&& exists|mid: Seq<PageTable>| #[trigger]
        made_through(mm0, mem0, mm1, mid, mem1, stack, frame)
}

/// The stack was mapped, which left the memory `mid`, and then written to.
pub open spec fn made_through(
    mm0: MemoryManager,
    mem0: Seq<PageTable>,
    mm1: MemoryManager,
    mid: Seq<PageTable>,
    mem1: Seq<PageTable>,
    stack: KernelStack,
    frame: Seq<u64>,
) -> bool {
    let next = mm0.vmm.next_dynamic_addr;
    let region = stack_region(next);
    &&& regions::fresh_mapped(
        mm0,
        mem0,
        mm1,
        mid,
        next,
        region.pages(),
        region.permissions.page_flags(),
    )
    &&& mm1.ready(mid)
    &&& stack.backed(mm1, mid)
    &&& window::only_within(mm1, mid, mem1, next as int, region.pages())
    &&& stack.words(mm1, mem1) == with_frame(
        stack.words(mm1, mid),
        stack.words(mm1, mid).len() - FRAME_WORDS,
        frame,
    )
}

} // verus!
