//! Interrupts: the entries of the processor, who handles which request, and what
//! is said of an exception.

use vstd::prelude::*;
use crate::gdt::{DescriptorTablePointer, KERNEL_CODE_SELECTOR};

verus! {

/// The vector of interrupt request 0.
pub const IRQ_BASE_VECTOR: u8 = 32;

/// The vector of interrupts that nobody asked for.
pub const SPURIOUS_VECTOR: u8 = 255;

/// The entries of the processor.
pub const IDT_ENTRIES: usize = 256;

/// The bytes of all entries.
pub const IDT_SIZE: u16 = 4096;

/// The interrupt requests.
pub const IRQ_COUNT: usize = 16;

/// The exceptions.
pub const EXCEPTION_COUNT: usize = 32;

/// How often something that nobody handles is reported.
pub const REPORT_LIMIT: u32 = 5;

/// The type of a present interrupt entry.
pub const INTERRUPT_ENTRY: u8 = 0x8E;

/// The address of a function that handles an interrupt request.
pub type IrqHandler = u64;

#[derive(Copy, Clone, Debug, PartialEq, Eq, Structural)]
pub struct IdtEntry {
    pub offset_low: u16,
    pub selector: u16,
    pub ist: u8,
    pub type_attr: u8,
    pub offset_mid: u16,
    pub offset_high: u32,
    pub reserved: u32,
}

impl IdtEntry {
    pub open spec fn spec_missing() -> IdtEntry {
        IdtEntry {
            offset_low: 0,
            selector: 0,
            ist: 0,
            type_attr: 0,
            offset_mid: 0,
            offset_high: 0,
            reserved: 0,
        }
    }

    /// The entry to `handler`.
    pub open spec fn leading_to(handler: u64) -> IdtEntry {
        IdtEntry {
            offset_low: (handler as int % 0x1_0000) as u16,
            selector: KERNEL_CODE_SELECTOR,
            ist: 0,
            type_attr: INTERRUPT_ENTRY,
            offset_mid: (handler as int / 0x1_0000 % 0x1_0000) as u16,
            offset_high: (handler as int / 0x1_0000_0000) as u32,
            reserved: 0,
        }
    }

    /// Where the entry leads.
    pub open spec fn target(self) -> int {
        self.offset_low + self.offset_mid * 0x1_0000 + self.offset_high * 0x1_0000_0000
    }

    /// An entry that is not there.
    pub fn missing() -> (r: Self)
        ensures
            r == IdtEntry::spec_missing(),
    {
        Self {
            offset_low: 0,
            selector: 0,
            ist: 0,
            type_attr: 0,
            offset_mid: 0,
            offset_high: 0,
            reserved: 0,
        }
    }

    /// Makes this the entry to `handler`.
    pub fn set_handler(&mut self, handler: u64)
        ensures
            *final(self) == IdtEntry::leading_to(handler),
    {
        self.offset_low = (handler % 0x1_0000) as u16;
        self.selector = KERNEL_CODE_SELECTOR;
        self.ist = 0;
        self.type_attr = INTERRUPT_ENTRY;
        self.offset_mid = (handler / 0x1_0000 % 0x1_0000) as u16;
        self.offset_high = (handler / 0x1_0000_0000) as u32;
        self.reserved = 0;
    }
}

/// The entry to a handler leads there.
pub proof fn lemma_entry_leads(handler: u64)
    ensures
        IdtEntry::leading_to(handler).target() == handler,
{
    let h = handler as int;
    assert(h / 0x1_0000_0000 <= u32::MAX);
    assert(h == h % 0x1_0000 + h / 0x1_0000 % 0x1_0000 * 0x1_0000 + h / 0x1_0000_0000
        * 0x1_0000_0000);
}

pub struct InterruptDescriptorTable {
    pub entries: [IdtEntry; 256],
}

/// Where the interrupts are taken: one address for each exception and for each
/// request, one for other interrupts and one for those that nobody asked for.
pub struct InterruptStubs {
    pub exceptions: [u64; 32],
    pub irqs: [u64; 16],
    pub generic: u64,
    pub spurious: u64,
}

impl InterruptStubs {
    /// Where the interrupt with vector `vector` is taken.
    pub open spec fn taken_at(&self, vector: int) -> u64 {
        if vector < 32 {
            self.exceptions@[vector]
        } else if vector < 48 {
            self.irqs@[vector - 32]
        } else if vector < 255 {
            self.generic
        } else {
            self.spurious
        }
    }
}

impl InterruptDescriptorTable {
    /// A table without entries.
    pub fn new() -> (r: Self)
        ensures
            forall|v: int| 0 <= v < 256 ==> #[trigger] r.entries@[v] == IdtEntry::spec_missing(),
    {
        Self { entries: [IdtEntry::missing(); 256] }
    }

    /// Makes the entry at `vector`, if there is one, lead to `handler`.
    pub fn set_entry(&mut self, vector: usize, handler: u64)
        ensures
            final(self).entries@ == if vector < 256 {
                old(self).entries@.update(vector as int, IdtEntry::leading_to(handler))
            } else {
                old(self).entries@
            },
    {
        if vector < IDT_ENTRIES {
            let mut entry = self.entries[vector];
            entry.set_handler(handler);
            self.entries[vector] = entry;
            assert(self.entries@ =~= old(self).entries@.update(
                vector as int,
                IdtEntry::leading_to(handler),
            ));
        }
    }

    /// What the processor is told of the table, which is at `base`.
    pub fn pointer(&self, base: u64) -> (r: DescriptorTablePointer)
        ensures
            r == (DescriptorTablePointer { limit: (IDT_SIZE - 1) as u16, base }),
            r.limit == 4095,
    {
        DescriptorTablePointer { limit: IDT_SIZE - 1, base }
    }
}

/// Every entry leads to where its interrupt is taken.
pub open spec fn entries_set(idt: InterruptDescriptorTable, stubs: InterruptStubs) -> bool {
    forall|v: int|
        0 <= v < 256 ==> #[trigger] idt.entries@[v] == IdtEntry::leading_to(stubs.taken_at(v))
}

/// The three parts of the offset in `e`, the lowest 16 bits first, make up `addr`.
pub open spec fn leads(e: IdtEntry, addr: int) -> bool {
    e.offset_low + e.offset_mid * 0x1_0000 + e.offset_high * 0x1_0000_0000 == addr
}

/// Sets all entries; what the processor is to be told of the table follows from
/// its address.
pub fn init(idt: &mut InterruptDescriptorTable, stubs: &InterruptStubs)
    ensures
        entries_set(*final(idt), *stubs),
        forall|v: int|
            0 <= v < 32 ==> (#[trigger] final(idt).entries@[v]).target() == stubs.exceptions@[v],
        forall|irq: int|
            0 <= irq < 16 ==> final(idt).entries@[32 + irq].target() == #[trigger] stubs.irqs@[irq],
        forall|v: int|
            48 <= v < 255 ==> (#[trigger] final(idt).entries@[v]).target() == stubs.generic,
        final(idt).entries@[255].target() == stubs.spurious,
{
    let mut vector: usize = 0;
    while vector < EXCEPTION_COUNT
        invariant
            vector <= EXCEPTION_COUNT,
            forall|v: int|
                0 <= v < vector ==> #[trigger] idt.entries@[v] == IdtEntry::leading_to(stubs.taken_at(v)),
        decreases EXCEPTION_COUNT - vector,
    {
        idt.set_entry(vector, stubs.exceptions[vector]);
        vector = vector + 1;
    }
    let mut irq: usize = 0;
    while irq < IRQ_COUNT
        invariant
            irq <= IRQ_COUNT,
            forall|v: int|
                0 <= v < 32 + irq ==> #[trigger] idt.entries@[v] == IdtEntry::leading_to(
                    stubs.taken_at(v),
                ),
        decreases IRQ_COUNT - irq,
    {
        idt.set_entry(IRQ_BASE_VECTOR as usize + irq, stubs.irqs[irq]);
        irq = irq + 1;
    }
    vector = 48;
    while vector < SPURIOUS_VECTOR as usize
        invariant
            48 <= vector <= 255,
            forall|v: int|
                0 <= v < vector ==> #[trigger] idt.entries@[v] == IdtEntry::leading_to(stubs.taken_at(v)),
        decreases 255 - vector,
    {
        idt.set_entry(vector, stubs.generic);
        vector = vector + 1;
    }
    idt.set_entry(SPURIOUS_VECTOR as usize, stubs.spurious);
    proof {
        lemma_entries_lead(*idt, *stubs);
    }
}

/// Every entry is present, for the kernel's code and without a stack of its own, and
/// leads to the stub of its vector: the first 32 to those of the exceptions, the next
/// 16 to those of the requests in turn, the last to the one for what nobody asked
/// for, and the rest to the generic one.
pub proof fn lemma_entries_lead(idt: InterruptDescriptorTable, stubs: InterruptStubs)
    requires
        entries_set(idt, stubs),
    ensures
        forall|v: int| 0 <= v < 32 ==> leads(#[trigger] idt.entries@[v], stubs.exceptions@[v] as int),
        forall|irq: int|
            0 <= irq < 16 ==> leads(idt.entries@[32 + irq], #[trigger] stubs.irqs@[irq] as int),
        forall|v: int| 48 <= v < 255 ==> leads(#[trigger] idt.entries@[v], stubs.generic as int),
        leads(idt.entries@[255], stubs.spurious as int),
        forall|v: int|
            0 <= v < 256 ==> {
                &&& (#[trigger] idt.entries@[v]).selector == 0x08
                &&& idt.entries@[v].type_attr == 0x8E
                &&& idt.entries@[v].ist == 0
                &&& idt.entries@[v].reserved == 0
            },
{
    assert forall|v: int| 0 <= v < 256 implies leads(
        #[trigger] idt.entries@[v],
        stubs.taken_at(v) as int,
    ) by {
        lemma_entry_leads(stubs.taken_at(v));
    }
    assert forall|irq: int| 0 <= irq < 16 implies leads(
        idt.entries@[32 + irq],
        #[trigger] stubs.irqs@[irq] as int,
    ) by {
        assert(leads(idt.entries@[32 + irq], stubs.taken_at(32 + irq) as int));
    }
}

/// Who handles which interrupt request, and how many came that nobody handles.
pub struct IrqTable {
    pub handlers: [Option<IrqHandler>; 16],
    pub unhandled: [u32; 16],
    pub unexpected: u32,
}

impl IrqTable {
    /// Nobody handles anything.
    pub fn new() -> (r: Self)
        ensures
            forall|i: int| 0 <= i < 16 ==> #[trigger] r.handlers@[i] is None,
            forall|i: int| 0 <= i < 16 ==> #[trigger] r.unhandled@[i] == 0,
            r.unexpected == 0,
    {
        Self { handlers: [None; 16], unhandled: [0; 16], unexpected: 0 }
    }
}

/// Lets `handler` handle interrupt request `irq`.
pub fn register_irq(table: &mut IrqTable, irq: u8, handler: IrqHandler) -> (r: Result<
    (),
    &'static str,
>)
    ensures
        final(table).unhandled == old(table).unhandled,
        final(table).unexpected == old(table).unexpected,
        if irq < 16 {
            &&& r == Ok::<(), &'static str>(())
            &&& final(table).handlers@ == old(table).handlers@.update(irq as int, Some(handler))
        } else {
            &&& r == Err::<(), &'static str>("IRQ index out of valid range (0..15)")
            &&& final(table).handlers == old(table).handlers
        },
{
    if irq as usize >= IRQ_COUNT {
        return Err("IRQ index out of valid range (0..15)");
    }
    table.handlers[irq as usize] = Some(handler);
    assert(table.handlers@ =~= old(table).handlers@.update(irq as int, Some(handler)));
    Ok(())
}

/// Lets nobody handle interrupt request `irq`.
pub fn unregister_irq(table: &mut IrqTable, irq: u8) -> (r: Result<(), &'static str>)
    ensures
        final(table).unhandled == old(table).unhandled,
        final(table).unexpected == old(table).unexpected,
        if irq < 16 {
            &&& r == Ok::<(), &'static str>(())
            &&& final(table).handlers@ == old(table).handlers@.update(irq as int, None)
        } else {
            &&& r == Err::<(), &'static str>("IRQ index out of valid range (0..15)")
            &&& final(table).handlers == old(table).handlers
        },
{
    if irq as usize >= IRQ_COUNT {
        return Err("IRQ index out of valid range (0..15)");
    }
    table.handlers[irq as usize] = None;
    assert(table.handlers@ =~= old(table).handlers@.update(irq as int, None));
    Ok(())
}

/// What is to be done with an interrupt before its end is signalled.
#[derive(Copy, Clone, Debug, PartialEq, Eq, Structural)]
pub enum IrqAction {
    /// Call the handler with the number of the request.
    Call(IrqHandler, u8),
    /// Report that nobody handles the interrupt.
    Report,
    /// Nothing.
    Pass,
}

/// What is to be done with interrupt request `irq`, with these handlers and after
/// that many requests that nobody handled.
pub open spec fn dispatched(
    handlers: Seq<Option<IrqHandler>>,
    unhandled: Seq<u32>,
    irq: u64,
) -> IrqAction {
    if irq >= 16 {
        IrqAction::Pass
    } else {
        match handlers[irq as int] {
            Some(h) => IrqAction::Call(h, irq as u8),
            None => if unhandled[irq as int] < REPORT_LIMIT {
                IrqAction::Report
            } else {
                IrqAction::Pass
            },
        }
    }
}

/// Decides what is to be done with interrupt request `irq`. One that nobody
/// handles is counted, and reported the first few times. The end of the
/// interrupt is signalled in any case.
pub fn irq_dispatcher(table: &mut IrqTable, irq: u64) -> (r: IrqAction)
    ensures
        final(table).handlers == old(table).handlers,
        final(table).unexpected == old(table).unexpected,
        r == dispatched(old(table).handlers@, old(table).unhandled@, irq),
        final(table).unhandled@ == if irq < 16 && old(table).handlers@[irq as int] is None {
            let count = old(table).unhandled@[irq as int];
            old(table).unhandled@.update(
                irq as int,
                if count < u32::MAX {
                    (count + 1) as u32
                } else {
                    0
                },
            )
        } else {
            old(table).unhandled@
        },
{
    if irq >= IRQ_COUNT as u64 {
        return IrqAction::Pass;
    }
    let i: usize = irq as usize;
    match table.handlers[i] {
        Some(h) => IrqAction::Call(h, irq as u8),
        None => {
            let count: u32 = table.unhandled[i];
            table.unhandled[i] = count.wrapping_add(1);
            assert(table.unhandled@ =~= old(table).unhandled@.update(
                i as int,
                count.wrapping_add(1),
            ));
            if count < REPORT_LIMIT {
                IrqAction::Report
            } else {
                IrqAction::Pass
            }
        },
    }
}

/// What is done with a request: it is passed over if its number is none of the 16, its
/// handler is called with its number if it has one, and else it is reported if it is
/// one of the first five that nobody handles.
pub proof fn lemma_dispatched(
    handlers: Seq<Option<IrqHandler>>,
    unhandled: Seq<u32>,
    irq: u64,
    handler: IrqHandler,
)
    requires
        handlers.len() == 16,
    ensures
        irq >= 16 ==> dispatched(handlers, unhandled, irq) == IrqAction::Pass,
        irq < 16 && handlers[irq as int] == Some(handler) ==> dispatched(handlers, unhandled, irq)
            == IrqAction::Call(handler, irq as u8),
        irq < 16 && handlers[irq as int] is None && unhandled[irq as int] < 5 ==> dispatched(
            handlers,
            unhandled,
            irq,
        ) == IrqAction::Report,
        irq < 16 && handlers[irq as int] is None && unhandled[irq as int] >= 5 ==> dispatched(
            handlers,
            unhandled,
            irq,
        ) == IrqAction::Pass,
{
}

/// A handler that is registered is called for its request, and for no other one
/// that it was not called for before.
pub proof fn lemma_registered_called(
    handlers: Seq<Option<IrqHandler>>,
    unhandled: Seq<u32>,
    irq: u8,
    handler: IrqHandler,
    other: u64,
)
    requires
        handlers.len() == 16,
        irq < 16,
    ensures
        ({
            let after = handlers.update(irq as int, Some(handler));
            &&& dispatched(after, unhandled, irq as u64) == IrqAction::Call(handler, irq)
            &&& other != irq ==> dispatched(after, unhandled, other) == dispatched(
                handlers,
                unhandled,
                other,
            )
        }),
{
}

/// No handler is called for a request whose handler was taken away.
pub proof fn lemma_unregistered_not_called(
    handlers: Seq<Option<IrqHandler>>,
    unhandled: Seq<u32>,
    irq: u8,
)
    requires
        handlers.len() == 16,
        irq < 16,
    ensures
        !(dispatched(handlers.update(irq as int, None), unhandled, irq as u64) is Call),
{
}

/// Decides what is to be done with an interrupt that has no number: it is
/// counted, and reported the first few times. Its end is signalled in any case.
pub fn generic_interrupt_dispatcher(table: &mut IrqTable) -> (r: IrqAction)
    ensures
        final(table).handlers == old(table).handlers,
        final(table).unhandled == old(table).unhandled,
        final(table).unexpected == if old(table).unexpected < u32::MAX {
            (old(table).unexpected + 1) as u32
        } else {
            0
        },
        r == if old(table).unexpected < 5 {
            IrqAction::Report
        } else {
            IrqAction::Pass
        },
{
    let count: u32 = table.unexpected;
    table.unexpected = count.wrapping_add(1);
    if count < REPORT_LIMIT {
        IrqAction::Report
    } else {
        IrqAction::Pass
    }
}

#[derive(Copy, Clone, Debug, PartialEq, Eq, Structural)]
pub struct Registers {
    pub r15: u64,
    pub r14: u64,
    pub r13: u64,
    pub r12: u64,
    pub r11: u64,
    pub r10: u64,
    pub r9: u64,
    pub r8: u64,
    pub rbp: u64,
    pub rdi: u64,
    pub rsi: u64,
    pub rdx: u64,
    pub rcx: u64,
    pub rbx: u64,
    pub rax: u64,
}

#[derive(Copy, Clone, Debug, PartialEq, Eq, Structural)]
pub struct ExceptionFrame {
    pub regs: Registers,
    pub vector: u64,
    pub error_code: u64,
    pub rip: u64,
    pub cs: u64,
    pub rflags: u64,
    pub rsp: u64,
    pub ss: u64,
}

/// The exception with vector `vector`, in words.
pub open spec fn exception_title(vector: u64) -> Seq<char> {
    match vector {
        0 => "Divide Error (#DE)"@,
        1 => "Debug (#DB)"@,
        2 => "Non-Maskable Interrupt (#NMI)"@,
        3 => "Breakpoint (#BP)"@,
        4 => "Overflow (#OF)"@,
        5 => "Bound Range Exceeded (#BR)"@,
        6 => "Invalid Opcode (#UD)"@,
        7 => "Device Not Available (#NM)"@,
        8 => "Double Fault (#DF)"@,
        9 => "Coprocessor Segment Overrun"@,
        10 => "Invalid TSS (#TS)"@,
        11 => "Segment Not Present (#NP)"@,
        12 => "Stack-Segment Fault (#SS)"@,
        13 => "General Protection Fault (#GP)"@,
        14 => "Page Fault (#PF)"@,
        16 => "x87 Floating-Point Exception (#MF)"@,
        17 => "Alignment Check (#AC)"@,
        18 => "Machine Check (#MC)"@,
        19 => "SIMD Floating-Point Exception (#XM)"@,
        20 => "Virtualization Exception (#VE)"@,
        21 => "Control Protection Exception (#CP)"@,
        28 => "Hypervisor Injection Exception (#HV)"@,
        29 => "VMM Communication Exception (#VC)"@,
        30 => "Security Exception (#SX)"@,
        _ => if vector < EXCEPTION_COUNT {
            "Reserved"@
        } else {
            "Unknown Exception"@
        },
    }
}

/// The exception with vector `vector`, in words.
pub fn exception_name(vector: u64) -> (r: &'static str)
    ensures
        r@ == exception_title(vector),
        vector == 0 ==> r@ == "Divide Error (#DE)"@,
        vector == 1 ==> r@ == "Debug (#DB)"@,
        vector == 2 ==> r@ == "Non-Maskable Interrupt (#NMI)"@,
        vector == 3 ==> r@ == "Breakpoint (#BP)"@,
        vector == 4 ==> r@ == "Overflow (#OF)"@,
        vector == 5 ==> r@ == "Bound Range Exceeded (#BR)"@,
        vector == 6 ==> r@ == "Invalid Opcode (#UD)"@,
        vector == 7 ==> r@ == "Device Not Available (#NM)"@,
        vector == 8 ==> r@ == "Double Fault (#DF)"@,
        vector == 9 ==> r@ == "Coprocessor Segment Overrun"@,
        vector == 10 ==> r@ == "Invalid TSS (#TS)"@,
        vector == 11 ==> r@ == "Segment Not Present (#NP)"@,
        vector == 12 ==> r@ == "Stack-Segment Fault (#SS)"@,
        vector == 13 ==> r@ == "General Protection Fault (#GP)"@,
        vector == 14 ==> r@ == "Page Fault (#PF)"@,
        vector == 16 ==> r@ == "x87 Floating-Point Exception (#MF)"@,
        vector == 17 ==> r@ == "Alignment Check (#AC)"@,
        vector == 18 ==> r@ == "Machine Check (#MC)"@,
        vector == 19 ==> r@ == "SIMD Floating-Point Exception (#XM)"@,
        vector == 20 ==> r@ == "Virtualization Exception (#VE)"@,
        vector == 21 ==> r@ == "Control Protection Exception (#CP)"@,
        vector == 28 ==> r@ == "Hypervisor Injection Exception (#HV)"@,
        vector == 29 ==> r@ == "VMM Communication Exception (#VC)"@,
        vector == 30 ==> r@ == "Security Exception (#SX)"@,
        vector == 15 || 22 <= vector <= 27 || vector == 31 ==> r@ == "Reserved"@,
        vector >= 32 ==> r@ == "Unknown Exception"@,
{
    match vector {
        0 => "Divide Error (#DE)",
        1 => "Debug (#DB)",
        2 => "Non-Maskable Interrupt (#NMI)",
        3 => "Breakpoint (#BP)",
        4 => "Overflow (#OF)",
        5 => "Bound Range Exceeded (#BR)",
        6 => "Invalid Opcode (#UD)",
        7 => "Device Not Available (#NM)",
        8 => "Double Fault (#DF)",
        9 => "Coprocessor Segment Overrun",
        10 => "Invalid TSS (#TS)",
        11 => "Segment Not Present (#NP)",
        12 => "Stack-Segment Fault (#SS)",
        13 => "General Protection Fault (#GP)",
        14 => "Page Fault (#PF)",
        16 => "x87 Floating-Point Exception (#MF)",
        17 => "Alignment Check (#AC)",
        18 => "Machine Check (#MC)",
        19 => "SIMD Floating-Point Exception (#XM)",
        20 => "Virtualization Exception (#VE)",
        21 => "Control Protection Exception (#CP)",
        28 => "Hypervisor Injection Exception (#HV)",
        29 => "VMM Communication Exception (#VC)",
        30 => "Security Exception (#SX)",
        _ => if vector < EXCEPTION_COUNT as u64 {
            "Reserved"
        } else {
            "Unknown Exception"
        },
    }
}

/// What the error code of a page fault says: whether the page was present,
/// whether it was written to, whether user code did, whether an entry had
/// reserved bits, and whether an instruction was fetched.
#[derive(Copy, Clone, Debug, PartialEq, Eq, Structural)]
pub struct PageFaultFlags {
    pub present: u64,
    pub write: u64,
    pub user: u64,
    pub reserved: u64,
    pub fetch: u64,
}

/// What is to be done with an exception.
#[derive(Copy, Clone, Debug, PartialEq, Eq, Structural)]
pub enum ExceptionOutcome {
    /// Report the breakpoint and go on.
    Resume,
    /// Report the registers, the fault's flags and the address in `CR2` where it
    /// was a page fault, and stop for good.
    Halt(Option<PageFaultFlags>),
}

/// Decides what is to be done with an exception, in a state in which interrupts
/// and the firmware's console are off.
pub fn exception_dispatcher(frame: &ExceptionFrame) -> (r: (&'static str, ExceptionOutcome))
    ensures
        r.0@ == exception_title(frame.vector),
        r.1 == if frame.vector == 3 {
            ExceptionOutcome::Resume
        } else if frame.vector == 14 {
            let e = frame.error_code;
            ExceptionOutcome::Halt(
                Some(
                    PageFaultFlags {
                        present: e % 2,
                        write: e / 2 % 2,
                        user: e / 4 % 2,
                        reserved: e / 8 % 2,
                        fetch: e / 16 % 2,
                    },
                ),
            )
        } else {
            ExceptionOutcome::Halt(None)
        },
{
    let name = exception_name(frame.vector);
    if frame.vector == 3 {
        return (name, ExceptionOutcome::Resume);
    }
    if frame.vector == 14 {
        let e: u64 = frame.error_code;
        let flags = PageFaultFlags {
            present: e % 2,
            write: e / 2 % 2,
            user: e / 4 % 2,
            reserved: e / 8 % 2,
            fetch: e / 16 % 2,
        };
        return (name, ExceptionOutcome::Halt(Some(flags)));
    }
    (name, ExceptionOutcome::Halt(None))
}

} // verus!
