use ventura::apic::{
    disable_pic, enabled_base, eoi, init_ioapic, init_lapic, mask_irq, route_irq,
    start_lapic_timer, unmask_irq, IoapicWrite, LapicWrite, LAPIC_DFR, LAPIC_EOI, LAPIC_LDR,
    LAPIC_LVT_ERROR, LAPIC_LVT_TIMER, LAPIC_SVR, LAPIC_TIMER_DCR, LAPIC_TIMER_ICR, LAPIC_TPR,
};
use ventura::gdt::{
    GlobalDescriptorTable, TaskStateSegment, KERNEL_CODE_SELECTOR, KERNEL_DATA_SELECTOR,
    TSS_SELECTOR, USER_CODE_SELECTOR, USER_DATA_SELECTOR,
};
use ventura::idt::{
    exception_dispatcher, exception_name, generic_interrupt_dispatcher, init, irq_dispatcher,
    register_irq, unregister_irq, ExceptionFrame, ExceptionOutcome, IdtEntry,
    InterruptDescriptorTable, InterruptStubs, IrqAction, IrqTable, PageFaultFlags, Registers,
};
use ventura::logger::{
    disable_uefi_console, write_serial_byte, write_str_raw, KernelWriter, LogState, SerialStep,
};
use ventura::platform::{
    are_interrupts_enabled, enable_nxe, rdmsr, without_interrupts, wrmsr, PortWrite,
};
use ventura::timer::{current_ticks, timer_irq_handler, Ticks};

#[test]
fn selectors() {
    assert_eq!(KERNEL_CODE_SELECTOR, 0x08);
    assert_eq!(KERNEL_DATA_SELECTOR, 0x10);
    assert_eq!(USER_DATA_SELECTOR, 0x1B);
    assert_eq!(USER_CODE_SELECTOR, 0x23);
    assert_eq!(TSS_SELECTOR, 0x28);
}

#[test]
fn task_state_segment_has_no_port_map() {
    let tss = TaskStateSegment::new();
    assert_eq!(tss.iomap_base, 104);
    assert_eq!(tss.ist, [0; 7]);
    assert_eq!(tss.rsp0, 0);
}

#[test]
fn task_state_segment_is_described() {
    let mut gdt = GlobalDescriptorTable::new();
    assert_eq!(gdt.entries[1], 0x00AF_9A00_0000_FFFF);
    gdt.set_tss(0x1234_5678_9ABC_DEF0);
    assert_eq!(gdt.entries[5], 0x9A00_89BC_DEF0_0067);
    assert_eq!(gdt.entries[6], 0x1234_5678);
    assert_eq!(gdt.entries[4], 0x00AF_FA00_0000_FFFF);
    let p = gdt.pointer(0x7000);
    assert_eq!(p.limit, 63);
    assert_eq!(p.base, 0x7000);
}

#[test]
fn entries_are_set_for_every_vector() {
    let mut stubs = InterruptStubs {
        exceptions: [0; 32],
        irqs: [0; 16],
        generic: 0xAAAA_0000,
        spurious: 0xBBBB_0000,
    };
    for i in 0..32 {
        stubs.exceptions[i] = 0xFFFF_8000_1234_0000 + i as u64;
    }
    for i in 0..16 {
        stubs.irqs[i] = 0x5000 + i as u64;
    }
    let mut idt = InterruptDescriptorTable::new();
    assert_eq!(idt.entries[200], IdtEntry::missing());
    init(&mut idt, &stubs);
    let e = idt.entries[14];
    assert_eq!(e.offset_low, 0x000E);
    assert_eq!(e.offset_mid, 0x1234);
    assert_eq!(e.offset_high, 0xFFFF_8000);
    assert_eq!(e.selector, 0x08);
    assert_eq!(e.type_attr, 0x8E);
    assert_eq!(idt.entries[36].offset_low, 0x5004);
    assert_eq!(idt.entries[48].offset_mid, 0xAAAA);
    assert_eq!(idt.entries[254].offset_mid, 0xAAAA);
    assert_eq!(idt.entries[255].offset_mid, 0xBBBB);
    let before = idt.entries[255];
    idt.set_entry(256, 1);
    assert_eq!(idt.entries[255], before);
    assert_eq!(idt.pointer(0x9000).limit, 4095);
}

#[test]
fn requests_are_dispatched() {
    let mut table = IrqTable::new();
    assert_eq!(register_irq(&mut table, 16, 7), Err("IRQ index out of valid range (0..15)"));
    assert_eq!(unregister_irq(&mut table, 200), Err("IRQ index out of valid range (0..15)"));
    assert_eq!(register_irq(&mut table, 4, 0xCAFE), Ok(()));
    assert_eq!(irq_dispatcher(&mut table, 4), IrqAction::Call(0xCAFE, 4));
    assert_eq!(unregister_irq(&mut table, 4), Ok(()));
    for _ in 0..5 {
        assert_eq!(irq_dispatcher(&mut table, 4), IrqAction::Report);
    }
    assert_eq!(irq_dispatcher(&mut table, 4), IrqAction::Pass);
    assert_eq!(irq_dispatcher(&mut table, 5), IrqAction::Report);
    assert_eq!(irq_dispatcher(&mut table, 16), IrqAction::Pass);
    assert_eq!(table.unhandled[4], 6);
    for _ in 0..5 {
        assert_eq!(generic_interrupt_dispatcher(&mut table), IrqAction::Report);
    }
    assert_eq!(generic_interrupt_dispatcher(&mut table), IrqAction::Pass);
    table.unexpected = u32::MAX;
    assert_eq!(generic_interrupt_dispatcher(&mut table), IrqAction::Pass);
    assert_eq!(generic_interrupt_dispatcher(&mut table), IrqAction::Report);
}

fn frame(vector: u64, error_code: u64) -> ExceptionFrame {
    ExceptionFrame {
        regs: Registers {
            r15: 0,
            r14: 0,
            r13: 0,
            r12: 0,
            r11: 0,
            r10: 0,
            r9: 0,
            r8: 0,
            rbp: 0,
            rdi: 0,
            rsi: 0,
            rdx: 0,
            rcx: 0,
            rbx: 0,
            rax: 0,
        },
        vector,
        error_code,
        rip: 0,
        cs: 8,
        rflags: 0x202,
        rsp: 0,
        ss: 0x10,
    }
}

#[test]
fn exceptions_are_decided() {
    assert_eq!(
        exception_dispatcher(&frame(3, 0)),
        ("Breakpoint (#BP)", ExceptionOutcome::Resume)
    );
    assert_eq!(
        exception_dispatcher(&frame(14, 0b10110)),
        (
            "Page Fault (#PF)",
            ExceptionOutcome::Halt(Some(PageFaultFlags {
                present: 0,
                write: 1,
                user: 1,
                reserved: 0,
                fetch: 1,
            }))
        )
    );
    assert_eq!(
        exception_dispatcher(&frame(0, 0)),
        ("Divide Error (#DE)", ExceptionOutcome::Halt(None))
    );
    assert_eq!(exception_name(15), "Reserved");
    assert_eq!(exception_name(27), "Reserved");
    assert_eq!(exception_name(29), "VMM Communication Exception (#VC)");
    assert_eq!(exception_name(31), "Reserved");
    assert_eq!(exception_name(32), "Unknown Exception");
}

#[test]
fn local_controller_is_set_up() {
    let w = init_lapic(0x0500_0000);
    assert_eq!(w[0], LapicWrite { reg: LAPIC_DFR, value: 0xFFFF_FFFF });
    assert_eq!(w[1], LapicWrite { reg: LAPIC_LDR, value: 0x0500_0000 });
    assert_eq!(w[2], LapicWrite { reg: LAPIC_TPR, value: 0 });
    assert_eq!(w[6], LapicWrite { reg: LAPIC_LVT_ERROR, value: 0x1_0000 });
    assert_eq!(w[7], LapicWrite { reg: LAPIC_SVR, value: 0x1FF });
    assert_eq!(w[8], eoi());
    assert_eq!(eoi(), LapicWrite { reg: LAPIC_EOI, value: 0 });
    assert_eq!(enabled_base(0xFEE0_0100), 0xFEE0_0900);
    assert_eq!(enabled_base(0xFEE0_0900), 0xFEE0_0900);
    assert_eq!(disable_pic()[1], PortWrite { port: 0xA1, value: 0xFF });
}

#[test]
fn requests_are_routed() {
    assert_eq!(
        route_irq(4, 36, 2, false),
        [IoapicWrite { reg: 0x18, value: 36 }, IoapicWrite { reg: 0x19, value: 0x0200_0000 }]
    );
    let w = init_ioapic(0x0017_0011);
    assert_eq!(w.len(), 48);
    assert_eq!(w[0], IoapicWrite { reg: 0x10, value: 0x1_0020 });
    assert_eq!(w[46], IoapicWrite { reg: 0x3E, value: 0x1_0037 });
    assert_eq!(w[47], IoapicWrite { reg: 0x3F, value: 0 });
    assert_eq!(init_ioapic(0x00FF_0000).len(), 0);
}

#[test]
fn requests_are_masked_and_unmasked() {
    assert_eq!(mask_irq(4, 0x24), IoapicWrite { reg: 0x18, value: 0x1_0024 });
    assert_eq!(mask_irq(4, 0x1_0024), IoapicWrite { reg: 0x18, value: 0x1_0024 });
    assert_eq!(unmask_irq(4, 0x1_0024), IoapicWrite { reg: 0x18, value: 0x24 });
    assert_eq!(unmask_irq(4, 0x24), IoapicWrite { reg: 0x18, value: 0x24 });
    assert_eq!(unmask_irq(0, 0xFFFF_FFFF), IoapicWrite { reg: 0x10, value: 0xFFFE_FFFF });
}

#[test]
fn timer_starts_and_ticks() {
    let mut table = IrqTable::new();
    let w = ventura::timer::init(&mut table, 0xF00D);
    assert_eq!(table.handlers[0], Some(0xF00D));
    assert_eq!(w[0], LapicWrite { reg: LAPIC_TIMER_DCR, value: 3 });
    assert_eq!(w[1], LapicWrite { reg: LAPIC_LVT_TIMER, value: 0x2_0020 });
    assert_eq!(w[2], LapicWrite { reg: LAPIC_TIMER_ICR, value: 0x10_0000 });
    assert_eq!(start_lapic_timer(33, 5, 1)[1].value, 0x2_0021);
    let mut ticks = Ticks::new();
    let mut reports = Vec::new();
    for _ in 0..350 {
        if let Some(n) = timer_irq_handler(&mut ticks) {
            reports.push(n);
        }
    }
    assert_eq!(reports, vec![100, 200, 300]);
    assert_eq!(current_ticks(&ticks), 350);
}

#[test]
fn every_hundredth_tick_is_reported() {
    let mut ticks = Ticks { count: 95 };
    for i in 1..=120u64 {
        let before = current_ticks(&ticks);
        let report = timer_irq_handler(&mut ticks);
        assert_eq!(current_ticks(&ticks), before + 1);
        assert_eq!(current_ticks(&ticks), 95 + i);
        assert_eq!(report, if i == 5 || i == 105 { Some(95 + i) } else { None });
    }
    assert_eq!(current_ticks(&ticks), 215);
}

#[test]
fn flags_and_registers() {
    assert!(are_interrupts_enabled(0x202));
    assert!(!are_interrupts_enabled(0x102));
    assert_eq!(rdmsr(0x89AB_CDEF, 0x0123_4567), 0x0123_4567_89AB_CDEF);
    assert_eq!(wrmsr(0x0123_4567_89AB_CDEF), (0x89AB_CDEF, 0x0123_4567));
    assert_eq!(enable_nxe(0x500), Some(0xD00));
    assert_eq!(enable_nxe(0xD00), None);
    assert_eq!(enable_nxe(0xFFFF_FFFF_FFFF_F7FF), Some(u64::MAX));
}

/// A processor that notes what is done in it.
struct Noting {
    on: bool,
    steps: Vec<&'static str>,
}

impl Noting {
    fn step(mut self, on: bool, step: &'static str) -> Noting {
        self.on = on;
        self.steps.push(step);
        self
    }

    fn rflags(&self) -> u64 {
        if self.on {
            0x202
        } else {
            0x102
        }
    }
}

/// Does work without interrupts in a processor, within other such work or not.
fn quietly(cpu: Noting, work: &'static str, nested: bool) -> Noting {
    let (value, cpu) = without_interrupts(
        cpu.rflags(),
        cpu,
        |cpu| {
            assert!(cpu.on);
            cpu.step(false, "off")
        },
        |cpu| {
            assert!(!cpu.on);
            let cpu = if nested { quietly(cpu, "inner", false) } else { cpu };
            assert!(!cpu.on);
            (work, cpu.step(false, work))
        },
        |cpu| {
            assert!(!cpu.on);
            cpu.step(true, "on")
        },
    );
    assert_eq!(value, work);
    cpu
}

#[test]
fn work_is_done_without_interrupts() {
    let cpu = quietly(Noting { on: true, steps: vec![] }, "work", false);
    assert!(cpu.on);
    assert_eq!(cpu.steps, ["off", "work", "on"]);
    let cpu = quietly(Noting { on: false, steps: vec![] }, "work", false);
    assert!(!cpu.on);
    assert_eq!(cpu.steps, ["work"]);
    let cpu = quietly(Noting { on: true, steps: vec![] }, "outer", true);
    assert!(cpu.on);
    assert_eq!(cpu.steps, ["off", "inner", "outer", "on"]);
}

#[test]
fn log_text_gets_carriage_returns() {
    let mut log = LogState::new();
    let out = write_str_raw(&log, "a\nb\r\n");
    assert_eq!(out.serial, b"a\r\nb\r\r\n".to_vec());
    let units: Vec<u16> = "a\r\nb\r\r\n".encode_utf16().collect();
    assert_eq!(out.console, units);
    let out = write_str_raw(&log, "\u{e9}\u{1F600}");
    assert_eq!(out.serial, "\u{e9}\u{1F600}".as_bytes().to_vec());
    assert_eq!(out.console, vec![0x00E9, 0xF600]);
    disable_uefi_console(&mut log);
    let out = KernelWriter.write_str(&log, "x\n");
    assert_eq!(out.serial, b"x\r\n".to_vec());
    assert!(out.console.is_empty());
}

#[test]
fn serial_port_is_set_up_and_waited_for() {
    let w = ventura::logger::init();
    assert_eq!(w[0], PortWrite { port: 0x3F9, value: 0 });
    assert_eq!(w[5], PortWrite { port: 0x3FA, value: 0xC7 });
    assert_eq!(write_serial_byte(0x20, 10), SerialStep::Send);
    assert_eq!(write_serial_byte(0x40, 10), SerialStep::Wait(9));
    assert_eq!(write_serial_byte(0x00, 0), SerialStep::Send);
}
