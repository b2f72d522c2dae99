//! The interrupt controllers: what is written to them, in which order.

use vstd::prelude::*;
use crate::platform;
use crate::platform::PortWrite;

verus! {

pub const LAPIC_DEFAULT_BASE: usize = 0xFEE0_0000;

pub const IOAPIC_DEFAULT_BASE: usize = 0xFEC0_0000;

pub const LAPIC_ID: u32 = 0x0020;

pub const LAPIC_VER: u32 = 0x0030;

pub const LAPIC_TPR: u32 = 0x0080;

pub const LAPIC_EOI: u32 = 0x00B0;

pub const LAPIC_LDR: u32 = 0x00D0;

pub const LAPIC_DFR: u32 = 0x00E0;

pub const LAPIC_SVR: u32 = 0x00F0;

pub const LAPIC_ESR: u32 = 0x0280;

pub const LAPIC_LVT_TIMER: u32 = 0x0320;

pub const LAPIC_LVT_LINT0: u32 = 0x0350;

pub const LAPIC_LVT_LINT1: u32 = 0x0360;

pub const LAPIC_LVT_ERROR: u32 = 0x0370;

pub const LAPIC_TIMER_ICR: u32 = 0x0380;

pub const LAPIC_TIMER_CCR: u32 = 0x0390;

pub const LAPIC_TIMER_DCR: u32 = 0x03E0;

pub const IOAPIC_REGSEL: usize = 0x00;

pub const IOAPIC_IOWIN: usize = 0x10;

/// The bit of a vector entry and of a redirection entry that masks it.
pub const MASKED: u32 = 0x1_0000;

/// The most requests whose redirection entries have numbers of their own.
pub const MAX_ROUTED: u32 = 120;

/// A value for a register of the local controller.
#[derive(Copy, Clone, Debug, PartialEq, Eq, Structural)]
pub struct LapicWrite {
    pub reg: u32,
    pub value: u32,
}

/// A value for a register of the I/O controller.
#[derive(Copy, Clone, Debug, PartialEq, Eq, Structural)]
pub struct IoapicWrite {
    pub reg: u8,
    pub value: u32,
}

/// Masks all requests of the two legacy controllers.
pub fn disable_pic() -> (r: [PortWrite; 2])
    ensures
        r@ == seq![PortWrite { port: 0x21, value: 0xFF }, PortWrite { port: 0xA1, value: 0xFF }],
{
    let r = [PortWrite { port: 0x21, value: 0xFF }, PortWrite { port: 0xA1, value: 0xFF }];
    assert(r@ =~= seq![PortWrite { port: 0x21, value: 0xFF }, PortWrite { port: 0xA1, value: 0xFF }]);
    r
}

/// What the base register of the local controller, which holds `apic_base`, is
/// to be written with so that the controller is on.
pub fn enabled_base(apic_base: u64) -> (r: u64)
    ensures
        r == platform::with_bit(apic_base as int, 0x800),
        r == apic_base | 0x800,
{
    assert(apic_base | 0x800 == if apic_base / 0x800 % 2 == 1 {
        apic_base as int
    } else {
        apic_base + 0x800
    }) by (bit_vector);
    if apic_base / 0x800 % 2 == 0 {
        assert(apic_base <= u64::MAX - 0x800) by {
            assert(apic_base == 0x1000 * (apic_base / 0x800 / 2) + apic_base % 0x800);
        }
        apic_base + 0x800
    } else {
        apic_base
    }
}

/// The writes that set up the local controller whose identification register
/// holds `id_reg`: one flat logical destination, no priority, all its own
/// interrupts masked, and the controller on with the spurious vector.
pub open spec fn lapic_setup(id_reg: u32) -> Seq<LapicWrite> {
    seq![
        LapicWrite { reg: LAPIC_DFR, value: 0xFFFF_FFFF },
        LapicWrite { reg: LAPIC_LDR, value: (id_reg as int / 0x100_0000 * 0x100_0000) as u32 },
        LapicWrite { reg: LAPIC_TPR, value: 0 },
        LapicWrite { reg: LAPIC_LVT_TIMER, value: MASKED },
        LapicWrite { reg: LAPIC_LVT_LINT0, value: MASKED },
        LapicWrite { reg: LAPIC_LVT_LINT1, value: MASKED },
        LapicWrite { reg: LAPIC_LVT_ERROR, value: MASKED },
        LapicWrite { reg: LAPIC_SVR, value: 0x1FF },
        LapicWrite { reg: LAPIC_EOI, value: 0 },
    ]
}

/// Sets up the local controller whose identification register holds `id_reg`.
pub fn init_lapic(id_reg: u32) -> (r: [LapicWrite; 9])
    ensures
        r@ == lapic_setup(id_reg),
        r@[0] == (LapicWrite { reg: 0xE0, value: 0xFFFF_FFFF }),
        r@[1].reg == 0xD0,
        r@[1].value == id_reg - id_reg % 0x100_0000,
        r@[2] == (LapicWrite { reg: 0x80, value: 0 }),
        r@[3] == (LapicWrite { reg: 0x320, value: 0x1_0000 }),
        r@[4] == (LapicWrite { reg: 0x350, value: 0x1_0000 }),
        r@[5] == (LapicWrite { reg: 0x360, value: 0x1_0000 }),
        r@[6] == (LapicWrite { reg: 0x370, value: 0x1_0000 }),
        r@[7] == (LapicWrite { reg: 0xF0, value: 0x1FF }),
        r@[8] == (LapicWrite { reg: 0xB0, value: 0 }),
{
    let id: u32 = id_reg / 0x100_0000;
    let r = [
        LapicWrite { reg: LAPIC_DFR, value: 0xFFFF_FFFF },
        LapicWrite { reg: LAPIC_LDR, value: id * 0x100_0000 },
        LapicWrite { reg: LAPIC_TPR, value: 0 },
        LapicWrite { reg: LAPIC_LVT_TIMER, value: MASKED },
        LapicWrite { reg: LAPIC_LVT_LINT0, value: MASKED },
        LapicWrite { reg: LAPIC_LVT_LINT1, value: MASKED },
        LapicWrite { reg: LAPIC_LVT_ERROR, value: MASKED },
        LapicWrite { reg: LAPIC_SVR, value: 0x1FF },
        LapicWrite { reg: LAPIC_EOI, value: 0 },
    ];
    assert(r@ =~= lapic_setup(id_reg));
    r
}

/// Signals the end of an interrupt.
pub fn eoi() -> (r: LapicWrite)
    ensures
        r == (LapicWrite { reg: 0xB0, value: 0 }),
{
    LapicWrite { reg: LAPIC_EOI, value: 0 }
}

/// The writes that lead request `irq` to `vector` on the processor with
/// controller `dest_lapic_id`.
pub open spec fn routed(irq: u8, vector: u8, dest_lapic_id: u8, masked: bool) -> Seq<IoapicWrite> {
    seq![
        IoapicWrite {
            reg: (0x10 + 2 * irq) as u8,
            value: (vector + if masked {
                MASKED as int
            } else {
                0
            }) as u32,
        },
        IoapicWrite { reg: (0x11 + 2 * irq) as u8, value: (dest_lapic_id * 0x100_0000) as u32 },
    ]
}

/// Leads request `irq` to `vector` on the processor with controller
/// `dest_lapic_id`.
pub fn route_irq(irq: u8, vector: u8, dest_lapic_id: u8, masked: bool) -> (r: [IoapicWrite; 2])
    requires
        irq < MAX_ROUTED,
    ensures
        r@ == routed(irq, vector, dest_lapic_id, masked),
        r@[0].reg == 0x10 + 2 * irq,
        r@[1].reg == 0x11 + 2 * irq,
        r@[0].value == vector + if masked {
            0x1_0000int
        } else {
            0
        },
        r@[1].value == dest_lapic_id * 0x100_0000,
{
    let mut low: u32 = vector as u32;
    if masked {
        low = low + MASKED;
    }
    let high: u32 = dest_lapic_id as u32 * 0x100_0000;
    let r = [
        IoapicWrite { reg: 0x10 + 2 * irq, value: low },
        IoapicWrite { reg: 0x11 + 2 * irq, value: high },
    ];
    assert(r@ =~= routed(irq, vector, dest_lapic_id, masked));
    r
}

/// How many redirection entries an I/O controller has whose version register
/// holds `version`.
pub open spec fn redirection_entries(version: u32) -> int {
    version as int / 0x1_0000 % 0x100 + 1
}

/// The writes that lead the first `n` requests to their vectors, masked.
pub open spec fn all_routed(n: int) -> Seq<IoapicWrite>
    decreases n,
{
    if n <= 0 {
        Seq::empty()
    } else {
        all_routed(n - 1) + routed((n - 1) as u8, (0x20 + (n - 1)) as u8, 0, true)
    }
}

/// Leads all requests of the I/O controller whose version register holds
/// `version` to the vectors from 32 on, masked. The count is eight bits wide:
/// a controller with 256 entries is left as it is.
pub fn init_ioapic(version: u32) -> (r: Vec<IoapicWrite>)
    requires
        redirection_entries(version) <= MAX_ROUTED || redirection_entries(version) == 256,
    ensures
        r@ == all_routed(redirection_entries(version) % 256),
        r@.len() == 2 * ((version as int / 0x1_0000 % 0x100 + 1) % 256),
        forall|i: int|
            #![trigger r@[2 * i]]
            #![trigger r@[2 * i + 1]]
            0 <= 2 * i < r@.len() ==> {
                &&& r@[2 * i].reg == 0x10 + 2 * i
                &&& r@[2 * i].value == 0x1_0020 + i
                &&& r@[2 * i + 1].reg == 0x11 + 2 * i
                &&& r@[2 * i + 1].value == 0
            },
{
    let entries: u32 = (version / 0x1_0000 % 0x100 + 1) % 256;
    let mut writes: Vec<IoapicWrite> = Vec::new();
    let mut i: u8 = 0;
    while (i as u32) < entries
        invariant
            i <= entries,
            entries <= MAX_ROUTED,
            writes@ == all_routed(i as int),
        decreases entries - i,
    {
        let pair = route_irq(i, 0x20 + i, 0, true);
        let ghost before = writes@;
        writes.push(pair[0]);
        writes.push(pair[1]);
        assert(writes@ =~= before + pair@);
        i = i + 1;
    }
    proof {
        let n = entries as int;
        if n == 0 {
            assert(all_routed(0).len() == 0);
        } else {
            lemma_all_routed(n, 0);
        }
        assert forall|i: int| 0 <= 2 * i < writes@.len() implies {
            &&& (#[trigger] writes@[2 * i]).reg == 0x10 + 2 * i
            &&& writes@[2 * i].value == 0x1_0020 + i
            &&& writes@[2 * i + 1].reg == 0x11 + 2 * i
            &&& writes@[2 * i + 1].value == 0
        } by {
            lemma_all_routed(n, i);
        }
    }
    writes
}

/// Takes the mask off request `irq`, whose redirection entry holds `low`.
pub fn unmask_irq(irq: u8, low: u32) -> (r: IoapicWrite)
    requires
        irq < MAX_ROUTED,
    ensures
        r.reg == 0x10 + 2 * irq,
        r.value == if platform::has_bit(low as int, MASKED as int) {
            low - MASKED
        } else {
            low as int
        },
        r.value == low & 0xFFFE_FFFF,
{
    assert(low & 0xFFFE_FFFF == if low / 0x1_0000 % 2 == 1 {
        low - 0x1_0000
    } else {
        low as int
    }) by (bit_vector);
    let value: u32 = if low / MASKED % 2 == 1 {
        low - MASKED
    } else {
        low
    };
    IoapicWrite { reg: 0x10 + 2 * irq, value }
}

/// Masks request `irq`, whose redirection entry holds `low`.
pub fn mask_irq(irq: u8, low: u32) -> (r: IoapicWrite)
    requires
        irq < MAX_ROUTED,
    ensures
        r.reg == 0x10 + 2 * irq,
        r.value == platform::with_bit(low as int, MASKED as int),
        r.value == low | 0x1_0000,
{
    assert(low | 0x1_0000 == if low / 0x1_0000 % 2 == 1 {
        low as int
    } else {
        low + 0x1_0000
    }) by (bit_vector);
    let value: u32 = if low / MASKED % 2 == 0 {
        assert(low <= u32::MAX - MASKED) by {
            assert(low == 0x2_0000 * (low / 0x1_0000 / 2) + low % 0x1_0000);
        }
        low + MASKED
    } else {
        low
    };
    IoapicWrite { reg: 0x10 + 2 * irq, value }
}

/// Starts the periodic timer of the local controller.
pub fn start_lapic_timer(vector: u8, initial_count: u32, divide_cfg: u32) -> (r: [LapicWrite; 3])
    ensures
        r@ == seq![
            LapicWrite { reg: LAPIC_TIMER_DCR, value: divide_cfg },
            LapicWrite { reg: LAPIC_LVT_TIMER, value: (0x2_0000 + vector) as u32 },
            LapicWrite { reg: LAPIC_TIMER_ICR, value: initial_count },
        ],
        r@[0] == (LapicWrite { reg: 0x3E0, value: divide_cfg }),
        r@[1].reg == 0x320,
        r@[1].value == 0x2_0000 + vector,
        r@[2] == (LapicWrite { reg: 0x380, value: initial_count }),
{
    let r = [
        LapicWrite { reg: LAPIC_TIMER_DCR, value: divide_cfg },
        LapicWrite { reg: LAPIC_LVT_TIMER, value: 0x2_0000 + vector as u32 },
        LapicWrite { reg: LAPIC_TIMER_ICR, value: initial_count },
    ];
    assert(r@ =~= seq![
        LapicWrite { reg: LAPIC_TIMER_DCR, value: divide_cfg },
        LapicWrite { reg: LAPIC_LVT_TIMER, value: (0x2_0000 + vector) as u32 },
        LapicWrite { reg: LAPIC_TIMER_ICR, value: initial_count },
    ]);
    r
}

/// The entries that `all_routed` writes: entry `i` comes from request `i / 2`.
pub proof fn lemma_all_routed(n: int, i: int)
    requires
        0 <= i < n <= MAX_ROUTED,
    ensures
        all_routed(n).len() == 2 * n,
        all_routed(n)[2 * i] == (IoapicWrite {
            reg: (0x10 + 2 * i) as u8,
            value: (0x1_0020 + i) as u32,
        }),
        all_routed(n)[2 * i + 1] == (IoapicWrite { reg: (0x11 + 2 * i) as u8, value: 0 }),
    decreases n,
{
    let before = all_routed(n - 1);
    let last = routed((n - 1) as u8, (0x20 + (n - 1)) as u8, 0, true);
    assert(all_routed(n) == before + last);
    if i < n - 1 {
        lemma_all_routed(n - 1, i);
        assert(all_routed(n)[2 * i] == before[2 * i]);
        assert(all_routed(n)[2 * i + 1] == before[2 * i + 1]);
    } else {
        if n > 1 {
            lemma_all_routed(n - 1, 0);
        } else {
            assert(before =~= Seq::<IoapicWrite>::empty());
        }
        assert(before.len() == 2 * i);
        assert(all_routed(n)[2 * i] == last[0]);
        assert(all_routed(n)[2 * i + 1] == last[1]);
    }
}

/// Masking and then unmasking a request takes the mask off what was there.
pub proof fn lemma_mask_unmask(low: u32)
    ensures
        platform::has_bit(platform::with_bit(low as int, MASKED as int), MASKED as int),
        !platform::has_bit(low as int, MASKED as int) ==> platform::with_bit(
            low as int,
            MASKED as int,
        ) - MASKED == low,
{
    platform::lemma_with_bit(low as int, MASKED as int);
}

} // verus!
