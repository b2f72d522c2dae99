//! The timer: its ticks, and how it is started.

use vstd::prelude::*;
use crate::apic;
use crate::apic::LapicWrite;
use crate::idt;
use crate::idt::{IrqHandler, IrqTable};

verus! {

pub const TIMER_IRQ: u8 = 0;

pub const TIMER_VECTOR: u8 = 32;

/// The timer counts every sixteenth cycle.
pub const TIMER_DIVIDE_16: u32 = 0x03;

/// What the timer counts down from: about a hundred ticks a second.
pub const TIMER_INITIAL_COUNT: u32 = 0x0010_0000;

/// How many ticks there are between two reports.
pub const REPORT_INTERVAL: u64 = 100;

/// How often the timer ticked.
#[derive(Copy, Clone, Debug, PartialEq, Eq, Structural)]
pub struct Ticks {
    pub count: u64,
}

impl Ticks {
    pub fn new() -> (r: Self)
        ensures
            r.count == 0,
    {
        Self { count: 0 }
    }
}

/// How often the timer ticked.
pub fn current_ticks(ticks: &Ticks) -> (r: u64)
    ensures
        r == ticks.count,
{
    ticks.count
}

/// One tick took the count from `before` to `after`, and `r` was reported: every
/// hundredth count, and no other.
pub open spec fn ticked(before: Ticks, after: Ticks, r: Option<u64>) -> bool {
    &&& after.count == before.count + 1
    &&& r == if after.count % REPORT_INTERVAL == 0 {
        Some(after.count)
    } else {
        None
    }
}

/// Counts a tick, and says how many there were if that is to be reported.
pub fn timer_irq_handler(ticks: &mut Ticks) -> (r: Option<u64>)
    requires
        old(ticks).count < u64::MAX,
    ensures
        ticked(*old(ticks), *final(ticks), r),
{
    ticks.count = ticks.count + 1;
    if ticks.count % REPORT_INTERVAL == 0 {
        Some(ticks.count)
    } else {
        None
    }
}

/// Lets `handler` handle the timer's request, and says how the timer is started.
pub fn init(table: &mut IrqTable, handler: IrqHandler) -> (r: [LapicWrite; 3])
    ensures
        final(table).handlers@ == old(table).handlers@.update(TIMER_IRQ as int, Some(handler)),
        final(table).unhandled == old(table).unhandled,
        final(table).unexpected == old(table).unexpected,
        final(table).handlers@[0] == Some(handler),
        r@[0] == (LapicWrite { reg: 0x3E0, value: 3 }),
        r@[1] == (LapicWrite { reg: 0x320, value: 0x2_0020 }),
        r@[2] == (LapicWrite { reg: 0x380, value: 0x10_0000 }),
        r@ == seq![
            LapicWrite { reg: apic::LAPIC_TIMER_DCR, value: TIMER_DIVIDE_16 },
            LapicWrite { reg: apic::LAPIC_LVT_TIMER, value: 0x2_0020 },
            LapicWrite { reg: apic::LAPIC_TIMER_ICR, value: TIMER_INITIAL_COUNT },
        ],
{
    let _ = idt::register_irq(table, TIMER_IRQ, handler);
    apic::start_lapic_timer(TIMER_VECTOR, TIMER_INITIAL_COUNT, TIMER_DIVIDE_16)
}

/// The counts before, between and after some ticks in a row are `counts`, and what
/// the ticks reported is `reports`.
pub open spec fn ticks_in_turn(counts: Seq<Ticks>, reports: Seq<Option<u64>>) -> bool {
    &&& counts.len() == reports.len() + 1
    &&& forall|i: int|
        0 <= i < reports.len() ==> ticked(counts[i], #[trigger] counts[i + 1], reports[i])
}

/// The count `n` is among `reports`.
pub open spec fn reported(reports: Seq<Option<u64>>, n: u64) -> bool {
    exists|i: int| 0 <= i < reports.len() && #[trigger] reports[i] == Some(n)
}

/// After some ticks in a row the count is what it was and one more for each of them,
/// at every point on the way, so that it never falls. What was reported is each
/// multiple of a hundred that the count came to, at the tick at which it did, and
/// nothing else.
pub proof fn lemma_ticks_counted(counts: Seq<Ticks>, reports: Seq<Option<u64>>)
    requires
        ticks_in_turn(counts, reports),
    ensures
        counts.last().count == counts[0].count + reports.len(),
        forall|i: int|
            0 <= i < counts.len() ==> (#[trigger] counts[i]).count == counts[0].count + i,
        forall|i: int|
            0 <= i < reports.len() ==> #[trigger] reports[i] == if (counts[0].count + i + 1) % 100
                == 0 {
                Some((counts[0].count + i + 1) as u64)
            } else {
                None
            },
        forall|n: u64| #[trigger]
            reported(reports, n) <==> counts[0].count < n <= counts.last().count && n % 100 == 0,
    decreases reports.len(),
{
    let first = counts[0].count;
    let len = reports.len() as int;
    if len > 0 {
        let earlier = reports.drop_last();
        let until = counts.drop_last();
        assert forall|i: int| 0 <= i < earlier.len() implies ticked(
            until[i],
            #[trigger] until[i + 1],
            earlier[i],
        ) by {
            assert(ticked(counts[i], counts[i + 1], reports[i]));
        }
        lemma_ticks_counted(until, earlier);
        assert(ticked(counts[len - 1], counts[len - 1 + 1], reports[len - 1]));
        assert(until[len - 1].count == first + len - 1);
        assert forall|i: int| 0 <= i < counts.len() implies (#[trigger] counts[i]).count == first
            + i by {
            if i < len {
                assert(until[i].count == first + i);
            }
        }
    }
    assert forall|i: int| 0 <= i < reports.len() implies #[trigger] reports[i] == if (first + i + 1)
        % REPORT_INTERVAL as int == 0 {
        Some((first + i + 1) as u64)
    } else {
        None
    } by {
        assert(ticked(counts[i], counts[i + 1], reports[i]));
    }
    assert forall|n: u64| first < n <= counts.last().count && n % REPORT_INTERVAL
        == 0 implies #[trigger] reported(reports, n) by {
        let i = n - first - 1;
        assert(reports[i] == Some(n));
    }
}

/// Among any hundred ticks in a row, one and only one is reported.
pub proof fn lemma_one_report_in_turn(start: u64) -> (i: int)
    requires
        start + REPORT_INTERVAL <= u64::MAX,
    ensures
        1 <= i <= REPORT_INTERVAL,
        (start + i) % REPORT_INTERVAL as int == 0,
        forall|j: int|
            1 <= j <= REPORT_INTERVAL && #[trigger] ((start + j) % REPORT_INTERVAL as int) == 0
                ==> j == i,
{
    REPORT_INTERVAL - start as int % REPORT_INTERVAL as int
}

} // verus!
