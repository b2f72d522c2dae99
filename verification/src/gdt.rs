//! The segments of the kernel and of user code, and the task state segment.

use vstd::prelude::*;

verus! {

pub const KERNEL_CODE_SELECTOR: u16 = 0x08;

pub const KERNEL_DATA_SELECTOR: u16 = 0x10;

/// The third data descriptor, with the privilege level of user code.
pub const USER_DATA_SELECTOR: u16 = 0x1B;

/// The fourth descriptor, with the privilege level of user code.
pub const USER_CODE_SELECTOR: u16 = 0x23;

pub const TSS_SELECTOR: u16 = 0x28;

/// The bytes of a task state segment.
pub const TSS_SIZE: u16 = 104;

/// The entries of the global descriptor table.
pub const GDT_ENTRIES: usize = 7;

/// The bytes of the global descriptor table: it is aligned to 16.
pub const GDT_SIZE: u16 = 64;

#[derive(Copy, Clone, Debug, PartialEq, Eq)]
pub struct TaskStateSegment {
    pub reserved0: u32,
    pub rsp0: u64,
    pub rsp1: u64,
    pub rsp2: u64,
    pub reserved1: u64,
    pub ist: [u64; 7],
    pub reserved2: u64,
    pub reserved3: u16,
    pub iomap_base: u16,
}

impl TaskStateSegment {
    /// A segment without stacks, whose port map would start behind its end.
    pub fn new() -> (r: Self)
        ensures
            r.reserved0 == 0,
            r.rsp0 == 0,
            r.rsp1 == 0,
            r.rsp2 == 0,
            r.reserved1 == 0,
            forall|i: int| 0 <= i < 7 ==> #[trigger] r.ist@[i] == 0,
            r.reserved2 == 0,
            r.reserved3 == 0,
            r.iomap_base == 104,
    {
        Self {
            reserved0: 0,
            rsp0: 0,
            rsp1: 0,
            rsp2: 0,
            reserved1: 0,
            ist: [0; 7],
            reserved2: 0,
            reserved3: 0,
            iomap_base: TSS_SIZE,
        }
    }
}

/// Where a descriptor table is, and the offset of its last byte.
#[derive(Copy, Clone, Debug, PartialEq, Eq, Structural)]
pub struct DescriptorTablePointer {
    pub limit: u16,
    pub base: u64,
}

#[derive(Copy, Clone, Debug, PartialEq, Eq)]
pub struct GlobalDescriptorTable {
    pub entries: [u64; 7],
}

/// The descriptors of a new table: none, kernel code and data, user data and
/// code, and room for the two halves of the task state segment's.
pub open spec fn flat_segments() -> Seq<u64> {
    seq![
        0,
        0x00AF_9A00_0000_FFFF,
        0x00CF_9200_0000_FFFF,
        0x00CF_F200_0000_FFFF,
        0x00AF_FA00_0000_FFFF,
        0,
        0,
    ]
}

/// The lower half of the descriptor of a present task state segment at `base`:
/// the limit, the lower 24 bits of the base, the type, and its next 8 bits.
pub open spec fn tss_low(base: u64) -> int {
    (TSS_SIZE - 1) + base as int % 0x100_0000 * 0x1_0000 + 0x89 * 0x100_0000_0000
        + base as int / 0x100_0000 % 0x100 * 0x100_0000_0000_0000
}

/// The upper half: the rest of the base.
pub open spec fn tss_high(base: u64) -> int {
    base as int / 0x1_0000_0000
}

/// The base that a descriptor with these halves has.
pub open spec fn descriptor_base(low: int, high: int) -> int {
    low / 0x1_0000 % 0x100_0000 + low / 0x100_0000_0000_0000 % 0x100 * 0x100_0000 + high
        * 0x1_0000_0000
}

/// The limit that a descriptor with this lower half has.
pub open spec fn descriptor_limit(low: int) -> int {
    low % 0x1_0000 + low / 0x1_0000_0000_0000 % 0x10 * 0x1_0000
}

/// The type and the presence bit of a descriptor with this lower half.
pub open spec fn descriptor_type(low: int) -> int {
    low / 0x100_0000_0000 % 0x100
}

impl GlobalDescriptorTable {
    pub fn new() -> (r: Self)
        ensures
            r.entries@ == flat_segments(),
            r.entries@[0] == 0,
            r.entries@[5] == 0,
            r.entries@[6] == 0,
    {
        let r = Self {
            entries: [
                0,
                0x00AF_9A00_0000_FFFF,
                0x00CF_9200_0000_FFFF,
                0x00CF_F200_0000_FFFF,
                0x00AF_FA00_0000_FFFF,
                0,
                0,
            ],
        };
        assert(r.entries@ =~= flat_segments());
        r
    }

    /// Describes the task state segment at `base` in the last two entries.
    pub fn set_tss(&mut self, base: u64)
        ensures
            final(self).entries@[5] == tss_low(base),
            final(self).entries@[6] == tss_high(base),
            forall|i: int| 0 <= i < 5 ==> #[trigger] final(self).entries@[i] == old(self).entries@[i],
    {
        let limit: u64 = TSS_SIZE as u64 - 1;
        let low: u64 = limit + base % 0x100_0000 * 0x1_0000 + 0x89 * 0x100_0000_0000 + base
            / 0x100_0000 % 0x100 * 0x100_0000_0000_0000;
        let high: u64 = base / 0x1_0000_0000;
        self.entries[5] = low;
        self.entries[6] = high;
    }

    /// What the processor is told of the table, which is at `base`.
    pub fn pointer(&self, base: u64) -> (r: DescriptorTablePointer)
        ensures
            r == (DescriptorTablePointer { limit: (GDT_SIZE - 1) as u16, base }),
            r.limit == 63,
    {
        DescriptorTablePointer { limit: GDT_SIZE - 1, base }
    }
}

/// The segments that the selectors lead to: code and data of the kernel, data and code
/// of the user. All are present and reach over all of memory. Code can be run and read,
/// data be read and written; the user's have privilege level 3, the kernel's 0; code
/// is of 64 bits. The level of a selector is that of its segment.
pub proof fn lemma_segments(table: GlobalDescriptorTable)
    requires
        table.entries@ == flat_segments(),
    ensures
        ({
            let code = table.entries@[KERNEL_CODE_SELECTOR as int / 8] as int;
            let data = table.entries@[KERNEL_DATA_SELECTOR as int / 8] as int;
            let user_code = table.entries@[USER_CODE_SELECTOR as int / 8] as int;
            let user_data = table.entries@[USER_DATA_SELECTOR as int / 8] as int;
            &&& code / 0x100_0000_0000 % 0x100 == 0x9A
            &&& data / 0x100_0000_0000 % 0x100 == 0x92
            &&& user_code / 0x100_0000_0000 % 0x100 == 0xFA
            &&& user_data / 0x100_0000_0000 % 0x100 == 0xF2
            &&& code / 0x10_0000_0000_0000 == 0xA
            &&& user_code / 0x10_0000_0000_0000 == 0xA
            &&& data / 0x10_0000_0000_0000 == 0xC
            &&& user_data / 0x10_0000_0000_0000 == 0xC
            &&& code % 0x100_0000_0000 == 0xFFFF && code / 0x1_0000_0000_0000 % 0x10 == 0xF
            &&& data % 0x100_0000_0000 == 0xFFFF && data / 0x1_0000_0000_0000 % 0x10 == 0xF
            &&& user_code % 0x100_0000_0000 == 0xFFFF && user_code / 0x1_0000_0000_0000 % 0x10
                == 0xF
            &&& user_data % 0x100_0000_0000 == 0xFFFF && user_data / 0x1_0000_0000_0000 % 0x10
                == 0xF
        }),
        KERNEL_CODE_SELECTOR == 0x08,
        KERNEL_DATA_SELECTOR == 0x10,
        USER_DATA_SELECTOR == 0x1B,
        USER_CODE_SELECTOR == 0x23,
        TSS_SELECTOR == 0x28,
{
}

/// The two halves of the descriptor of a task state segment at `base`: the segment has
/// 104 bytes, counted in bytes, the two halves hold its address, and it is present and
/// not busy.
pub proof fn lemma_tss_halves(base: u64)
    ensures
        ({
            let low = tss_low(base);
            let high = tss_high(base);
            &&& low % 0x1_0000 == 103
            &&& low / 0x1_0000 % 0x100_0000 + low / 0x100_0000_0000_0000 * 0x100_0000 + high
                * 0x1_0000_0000 == base
            &&& low / 0x100_0000_0000 % 0x100 == 0x89
            &&& low / 0x1_0000_0000_0000 % 0x100 == 0
        }),
{
    lemma_tss_described(base);
    let b = base as int;
    let lo = b % 0x100_0000;
    let mid = b / 0x100_0000 % 0x100;
    let low = tss_low(base);
    assert(low == 103 + 0x1_0000 * (lo + 0x89 * 0x100_0000 + mid * 0x100_0000_0000));
    assert(low / 0x1_0000_0000_0000 == mid * 0x100);
    assert(low / 0x100_0000_0000_0000 == mid);
}

/// The descriptor of a task state segment says where the segment is and where it
/// ends, and that it is present.
pub proof fn lemma_tss_described(base: u64)
    ensures
        descriptor_base(tss_low(base), tss_high(base)) == base,
        descriptor_limit(tss_low(base)) == TSS_SIZE - 1,
        descriptor_type(tss_low(base)) == 0x89,
        0 <= tss_low(base) <= u64::MAX,
{
    let b = base as int;
    let lo = b % 0x100_0000;
    let mid = b / 0x100_0000 % 0x100;
    let low = tss_low(base);
    assert(b == lo + mid * 0x100_0000 + b / 0x1_0000_0000 * 0x1_0000_0000);
    assert(low == 103 + 0x1_0000 * (lo + 0x89 * 0x100_0000 + mid * 0x100_0000_0000));
    assert(low % 0x1_0000 == 103);
    assert(low / 0x1_0000 == lo + 0x100_0000 * (0x89 + mid * 0x1_0000));
    assert(low / 0x1_0000 % 0x100_0000 == lo);
    assert(low / 0x100_0000_0000 == 0x89 + mid * 0x1_0000);
    assert(low / 0x1_0000_0000_0000 == mid * 0x100);
    assert(low / 0x100_0000_0000_0000 == mid);
}

} // verus!
