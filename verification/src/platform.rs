//! What the kernel computes of the processor's flags and model-specific
//! registers, and what it writes to ports.

use vstd::prelude::*;

verus! {

pub const COM1_PORT: u16 = 0x3F8;

pub const COM2_PORT: u16 = 0x2F8;

pub const IA32_APIC_BASE_MSR: u32 = 0x1B;

pub const IA32_EFER: u32 = 0xC000_0080;

/// A byte for a port.
#[derive(Copy, Clone, Debug, PartialEq, Eq, Structural)]
pub struct PortWrite {
    pub port: u16,
    pub value: u8,
}

/// Whether the bit of `x` that weighs `weight` is set.
pub open spec fn has_bit(x: int, weight: int) -> bool {
    x / weight % 2 == 1
}

/// Whether interrupts are on in a processor with flags `rflags`.
pub fn are_interrupts_enabled(rflags: u64) -> (r: bool)
    ensures
        r == has_bit(rflags as int, 0x200),
        r <==> rflags & 0x200 != 0,
{
    assert(rflags & 0x200 != 0 <==> rflags / 0x200 % 2 == 1) by (bit_vector);
    rflags / 0x200 % 2 == 1
}

/// The work `f` gave `r.0` and left the processor as `r.1`. If interrupts were on
/// by `rflags`, `f` was handed the processor that `cli` made of `cpu`, and `r.1` is
/// what `sti` made of the one that `f` left. Otherwise `f` was handed `cpu` itself,
/// and `r.1` is the one that it left.
pub open spec fn done_quietly<P, C, F, S, R>(
    rflags: u64,
    cpu: P,
    cli: C,
    f: F,
    sti: S,
    r: (R, P),
) -> bool where C: FnOnce(P) -> P, F: FnOnce(P) -> (R, P), S: FnOnce(P) -> P {
    if has_bit(rflags as int, 0x200) {
        exists|off: P, after: P|
            {
                &&& #[trigger] cli.ensures((cpu,), off)
                &&& #[trigger] f.ensures((off,), (r.0, after))
                &&& sti.ensures((after,), r.1)
            }
    } else {
        f.ensures((cpu,), r)
    }
}

/// Does the work `f` in the processor `cpu`, whose flags are `rflags`, after `cli`
/// and before `sti` if interrupts are on by those flags, and without either if they
/// are not. What `f` gives is returned, with the processor as it is then.
///
/// The processor is handed on from one step to the next: a step takes it as it is
/// and gives it as it left it.
pub fn without_interrupts<P, C, F, S, R>(rflags: u64, cpu: P, cli: C, f: F, sti: S) -> (r: (
    R,
    P,
)) where C: FnOnce(P) -> P, F: FnOnce(P) -> (R, P), S: FnOnce(P) -> P
    requires
        if has_bit(rflags as int, 0x200) {
            &&& cli.requires((cpu,))
            &&& forall|off: P| #[trigger] cli.ensures((cpu,), off) ==> f.requires((off,))
            &&& forall|off: P, value: R, after: P| #[trigger]
                cli.ensures((cpu,), off) && #[trigger] f.ensures((off,), (value, after))
                    ==> sti.requires((after,))
        } else {
            f.requires((cpu,))
        },
    ensures
        done_quietly(rflags, cpu, cli, f, sti, r),
{
    let ghost before = cpu;
    if are_interrupts_enabled(rflags) {
        let off = cli(cpu);
        let ghost quiet = off;
        let (value, after) = f(off);
        let ghost left = after;
        let r = (value, sti(after));
        assert(cli.ensures((before,), quiet) && f.ensures((quiet,), (r.0, left)) && sti.ensures(
            (left,),
            r.1,
        ));
        r
    } else {
        let (value, after) = f(cpu);
        (value, after)
    }
}

/// Where `cli` turns interrupts off, `sti` turns them on and `f` leaves them off,
/// work without interrupts is done in a processor that has them off, and they are
/// afterwards as they were before. Such work within such work finds them off, so
/// that it is done in the processor as it is, and leaves them off.
pub proof fn lemma_interrupts_as_before<P, C, F, S, R>(
    rflags: u64,
    cpu: P,
    cli: C,
    f: F,
    sti: S,
    r: (R, P),
    on: spec_fn(P) -> bool,
) where C: FnOnce(P) -> P, F: FnOnce(P) -> (R, P), S: FnOnce(P) -> P
    requires
        done_quietly(rflags, cpu, cli, f, sti, r),
        on(cpu) == has_bit(rflags as int, 0x200),
        forall|at: P, off: P| #[trigger] cli.ensures((at,), off) ==> !on(off),
        forall|at: P, value: R, after: P|
            #[trigger] f.ensures((at,), (value, after)) && !on(at) ==> !on(after),
        forall|at: P, after: P| #[trigger] sti.ensures((at,), after) ==> on(after),
    ensures
        on(r.1) == on(cpu),
        !on(cpu) ==> f.ensures((cpu,), r),
        exists|at: P, after: P|
            {
                &&& #[trigger] f.ensures((at,), (r.0, after))
                &&& !on(at)
                &&& !on(after)
            },
{
    if !on(cpu) {
        assert(f.ensures((cpu,), (r.0, r.1)));
    }
}

/// The register whose halves are `low` and `high`.
pub open spec fn joined(low: u32, high: u32) -> int {
    low + high * 0x1_0000_0000
}

/// The value of a model-specific register from its halves.
pub fn rdmsr(low: u32, high: u32) -> (r: u64)
    ensures
        r == joined(low, high),
        r == low + 0x1_0000_0000 * high,
{
    low as u64 + high as u64 * 0x1_0000_0000
}

/// The lower and the upper half that a model-specific register is written with.
pub fn wrmsr(value: u64) -> (r: (u32, u32))
    ensures
        joined(r.0, r.1) == value,
        r.0 == value % 0x1_0000_0000,
        r.1 == value / 0x1_0000_0000,
{
    ((value % 0x1_0000_0000) as u32, (value / 0x1_0000_0000) as u32)
}

/// A register has one pair of halves only.
pub proof fn lemma_halves(low: u32, high: u32, low2: u32, high2: u32)
    requires
        joined(low, high) == joined(low2, high2),
    ensures
        low == low2,
        high == high2,
{
}

/// `x` with the bit of weight `weight` set.
pub open spec fn with_bit(x: int, weight: int) -> int {
    if has_bit(x, weight) {
        x
    } else {
        x + weight
    }
}

/// What `IA32_EFER`, which holds `current`, is to be written with so that pages
/// can be marked as not executable; none if they can be already.
pub fn enable_nxe(current: u64) -> (r: Option<u64>)
    ensures
        match r {
            Some(v) => !has_bit(current as int, 0x800) && v == with_bit(current as int, 0x800),
            None => has_bit(current as int, 0x800),
        },
        r == if current & 0x800 == 0 {
            Some(current | 0x800)
        } else {
            None
        },
{
    assert((current & 0x800 == 0 <==> current / 0x800 % 2 == 0) && (current / 0x800 % 2 == 0
        ==> current | 0x800 == current + 0x800)) by (bit_vector);
    if current / 0x800 % 2 == 0 {
        assert(current <= u64::MAX - 0x800) by {
            assert(current == 0x1000 * (current / 0x800 / 2) + current % 0x800);
        }
        Some(current + 0x800)
    } else {
        None
    }
}

/// Setting a bit sets it.
pub proof fn lemma_with_bit(x: int, weight: int)
    requires
        weight > 0,
    ensures
        has_bit(with_bit(x, weight), weight),
{
    if !has_bit(x, weight) {
        assert((x + weight) / weight == x / weight + 1) by (nonlinear_arith)
            requires
                weight > 0,
        ;
    }
}

} // verus!
