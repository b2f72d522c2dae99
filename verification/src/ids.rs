//! Numbers that are handed out in turn.

use vstd::prelude::*;

verus! {

/// A counter of identifiers.
#[derive(Copy, Clone, Debug, PartialEq, Eq, Structural)]
pub struct IdSource {
    pub next: u64,
}

impl IdSource {
    /// The counter after `n` identifiers, which wraps around.
    pub open spec fn after(self, n: nat) -> int {
        (self.next + n) % 0x1_0000_0000_0000_0000
    }

    /// A counter that hands out 1 first; 0 is kept for what the boot made.
    pub fn new() -> (r: Self)
        ensures
            r.next == 1,
    {
        Self { next: 1 }
    }

    /// Hands out the next identifier.
    pub fn take(&mut self) -> (r: u64)
        ensures
            r == old(self).next,
            final(self).next == old(self).after(1),
            r < u64::MAX ==> final(self).next == r + 1,
            r == u64::MAX ==> final(self).next == 0,
    {
        let id: u64 = self.next;
        self.next = id.wrapping_add(1);
        id
    }
}

/// What is handed out `n` calls from now is the next one and `n` more, unless the
/// counter wraps around before that.
pub proof fn lemma_ids_count_up(source: IdSource, n: nat)
    requires
        source.next + n <= u64::MAX,
    ensures
        source.after(n) == source.next + n,
{
    vstd::arithmetic::div_mod::lemma_small_mod(
        (source.next + n) as nat,
        0x1_0000_0000_0000_0000,
    );
}

/// Identifiers that are handed out `i` and `j` calls from now differ, as long as
/// they are fewer than 2^64 apart.
pub proof fn lemma_ids_differ(source: IdSource, i: nat, j: nat)
    requires
        i < j,
        j - i < 0x1_0000_0000_0000_0000,
    ensures
        source.after(i) != source.after(j),
{
    let m = 0x1_0000_0000_0000_0000int;
    vstd::arithmetic::div_mod::lemma_fundamental_div_mod(source.next + i, m);
    vstd::arithmetic::div_mod::lemma_fundamental_div_mod(source.next + j, m);
    if source.after(i) == source.after(j) {
        let a = (source.next + i) / m;
        let b = (source.next + j) / m;
        assert(j - i == m * (b - a)) by (nonlinear_arith)
            requires
                source.next + i == m * a + source.after(i),
                source.next + j == m * b + source.after(j),
                source.after(i) == source.after(j),
        ;
        assert(b - a >= 1) by (nonlinear_arith)
            requires
                j - i == m * (b - a),
                i < j,
                m > 0,
        ;
        assert(j - i >= m) by (nonlinear_arith)
            requires
                j - i == m * (b - a),
                b - a >= 1,
                m > 0,
        ;
    }
}

/// Identifiers are handed out in turn: `m` more of them are the next ones.
pub proof fn lemma_ids_in_turn(source: IdSource, later: IdSource, n: nat, m: nat)
    requires
        later.next == source.after(n),
    ensures
        later.after(m) == source.after(n + m),
{
    vstd::arithmetic::div_mod::lemma_add_mod_noop_right(
        m as int,
        source.next + n,
        0x1_0000_0000_0000_0000int,
    );
}

} // verus!
