//! Arithmetic on 32-bit sequence numbers, which wrap after 2^32 packets.
use vstd::arithmetic::div_mod::{lemma_add_mod_noop, lemma_mod_self_0, lemma_small_mod};
use vstd::prelude::*;

verus! {

/// Number of distinct sequence numbers.
pub open spec fn seq_space() -> int {
    0x1_0000_0000
}

/// How far `b` lies ahead of `a`, counting modulo 2^32.
pub open spec fn seq_dist(a: u32, b: u32) -> nat {
    ((b as int - a as int) % seq_space()) as nat
}

/// The sequence number `k` steps after `a`.
pub open spec fn seq_add(a: u32, k: int) -> u32 {
    ((a as int + k) % seq_space()) as u32
}

/// Wraparound-safe "less than": `a` comes before `b` when `a - b`,
/// taken modulo 2^32, exceeds 2^31.
pub open spec fn seq_lt(a: u32, b: u32) -> bool {
    seq_dist(b, a) > 0x8000_0000
}

/// Executable form of [`seq_lt`].
pub fn wrapping_lt(lhs: u32, rhs: u32) -> (r: bool)
    ensures
        r == seq_lt(lhs, rhs),
{
    lhs.wrapping_sub(rhs) > 0x8000_0000u32
}

/// Stepping `x` and then `y` from `a` is stepping `x + y`.
pub proof fn lemma_seq_add_add(a: u32, x: int, y: int)
    ensures
        seq_add(seq_add(a, x), y) == seq_add(a, x + y),
{
    let m = seq_space();
    lemma_add_mod_noop(a as int + x, y, m);
    lemma_small_mod(((a as int + x) % m) as nat, m as nat);
    lemma_small_mod((y % m) as nat, m as nat);
    lemma_add_mod_noop((a as int + x) % m, y, m);
    assert(((a as int + x) % m + y) % m == (a as int + x + y) % m) by {
        lemma_add_mod_noop(a as int + x, y, m);
        lemma_mod_self_0(m);
    }
}

/// Stepping from `a` by the distance to `b` reaches `b`.
pub proof fn lemma_seq_add_dist(a: u32, b: u32)
    ensures
        seq_add(a, seq_dist(a, b) as int) == b,
{
    let m = seq_space();
    let d = (b as int - a as int) % m;
    assert((a as int + d) % m == b as int) by {
        lemma_add_mod_noop(a as int, b as int - a as int, m);
        lemma_small_mod(a as nat, m as nat);
        lemma_small_mod(b as nat, m as nat);
    }
}

/// The distance from `a` to the number `k` steps after it is `k`.
pub proof fn lemma_seq_dist_add(a: u32, k: nat)
    requires
        k < seq_space(),
    ensures
        seq_dist(a, seq_add(a, k as int)) == k,
{
    let m = seq_space();
    let b = seq_add(a, k as int);
    assert((b as int - a as int) % m == k) by {
        lemma_add_mod_noop(a as int + k, -(a as int), m);
        lemma_small_mod(k, m as nat);
        lemma_small_mod(a as nat, m as nat);
        assert((a as int + k) % m == b as int);
        assert(((a as int + k) % m + (-(a as int)) % m) % m == (a as int + k - a as int) % m);
        lemma_add_mod_noop(b as int, -(a as int), m);
    }
}

} // verus!
