//! Powers of two and bit reversal.

use vstd::arithmetic::div_mod::*;
use vstd::arithmetic::power2::*;
use vstd::prelude::*;

verus! {

/// `log` is the integer part of the binary logarithm of `n`.
pub open spec fn is_ilog2(n: int, log: int) -> bool {
    &&& 0 <= log
    &&& pow2(log as nat) <= n < 2 * pow2(log as nat)
}

/// The integer part of the binary logarithm of a positive number.
pub open spec fn floor_log2(n: int) -> nat
    decreases n,
{
    if n <= 1 {
        0
    } else {
        1 + floor_log2(n / 2)
    }
}

/// [`floor_log2`] is the logarithm.
pub proof fn lemma_floor_log2(n: int)
    requires
        n > 0,
    ensures
        is_ilog2(n, floor_log2(n) as int),
    decreases n,
{
    lemma2_to64();
    if n > 1 {
        lemma_floor_log2(n / 2);
        lemma_pow2_unfold(floor_log2(n));
    }
}

/// A power of two has its exponent as logarithm.
pub proof fn lemma_floor_log2_of_pow2(log: nat)
    ensures
        floor_log2(pow2(log) as int) == log,
{
    lemma_pow2_pos(log);
    lemma_ilog2_of_pow2(log);
    lemma_floor_log2(pow2(log) as int);
    lemma_ilog2_unique(pow2(log) as int, log as int, floor_log2(pow2(log) as int) as int);
}

/// The number is a power of two.
pub open spec fn is_pow2(n: int) -> bool {
    n > 0 && n == pow2(floor_log2(n))
}

/// `2^log` as a machine word.
pub fn pow2_u64(log: u32) -> (r: u64)
    requires
        log < 64,
    ensures
        r == pow2(log as nat),
{
    proof {
        lemma2_to64();
        lemma2_to64_rest();
        lemma_pow2_strictly_increases(log as nat, 64);
        vstd::bits::lemma_u64_shl_is_mul(1, log as u64);
    }
    1u64 << log
}

/// `2^log` as an index.
pub fn pow2_usize(log: u32) -> (r: usize)
    requires
        pow2(log as nat) <= usize::MAX,
    ensures
        r == pow2(log as nat),
{
    proof {
        if log >= 64 {
            lemma2_to64();
            lemma2_to64_rest();
            if log > 64 {
                lemma_pow2_strictly_increases(64, log as nat);
            }
        }
    }
    pow2_u64(log) as usize
}

/// The integer part of the binary logarithm of a positive number.
pub fn ilog2(n: usize) -> (r: u32)
    requires
        n > 0,
    ensures
        r == floor_log2(n as int),
        is_ilog2(n as int, r as int),
        r < 64,
{
    let mut log: u32 = 0;
    let mut rest: usize = n;
    proof {
        lemma2_to64();
        assert(n as int == rest * pow2(0)) by (nonlinear_arith)
            requires
                rest == n,
                pow2(0) == 1,
        ;
    }
    while rest > 1
        invariant
            rest >= 1,
            rest * pow2(log as nat) <= n < (rest + 1) * pow2(log as nat),
            log < 64,
        decreases rest,
    {
        proof {
            let p = pow2(log as nat) as int;
            lemma_pow2_unfold((log + 1) as nat);
            lemma_pow2_pos(log as nat);
            let half = rest as int / 2;
            assert(half * (2 * p) <= rest * p) by (nonlinear_arith)
                requires
                    half * 2 <= rest,
                    p > 0,
            ;
            assert((rest + 1) * p <= (half + 1) * (2 * p)) by (nonlinear_arith)
                requires
                    rest + 1 <= 2 * (half + 1),
                    p > 0,
            ;
            if log == 63 {
                lemma2_to64();
                lemma2_to64_rest();
                assert(rest * p >= 2 * p) by (nonlinear_arith)
                    requires
                        rest >= 2,
                        p > 0,
                ;
            }
        }
        rest = rest / 2;
        log = log + 1;
    }
    assert(1 * pow2(log as nat) == pow2(log as nat)) by (nonlinear_arith);
    assert((1 + 1) * pow2(log as nat) == 2 * pow2(log as nat)) by (nonlinear_arith);
    proof {
        lemma_floor_log2(n as int);
        lemma_ilog2_unique(n as int, log as int, floor_log2(n as int) as int);
    }
    log
}

/// Two logarithms of one number are the same.
pub proof fn lemma_ilog2_unique(n: int, a: int, b: int)
    requires
        is_ilog2(n, a),
        is_ilog2(n, b),
    ensures
        a == b,
{
    if a < b {
        lemma_pow2_unfold((a + 1) as nat);
        if a + 1 < b {
            lemma_pow2_strictly_increases((a + 1) as nat, b as nat);
        }
    } else if b < a {
        lemma_pow2_unfold((b + 1) as nat);
        if b + 1 < a {
            lemma_pow2_strictly_increases((b + 1) as nat, a as nat);
        }
    }
}

/// A power of two has its exponent as logarithm.
pub proof fn lemma_ilog2_of_pow2(log: nat)
    ensures
        is_ilog2(pow2(log) as int, log as int),
{
    lemma_pow2_pos(log);
}

/// The number whose `log` lowest bits are those of `i` in reverse order.
pub open spec fn bit_reversed(i: int, log: nat) -> int
    decreases log,
{
    if log == 0 {
        0
    } else {
        (i % 2) * pow2((log - 1) as nat) + bit_reversed(i / 2, (log - 1) as nat)
    }
}

/// A reversed index is in range.
pub proof fn lemma_bit_reversed_bound(i: int, log: nat)
    ensures
        0 <= bit_reversed(i, log) < pow2(log),
    decreases log,
{
    lemma2_to64();
    if log > 0 {
        let p = pow2((log - 1) as nat) as int;
        lemma_bit_reversed_bound(i / 2, (log - 1) as nat);
        lemma_pow2_unfold(log);
        assert(0 <= (i % 2) * p <= p) by (nonlinear_arith)
            requires
                0 <= i % 2 <= 1,
                p > 0,
        ;
    }
}

/// The top bit of an index is the bottom bit of its reversal.
proof fn lemma_bit_reversed_top(i: int, log: nat)
    requires
        log > 0,
        0 <= i < pow2(log),
    ensures
        bit_reversed(i, log) == 2 * bit_reversed(
            i % (pow2((log - 1) as nat) as int),
            (log - 1) as nat,
        ) + i / (pow2((log - 1) as nat) as int),
    decreases log,
{
    lemma2_to64();
    lemma_pow2_unfold(log);
    if log == 1 {
        assert(pow2(0) == 1);
        assert(bit_reversed(i / 2, 0) == 0);
        assert(i % 1 == 0 && i / 1 == i);
        assert((i % 2) * 1 == i % 2);
        assert(bit_reversed(0, 0) == 0);
    } else {
        let m = (log - 1) as nat;
        let p = pow2(m) as int;
        let q = pow2((log - 2) as nat) as int;
        lemma_pow2_unfold(m);
        assert(p == 2 * q);
        lemma_bit_reversed_top(i / 2, m);
        // Splitting off the top bit commutes with dropping the bottom bit.
        assert((i % p) / 2 == (i / 2) % q && i / p == (i / 2) / q && (i % p) % 2 == i % 2) by {
            lemma_mod_breakdown(i, 2, q);
            lemma_div_denominator(i, 2, q);
            assert(2 * q == p);
            assert((i / 2) % q * 2 + i % 2 == i % p);
        }
        assert((i % 2) * p == 2 * ((i % 2) * q)) by (nonlinear_arith)
            requires
                p == 2 * q,
        ;
        let r = i % p;
        assert(bit_reversed(r, m) == (r % 2) * q + bit_reversed(r / 2, (m - 1) as nat));
    }
}

/// Reversing the bits twice gives the index back.
pub proof fn law_bit_reversal_is_an_involution(i: int, log: nat)
    requires
        0 <= i < pow2(log),
    ensures
        bit_reversed(bit_reversed(i, log), log) == i,
    decreases log,
{
    lemma2_to64();
    if log > 0 {
        let m = (log - 1) as nat;
        let p = pow2(m) as int;
        lemma_pow2_unfold(log);
        lemma_bit_reversed_bound(i, log);
        let r = bit_reversed(i, log);
        lemma_bit_reversed_bound(i / 2, m);
        lemma_bit_reversed_top(r, log);
        let low = bit_reversed(i / 2, m);
        assert(r == (i % 2) * p + low);
        assert(r % p == low && r / p == i % 2) by {
            lemma_fundamental_div_mod_converse(r, p, i % 2, low);
        }
        law_bit_reversal_is_an_involution(i / 2, m);
    }
}

/// The index whose `log` lowest bits are those of `i` in reverse order.
pub fn bit_reverse_index(i: usize, log: u32) -> (r: usize)
    requires
        log < usize::BITS,
        i < pow2(log as nat),
    ensures
        r == bit_reversed(i as int, log as nat),
        r < pow2(log as nat),
{
    let mut rest: usize = i;
    let mut out: usize = 0;
    let mut k: u32 = 0;
    proof {
        lemma2_to64();
        lemma_bit_reversed_bound(i as int, log as nat);
        lemma_usize_pow2(log);
        assert(0 * pow2(log as nat) == 0) by (nonlinear_arith);
    }
    while k < log
        invariant
            k <= log,
            log < usize::BITS,
            pow2(log as nat) <= usize::MAX,
            bit_reversed(i as int, log as nat) < pow2(log as nat),
            0 <= out < pow2(k as nat),
            bit_reversed(i as int, log as nat) == out * pow2((log - k) as nat) + bit_reversed(
                rest as int,
                (log - k) as nat,
            ),
        decreases log - k,
    {
        proof {
            let q = pow2((log - k - 1) as nat) as int;
            lemma_pow2_unfold((log - k) as nat);
            lemma_pow2_unfold((k + 1) as nat);
            if k + 1 < log {
                lemma_pow2_strictly_increases((k + 1) as nat, log as nat);
            }
            lemma_pow2_pos((log - k - 1) as nat);
            let b = rest as int % 2;
            assert(out * (2 * q) + b * q == (out * 2 + b) * q) by (nonlinear_arith);
            assert(pow2((log - k) as nat) as int == 2 * q);
        }
        out = out * 2 + rest % 2;
        rest = rest / 2;
        k = k + 1;
    }
    proof {
        assert(out * pow2(0) == out) by (nonlinear_arith)
            requires
                pow2(0) == 1,
        ;
    }
    out
}

/// A power of two below the word size fits in an index.
pub proof fn lemma_usize_pow2(log: u32)
    requires
        log < usize::BITS,
    ensures
        pow2(log as nat) <= usize::MAX,
{
    lemma2_to64();
    lemma2_to64_rest();
    if usize::BITS == 32 {
        if log < 32 {
            lemma_pow2_strictly_increases(log as nat, 32);
        }
    } else {
        lemma_pow2_strictly_increases(log as nat, 64);
    }
}

/// The values of `v` in bit-reversed order.
pub open spec fn bit_reverse_seq<T>(v: Seq<T>, log: nat) -> Seq<T> {
    Seq::new(v.len(), |i: int| v[bit_reversed(i, log)])
}

/// Permutes a column whose length is a power of two into bit-reversed order.
pub fn bit_reverse<T: Copy>(v: &mut Vec<T>)
    requires
        is_pow2(old(v).len() as int),
    ensures
        final(v)@ == bit_reverse_seq(old(v)@, floor_log2(old(v).len() as int)),
{
    let log: u32 = ilog2(v.len());
    proof {
        lemma_usize_bits_of_pow2(log);
    }
    let mut out: Vec<T> = Vec::new();
    let n: usize = v.len();
    for i in 0..n
        invariant
            n == v.len(),
            n == pow2(log as nat),
            log < usize::BITS,
            out@ == bit_reverse_seq(v@, log as nat).take(i as int),
    {
        proof {
            lemma_bit_reversed_bound(i as int, log as nat);
        }
        out.push(v[bit_reverse_index(i, log)]);
        assert(out@ =~= bit_reverse_seq(v@, log as nat).take(i + 1));
    }
    assert(out@ =~= bit_reverse_seq(v@, log as nat));
    *v = out;
}

/// An exponent whose power fits in an index is below the word size.
proof fn lemma_usize_bits_of_pow2(log: u32)
    requires
        pow2(log as nat) <= usize::MAX,
    ensures
        log < usize::BITS,
{
    lemma2_to64();
    lemma2_to64_rest();
    if log >= usize::BITS && log > 32 && usize::BITS == 32 {
        lemma_pow2_strictly_increases(32, log as nat);
    }
    if log > 64 {
        lemma_pow2_strictly_increases(64, log as nat);
    }
}

/// Bit-reversing a column twice gives it back.
pub proof fn law_bit_reverse_twice<T>(v: Seq<T>, log: nat)
    requires
        v.len() == pow2(log),
    ensures
        bit_reverse_seq(bit_reverse_seq(v, log), log) == v,
{
    assert forall|i: int| 0 <= i < v.len() implies bit_reverse_seq(
        bit_reverse_seq(v, log),
        log,
    )[i] == v[i] by {
        lemma_bit_reversed_bound(i, log);
        law_bit_reversal_is_an_involution(i, log);
    }
    assert(bit_reverse_seq(bit_reverse_seq(v, log), log) =~= v);
}

/// Bit `j` of a number.
pub open spec fn bit_at(i: int, j: nat) -> int {
    (i / pow2(j) as int) % 2
}

/// Reversing moves every bit: bit `j` of the reversed index is the bit of the index that is
/// as far from the top as `j` is from the bottom.
pub proof fn law_reversal_moves_bits(i: int, log: nat, j: nat)
    requires
        0 <= i < pow2(log),
        j < log,
    ensures
        0 <= bit_reversed(i, log) < pow2(log),
        bit_at(bit_reversed(i, log), j) == bit_at(i, (log - 1 - j) as nat),
    decreases log,
{
    let m = (log - 1) as nat;
    let p = pow2(m) as int;
    let low = bit_reversed(i / 2, m);
    let r = bit_reversed(i, log);
    lemma2_to64();
    lemma_pow2_unfold(log);
    lemma_pow2_pos(m);
    lemma_bit_reversed_bound(i, log);
    lemma_bit_reversed_bound(i / 2, m);
    assert(r == (i % 2) * p + low);
    if j == m {
        lemma_fundamental_div_mod_converse(r, p, i % 2, low);
        assert(i / 1 == i);
        assert((i % 2) % 2 == i % 2);
    } else {
        let e = (m - j) as nat;
        let q = pow2(j) as int;
        law_reversal_moves_bits(i / 2, m, j);
        lemma_pow2_pos(j);
        lemma_pow2_adds(j, e);
        lemma_pow2_unfold(e);
        lemma_pow2_pos((e - 1) as nat);
        // The top bit is an even multiple of the unit of bit `j`.
        let t = (i % 2) * pow2((e - 1) as nat);
        assert((i % 2) * p == q * (2 * t)) by (nonlinear_arith)
            requires
                p == q * pow2(e),
                pow2(e) == 2 * pow2((e - 1) as nat),
                t == (i % 2) * pow2((e - 1) as nat),
        ;
        lemma_hoist_over_denominator(low, 2 * t, q as nat);
        assert(r / q == low / q + 2 * t);
        assert((low / q + 2 * t) % 2 == (low / q) % 2);
        lemma_pow2_unfold((log - 1 - j) as nat);
        lemma_div_denominator(i, 2, pow2((m - 1 - j) as nat) as int);
    }
}

/// The value at a place of a bit-reversed column is the one at the reversed place.
pub proof fn law_bit_reverse_places<T>(v: Seq<T>, log: nat, i: int)
    requires
        v.len() == pow2(log),
        0 <= i < v.len(),
    ensures
        bit_reverse_seq(v, log).len() == v.len(),
        0 <= bit_reversed(i, log) < v.len(),
        bit_reverse_seq(v, log)[i] == v[bit_reversed(i, log)],
{
    lemma_bit_reversed_bound(i, log);
}

} // verus!
