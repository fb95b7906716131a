//! Fixed-width base conversion between byte strings and unsigned values.
//!
//! Wire integers (big-endian u16/u64 timestamps) and the z-base-32 key
//! encoding are all instances of reading or writing a value as a fixed
//! number of base-`b` digits, most significant first.

use vstd::prelude::*;
use vstd::arithmetic::div_mod::{
    lemma_fundamental_div_mod, lemma_fundamental_div_mod_converse,
};
use vstd::arithmetic::mul::lemma_mul_inequality;

verus! {

/// `base` raised to `n`.
pub open spec fn pow_b(base: nat, n: nat) -> nat
    decreases n,
{
    if n == 0 {
        1
    } else {
        base * pow_b(base, (n - 1) as nat)
    }
}

/// The `n` base-`base` digits of `v`, most significant first
/// (the value is taken modulo `base^n`).
pub open spec fn digits_of(v: nat, base: nat, n: nat) -> Seq<nat>
    decreases n,
{
    if n == 0 {
        Seq::empty()
    } else {
        digits_of(v / base, base, (n - 1) as nat).push(v % base)
    }
}

/// The value of a digit string, most significant digit first.
pub open spec fn undigits(s: Seq<nat>, base: nat) -> nat
    decreases s.len(),
{
    if s.len() == 0 {
        0
    } else {
        undigits(s.drop_last(), base) * base + s.last()
    }
}

/// The digits of a byte string, element-wise.
pub open spec fn nats_of(s: Seq<u8>) -> Seq<nat> {
    Seq::new(s.len(), |i: int| s[i] as nat)
}

/// A value below `base^n` has a quotient by `base` below `base^(n-1)`.
pub proof fn lemma_div_below_pow(v: nat, base: nat, n: nat)
    requires
        base >= 2,
        n >= 1,
        v < pow_b(base, n),
    ensures
        v / base < pow_b(base, (n - 1) as nat),
{
    let p = pow_b(base, (n - 1) as nat);
    lemma_fundamental_div_mod(v as int, base as int);
    if v / base >= p {
        lemma_mul_inequality(p as int, (v / base) as int, base as int);
        assert(p * base == base * p) by (nonlinear_arith);
        assert((v / base) * base == base * (v / base)) by (nonlinear_arith);
        assert(false);
    }
}

/// All digits produced by `digits_of` are below the base.
pub proof fn lemma_digits_of_bounded(v: nat, base: nat, n: nat)
    requires
        base >= 2,
    ensures
        digits_of(v, base, n).len() == n,
        forall|i: int| 0 <= i < n ==> digits_of(v, base, n)[i] < base,
    decreases n,
{
    if n > 0 {
        lemma_digits_of_bounded(v / base, base, (n - 1) as nat);
        lemma_fundamental_div_mod(v as int, base as int);
        let s = digits_of(v, base, n);
        let s0 = digits_of(v / base, base, (n - 1) as nat);
        assert(forall|i: int| 0 <= i < n - 1 ==> s[i] == s0[i]);
        assert(s.last() == v % base);
    }
}

/// Reading back the digits of `v` yields `v`, when `v` fits in `n` digits.
pub proof fn lemma_undigits_of_digits(v: nat, base: nat, n: nat)
    requires
        base >= 2,
        v < pow_b(base, n),
    ensures
        undigits(digits_of(v, base, n), base) == v,
    decreases n,
{
    if n == 0 {
        assert(v == 0);
    } else {
        lemma_fundamental_div_mod(v as int, base as int);
        lemma_div_below_pow(v, base, n);
        lemma_undigits_of_digits(v / base, base, (n - 1) as nat);
        let s = digits_of(v, base, n);
        let s0 = digits_of(v / base, base, (n - 1) as nat);
        assert(s.drop_last() =~= s0);
        assert(s.last() == v % base);
        assert((v / base) * base == base * (v / base)) by (nonlinear_arith);
    }
}

/// A digit string with digits below the base encodes a value below `base^len`.
pub proof fn lemma_undigits_bounded(s: Seq<nat>, base: nat)
    requires
        base >= 2,
        forall|i: int| 0 <= i < s.len() ==> s[i] < base,
    ensures
        undigits(s, base) < pow_b(base, s.len()),
    decreases s.len(),
{
    if s.len() > 0 {
        let s0 = s.drop_last();
        assert(forall|i: int| 0 <= i < s0.len() ==> s0[i] < base);
        lemma_undigits_bounded(s0, base);
        let u0 = undigits(s0, base);
        let p = pow_b(base, s0.len());
        lemma_mul_inequality(u0 as int + 1, p as int, base as int);
        assert((u0 + 1) * base == u0 * base + base) by (nonlinear_arith);
        assert(p * base == base * p) by (nonlinear_arith);
    }
}

/// Taking the digits of the value of a digit string restores the string.
pub proof fn lemma_digits_of_undigits(s: Seq<nat>, base: nat)
    requires
        base >= 2,
        forall|i: int| 0 <= i < s.len() ==> s[i] < base,
    ensures
        digits_of(undigits(s, base), base, s.len()) == s,
    decreases s.len(),
{
    if s.len() > 0 {
        let s0 = s.drop_last();
        assert(forall|i: int| 0 <= i < s0.len() ==> s0[i] < base);
        lemma_digits_of_undigits(s0, base);
        let u0 = undigits(s0, base);
        let u = undigits(s, base);
        lemma_fundamental_div_mod_converse(u as int, base as int, u0 as int, s.last() as int);
        assert(u / base == u0 && u % base == s.last());
        assert(digits_of(u, base, s.len()) =~= s);
    }
}

/// Reads a byte string as a base-`base` value, most significant byte first.
pub fn undigits_u64(s: &Vec<u8>, base: u64) -> (r: u64)
    requires
        base >= 2,
        forall|i: int| 0 <= i < s@.len() ==> s@[i] < base,
        pow_b(base as nat, s@.len()) <= 0x1_0000_0000_0000_0000,
    ensures
        r as nat == undigits(nats_of(s@), base as nat),
{
    let mut acc: u64 = 0;
    let mut i: usize = 0;
    proof {
        assert(nats_of(s@.take(0)) =~= Seq::<nat>::empty());
    }
    while i < s.len()
        invariant
            base >= 2,
            0 <= i <= s@.len(),
            forall|j: int| 0 <= j < s@.len() ==> s@[j] < base,
            pow_b(base as nat, s@.len()) <= 0x1_0000_0000_0000_0000,
            acc as nat == undigits(nats_of(s@.take(i as int)), base as nat),
            (acc as nat) < pow_b(base as nat, i as nat),
        decreases s@.len() - i,
    {
        proof {
            lemma_pow_b_monotonic(base as nat, (i + 1) as nat, s@.len());
            assert((acc * base + s@[i as int]) < pow_b(base as nat, (i + 1) as nat)) by {
                let p = pow_b(base as nat, i as nat);
                lemma_mul_inequality(acc as int + 1, p as int, base as int);
                assert((acc + 1) * base == acc * base + base) by (nonlinear_arith);
                assert(p * (base as nat) == (base as nat) * p) by (nonlinear_arith);
            }
            let t1 = nats_of(s@.take(i as int + 1));
            assert(t1.drop_last() =~= nats_of(s@.take(i as int)));
            assert(t1.last() == s@[i as int] as nat);
        }
        acc = acc * base + (s[i] as u64);
        i = i + 1;
    }
    proof {
        assert(s@.take(s@.len() as int) =~= s@);
    }
    acc
}

/// Writes `v` as `n` base-`base` digits, most significant first.
pub fn digits_u64(v: u64, base: u64, n: usize) -> (r: Vec<u8>)
    requires
        2 <= base <= 256,
        (v as nat) < pow_b(base as nat, n as nat),
    ensures
        r@.len() == n,
        nats_of(r@) == digits_of(v as nat, base as nat, n as nat),
        forall|i: int| 0 <= i < n ==> r@[i] < base,
    decreases n,
{
    if n == 0 {
        let r: Vec<u8> = Vec::new();
        proof {
            assert(nats_of(r@) =~= digits_of(v as nat, base as nat, 0));
        }
        r
    } else {
        proof {
            lemma_fundamental_div_mod(v as int, base as int);
            lemma_div_below_pow(v as nat, base as nat, n as nat);
        }
        let mut r = digits_u64(v / base, base, n - 1);
        r.push((v % base) as u8);
        proof {
            assert(nats_of(r@) =~= digits_of(v as nat, base as nat, n as nat));
        }
        r
    }
}

/// The concrete powers the codecs rely on.
pub proof fn lemma_pow_values()
    ensures
        pow_b(256, 2) == 0x10000,
        pow_b(256, 5) == 0x100_0000_0000,
        pow_b(256, 8) == 0x1_0000_0000_0000_0000,
        pow_b(32, 4) == 0x100000,
        pow_b(32, 8) == 0x100_0000_0000,
{
    reveal_with_fuel(pow_b, 9);
}

/// `base^n` grows with `n`.
pub proof fn lemma_pow_b_monotonic(base: nat, m: nat, n: nat)
    requires
        base >= 1,
        m <= n,
    ensures
        pow_b(base, m) <= pow_b(base, n),
    decreases n,
{
    if m < n {
        lemma_pow_b_monotonic(base, m, (n - 1) as nat);
        lemma_mul_inequality(1, base as int, pow_b(base, (n - 1) as nat) as int);
        assert(base * pow_b(base, (n - 1) as nat) >= 1 * pow_b(base, (n - 1) as nat))
            by (nonlinear_arith)
            requires base >= 1 && pow_b(base, (n - 1) as nat) >= 0;
    }
}

} // verus!
