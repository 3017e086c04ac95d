//! 256-bit indices and the bit arithmetic that shapes the back-pointer graph.
//!
//! Arithmetic on an `Index` is done by ethers-core's `U256`, whose operations
//! the uint crate generates; the wrappers below name the ones relied on.

use vstd::arithmetic::power2::{lemma_pow2_pos, lemma_pow2_strictly_increases, pow2};
use vstd::prelude::*;

use ethers_core::types::U256;

verus! {

/// An unsigned 256-bit index, held as four little-endian 64-bit words.
#[derive(Clone, Copy, Debug, PartialEq, Eq, Structural)]
pub struct Index {
    pub w0: u64,
    pub w1: u64,
    pub w2: u64,
    pub w3: u64,
}

/// Number of trailing zero bits of a positive number.
pub open spec fn tz(n: nat) -> nat
    decreases n,
{
    if n == 0 || n % 2 == 1 {
        0
    } else {
        1 + tz(n / 2)
    }
}

/// The largest power of two that divides `n`.
pub open spec fn spec_lowbit(n: nat) -> nat {
    pow2(tz(n))
}

/// `n` with its lowest set bit cleared.
pub open spec fn spec_pred(n: nat) -> nat {
    (n - spec_lowbit(n)) as nat
}

/// `n` shifted right by `p` bits.
pub open spec fn shr(n: nat, p: nat) -> nat
    decreases p,
{
    if p == 0 {
        n
    } else {
        shr(n / 2, (p - 1) as nat)
    }
}

/// Whether bit `p` of `n` is set.
pub open spec fn bit_set(n: nat, p: nat) -> bool {
    shr(n, p) % 2 == 1
}

/// `n` with every bit below position `p` cleared.
pub open spec fn clear_below(n: nat, p: nat) -> nat {
    shr(n, p) * pow2(p)
}

/// One past the largest index.
pub open spec fn index_bound() -> nat {
    0x10000000000000000 * 0x10000000000000000 * 0x10000000000000000 * 0x10000000000000000
}

/// The bound is 2^256.
pub proof fn lemma_index_bound()
    ensures
        pow2(256) == index_bound(),
        pow2(64) == 0x10000000000000000,
{
    vstd::arithmetic::power2::lemma2_to64();
    vstd::arithmetic::power2::lemma_pow2_adds(64, 64);
    vstd::arithmetic::power2::lemma_pow2_adds(128, 128);
    let p = pow2(64);
    assert(pow2(128) == p * p);
    assert(pow2(256) == (p * p) * (p * p));
    assert((p * p) * (p * p) == p * p * p * p) by (nonlinear_arith);
}

impl Index {
    /// The number this index stands for.
    pub open spec fn val(&self) -> nat {
        self.w0 as nat + self.w1 as nat * pow2(64) + self.w2 as nat * pow2(128) + self.w3 as nat
            * pow2(192)
    }

    pub fn from_u64(n: u64) -> (r: Index)
        ensures
            r.val() == n,
    {
        Index { w0: n, w1: 0, w2: 0, w3: 0 }
    }

    pub fn zero() -> (r: Index)
        ensures
            r.val() == 0,
    {
        Index::from_u64(0)
    }

    pub fn one() -> (r: Index)
        ensures
            r.val() == 1,
    {
        Index::from_u64(1)
    }
}

/// Four 64-bit words stay below 2^256.
pub proof fn lemma_val_bound(a: Index)
    ensures
        a.val() < index_bound(),
{
    lemma_index_bound();
    vstd::arithmetic::power2::lemma2_to64();
    vstd::arithmetic::power2::lemma_pow2_adds(64, 64);
    vstd::arithmetic::power2::lemma_pow2_adds(128, 64);
    vstd::arithmetic::power2::lemma_pow2_adds(192, 64);
    let p = pow2(64) as int;
    let w0 = a.w0 as int;
    let w1 = a.w1 as int;
    let w2 = a.w2 as int;
    let w3 = a.w3 as int;
    assert(w0 + w1 * p + w2 * (p * p) + w3 * (p * p * p) < p * p * p * p) by (nonlinear_arith)
        requires
            0 <= w0 < p,
            0 <= w1 < p,
            0 <= w2 < p,
            0 <= w3 < p,
    ;
}


/// A positive number is its odd part shifted up by its trailing zeros.
pub proof fn lemma_tz_split(n: nat)
    requires
        n > 0,
    ensures
        shr(n, tz(n)) % 2 == 1,
        clear_below(n, tz(n)) == n,
        1 <= spec_lowbit(n) <= n,
    decreases n,
{
    lemma_pow2_pos(tz(n));
    if n % 2 == 1 {
        vstd::arithmetic::power2::lemma2_to64();
    } else {
        let t = tz(n);
        lemma_tz_split(n / 2);
        vstd::arithmetic::power2::lemma_pow2_unfold(t);
        let s = shr(n / 2, (t - 1) as nat);
        let q = pow2((t - 1) as nat);
        assert(shr(n, t) == s);
        assert(s * q == n / 2);
        assert(s * pow2(t) == n) by (nonlinear_arith)
            requires
                pow2(t) == 2 * q,
                s * q == n / 2,
                n % 2 == 0,
        ;
        assert(s >= 1);
        assert(pow2(t) <= n) by (nonlinear_arith)
            requires
                s >= 1,
                s * pow2(t) == n,
        ;
    }
}

/// Below a number's trailing zeros every bit is clear.
pub proof fn lemma_below_tz_clear(n: nat, p: nat)
    requires
        n > 0,
        p < tz(n),
    ensures
        !bit_set(n, p),
    decreases p,
{
    if p > 0 {
        lemma_below_tz_clear(n / 2, (p - 1) as nat);
    }
}

/// An odd number shifted up by `p` bits has exactly `p` trailing zeros.
pub proof fn lemma_tz_of_shifted(s: nat, p: nat)
    requires
        s % 2 == 1,
    ensures
        tz(s * pow2(p)) == p,
        shr(s * pow2(p), p) == s,
    decreases p,
{
    if p == 0 {
        vstd::arithmetic::power2::lemma2_to64();
    } else {
        vstd::arithmetic::power2::lemma_pow2_unfold(p);
        lemma_pow2_pos((p - 1) as nat);
        let q = pow2((p - 1) as nat);
        let m = s * pow2(p);
        assert(m == 2 * (s * q) && s * q > 0) by (nonlinear_arith)
            requires
                pow2(p) == 2 * q,
                m == s * pow2(p),
                q > 0,
                s > 0,
        ;
        lemma_tz_of_shifted(s, (p - 1) as nat);
        assert(m / 2 == s * q);
    }
}

/// Incrementing a number only changes the bits up to the new trailing zeros.
pub proof fn lemma_shr_succ(k: nat, p: nat)
    requires
        p > tz(k + 1),
    ensures
        shr(k + 1, p) == shr(k, p),
    decreases k,
{
    let n = k + 1;
    if n % 2 == 1 {
        assert(n / 2 == k / 2);
    } else {
        assert(n / 2 == k / 2 + 1);
        lemma_shr_succ(k / 2, (p - 1) as nat);
    }
}

/// Clearing the lowest set bit leaves the bits above it alone.
pub proof fn lemma_shr_pred(n: nat, p: nat)
    requires
        n > 0,
        p > tz(n),
    ensures
        shr(n, p) == shr(spec_pred(n), p),
    decreases n,
{
    if n % 2 == 1 {
        vstd::arithmetic::power2::lemma2_to64();
        assert(spec_pred(n) == n - 1);
        assert((n - 1) as nat / 2 == n / 2);
    } else {
        lemma_pred_half(n);
        lemma_shr_pred(n / 2, (p - 1) as nat);
    }
}

/// For an even number, clearing the lowest set bit commutes with halving.
proof fn lemma_pred_half(n: nat)
    requires
        n > 0,
        n % 2 == 0,
    ensures
        spec_pred(n) / 2 == spec_pred(n / 2),
        spec_pred(n) % 2 == 0,
{
    let t = tz(n);
    vstd::arithmetic::power2::lemma_pow2_unfold(t);
    lemma_tz_split(n / 2);
    assert(pow2(t) == 2 * pow2((t - 1) as nat));
}

/// The lowest set bit of `pred(n)` lies above that of `n`.
pub proof fn lemma_pred_tz(n: nat)
    requires
        n > 0,
        spec_pred(n) > 0,
    ensures
        tz(spec_pred(n)) > tz(n),
    decreases n,
{
    if n % 2 == 1 {
        vstd::arithmetic::power2::lemma2_to64();
    } else {
        lemma_pred_half(n);
        lemma_pred_tz(n / 2);
    }
}

/// Every positive index below the bound has fewer than 256 trailing zeros.
pub proof fn lemma_tz_bound(n: nat)
    requires
        0 < n < index_bound(),
    ensures
        tz(n) < 256,
{
    lemma_index_bound();
    lemma_tz_split(n);
    if tz(n) > 256 {
        lemma_pow2_strictly_increases(256, tz(n));
    }
}


/// Relies on `U256::checked_add` (ethers-core, from uint): the sum, or `None`
/// past 256 bits.
#[verifier::external_body]
fn checked_add(a: Index, b: Index) -> (r: Option<Index>)
    ensures
        match r {
            Some(v) => a.val() + b.val() < index_bound() && v.val() == a.val() + b.val(),
            None => a.val() + b.val() >= index_bound(),
        },
{
    let x = U256([a.w0, a.w1, a.w2, a.w3]);
    let y = U256([b.w0, b.w1, b.w2, b.w3]);
    x.checked_add(y).map(|v| Index { w0: v.0[0], w1: v.0[1], w2: v.0[2], w3: v.0[3] })
}

/// Relies on `U256::checked_sub` (ethers-core, from uint): the difference, or
/// `None` below zero.
#[verifier::external_body]
fn checked_sub(a: Index, b: Index) -> (r: Option<Index>)
    ensures
        match r {
            Some(v) => b.val() <= a.val() && v.val() == a.val() - b.val(),
            None => b.val() > a.val(),
        },
{
    let x = U256([a.w0, a.w1, a.w2, a.w3]);
    let y = U256([b.w0, b.w1, b.w2, b.w3]);
    x.checked_sub(y).map(|v| Index { w0: v.0[0], w1: v.0[1], w2: v.0[2], w3: v.0[3] })
}

/// Relies on `U256::trailing_zeros` (ethers-core, from uint): the count of
/// trailing zero bits, 256 for zero.
#[verifier::external_body]
fn trailing_zeros(a: Index) -> (r: u32)
    ensures
        r == if a.val() == 0 {
            256
        } else {
            tz(a.val())
        },
{
    U256([a.w0, a.w1, a.w2, a.w3]).trailing_zeros()
}

/// Relies on `U256 << u32` (ethers-core, from uint): the bits shifted up, those
/// past 256 dropped.
#[verifier::external_body]
fn shl(a: Index, s: u32) -> (r: Index)
    ensures
        r.val() == (a.val() * pow2(s as nat)) % index_bound(),
{
    let v = U256([a.w0, a.w1, a.w2, a.w3]) << s;
    Index { w0: v.0[0], w1: v.0[1], w2: v.0[2], w3: v.0[3] }
}

/// Relies on `U256::is_zero` (ethers-core, from uint).
#[verifier::external_body]
fn is_zero(a: Index) -> (r: bool)
    ensures
        r == (a.val() == 0),
{
    U256([a.w0, a.w1, a.w2, a.w3]).is_zero()
}

/// Relies on `U256`'s `Ord` (ethers-core, from uint), which compares the words
/// from the top down.
#[verifier::external_body]
fn le(a: Index, b: Index) -> (r: bool)
    ensures
        r == (a.val() <= b.val()),
{
    U256([a.w0, a.w1, a.w2, a.w3]) <= U256([b.w0, b.w1, b.w2, b.w3])
}

impl Index {
    pub fn is_zero(&self) -> (r: bool)
        ensures
            r == (self.val() == 0),
    {
        is_zero(*self)
    }

    pub fn le(&self, other: &Index) -> (r: bool)
        ensures
            r == (self.val() <= other.val()),
    {
        le(*self, *other)
    }

    /// Number of trailing zero bits; 256 for zero.
    pub fn trailing_zeros(&self) -> (r: u32)
        ensures
            r == if self.val() == 0 {
                256
            } else {
                tz(self.val())
            },
            r <= 256,
    {
        proof {
            lemma_val_bound(*self);
            if self.val() > 0 {
                lemma_tz_bound(self.val());
            }
        }
        trailing_zeros(*self)
    }

    /// `self + 1`, which must stay below 2^256.
    pub fn succ(&self) -> (r: Index)
        requires
            self.val() + 1 < index_bound(),
        ensures
            r.val() == self.val() + 1,
    {
        match checked_add(*self, Index::one()) {
            Some(v) => v,
            None => {
                proof {
                    assert(false);
                }
                *self
            },
        }
    }

    /// `self - other`, where `other` must not exceed `self`.
    pub fn minus(&self, other: &Index) -> (r: Index)
        requires
            other.val() <= self.val(),
        ensures
            r.val() == self.val() - other.val(),
    {
        match checked_sub(*self, *other) {
            Some(v) => v,
            None => {
                proof {
                    assert(false);
                }
                *self
            },
        }
    }
}

/// The largest power of two dividing `n`; zero for zero.
pub fn highest_divisor_power_of_2(n: Index) -> (r: Index)
    ensures
        r.val() == if n.val() == 0 {
            0
        } else {
            spec_lowbit(n.val())
        },
{
    let t = n.trailing_zeros();
    proof {
        lemma_index_bound();
        lemma_val_bound(n);
        if n.val() > 0 {
            lemma_tz_split(n.val());
            if t < 256 {
                lemma_pow2_strictly_increases(t as nat, 256);
            }
            vstd::arithmetic::div_mod::lemma_small_mod(pow2(t as nat), index_bound());
        } else {
            lemma_pow2_pos(256);
            vstd::arithmetic::div_mod::lemma_mod_self_0(index_bound() as int);
        }
    }
    shl(Index::one(), t)
}

/// `n` with its lowest set bit cleared; zero for zero.
pub fn pred(n: Index) -> (r: Index)
    ensures
        r.val() == if n.val() == 0 {
            0
        } else {
            spec_pred(n.val())
        },
{
    let low = highest_divisor_power_of_2(n);
    proof {
        if n.val() > 0 {
            lemma_tz_split(n.val());
        }
    }
    n.minus(&low)
}


/// Zero has no bit set.
pub proof fn lemma_shr_zero(p: nat)
    ensures
        shr(0, p) == 0,
    decreases p,
{
    if p > 0 {
        lemma_shr_zero((p - 1) as nat);
    }
}

/// Clearing low bits never makes a number larger.
pub proof fn lemma_clear_below_le(n: nat, p: nat)
    ensures
        clear_below(n, p) <= n,
    decreases p,
{
    if p == 0 {
        vstd::arithmetic::power2::lemma2_to64();
    } else {
        lemma_clear_below_le(n / 2, (p - 1) as nat);
        vstd::arithmetic::power2::lemma_pow2_unfold(p);
        let s = shr(n / 2, (p - 1) as nat);
        let q = pow2((p - 1) as nat);
        assert(s * pow2(p) <= n) by (nonlinear_arith)
            requires
                pow2(p) == 2 * q,
                s * q <= n / 2,
        ;
    }
}


/// An index below 2^64 is its lowest word.
pub proof fn lemma_small_index(a: Index)
    requires
        a.val() < pow2(64),
    ensures
        a.val() == a.w0,
{
    vstd::arithmetic::power2::lemma_pow2_adds(64, 64);
    vstd::arithmetic::power2::lemma_pow2_adds(128, 64);
    lemma_pow2_pos(64);
    let p = pow2(64) as int;
    let w1 = a.w1 as int;
    let w2 = a.w2 as int;
    let w3 = a.w3 as int;
    assert(pow2(128) == p * p);
    assert(pow2(192) == p * p * p);
    assert(w1 * p + w2 * (p * p) + w3 * (p * p * p) >= (if w1 + w2 + w3 > 0 { p } else { 0 }))
        by (nonlinear_arith)
        requires
            p > 0,
            w1 >= 0,
            w2 >= 0,
            w3 >= 0,
    ;
    assert(w1 == 0 && w2 == 0 && w3 == 0);
    assert(w1 * pow2(64) + w2 * pow2(128) + w3 * pow2(192) == 0) by (nonlinear_arith)
        requires
            w1 == 0 && w2 == 0 && w3 == 0,
    ;
}


/// Clearing the lowest set bit of a positive `n` and adding it back gives `n`;
/// a power of two has nothing left once it is cleared.
pub proof fn lemma_pred_identity(n: nat, p: nat)
    requires
        n >= 1,
    ensures
        spec_pred(n) + spec_lowbit(n) == n,
        spec_pred(pow2(p)) == 0,
{
    lemma_tz_split(n);
    lemma_tz_of_shifted(1, p);
    assert(1 * pow2(p) == pow2(p));
}


/// Below the new trailing zeros, incrementing carries into every shifted value.
pub proof fn lemma_shr_succ_low(k: nat, p: nat)
    requires
        p < tz(k + 1),
    ensures
        shr(k, p) + 1 == shr(k + 1, p),
    decreases p,
{
    if p > 0 {
        assert((k + 1) / 2 == k / 2 + 1);
        lemma_shr_succ_low(k / 2, (p - 1) as nat);
    }
}

/// The most recent index up to `k` with exactly `p` trailing zeros, or 0
/// where there is none: the largest odd multiple of `2^p` not above `k`.
pub open spec fn latest_with_tz(k: nat, p: nat) -> nat {
    let q = shr(k, p);
    if q % 2 == 1 {
        q * pow2(p)
    } else if q > 0 {
        ((q - 1) * pow2(p)) as nat
    } else {
        0
    }
}

/// The index `latest_with_tz(k, p)` lies within `k` and, where it is not 0,
/// has exactly `p` trailing zeros.
pub proof fn lemma_latest_with_tz(k: nat, p: nat)
    ensures
        latest_with_tz(k, p) <= k,
        latest_with_tz(k, p) > 0 ==> tz(latest_with_tz(k, p)) == p,
{
    let q = shr(k, p);
    lemma_clear_below_le(k, p);
    lemma_pow2_pos(p);
    if q % 2 == 1 {
        lemma_tz_of_shifted(q, p);
    } else if q > 0 {
        lemma_tz_of_shifted((q - 1) as nat, p);
        assert((q - 1) * pow2(p) <= q * pow2(p)) by (nonlinear_arith)
            requires
                q >= 1,
        ;
    }
}

} // verus!
