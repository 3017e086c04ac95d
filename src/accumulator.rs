//! The accumulator: a length and one root per trailing-zero count.

use vstd::prelude::*;

use crate::bits::{
    bit_set, clear_below, index_bound, lemma_below_tz_clear, lemma_pred_tz,
    lemma_latest_with_tz, lemma_shr_pred, lemma_shr_succ, lemma_shr_succ_low, lemma_shr_zero,
    lemma_tz_bound, lemma_tz_split, lemma_val_bound, latest_with_tz, pred, shr, spec_pred, tz,
    Index,
};
use crate::hash::{
    digest_data, digests, hash3, hash_triple, sha256_of, zero_digest, zero_element,
};

verus! {

/// The root after the first `n` elements of `h`: zero for the empty prefix,
/// otherwise the digest of the `n`-th element, the previous root and the root
/// at `pred(n)`.
pub open spec fn root_at(h: Seq<Seq<u8>>, n: nat) -> Seq<u8>
    decreases n,
    via root_at_decreases
{
    if n == 0 {
        zero_digest()
    } else {
        hash3(h[n - 1], root_at(h, (n - 1) as nat), root_at(h, spec_pred(n)))
    }
}

#[via_fn]
proof fn root_at_decreases(h: Seq<Seq<u8>>, n: nat) {
    if n > 0 {
        lemma_tz_split(n);
    }
}

/// A root depends only on the prefix of the history that it covers.
pub proof fn lemma_root_prefix(h: Seq<Seq<u8>>, x: Seq<u8>, n: nat)
    requires
        n <= h.len(),
    ensures
        root_at(h.push(x), n) == root_at(h, n),
    decreases n,
{
    if n > 0 {
        lemma_tz_split(n);
        lemma_root_prefix(h, x, (n - 1) as nat);
        lemma_root_prefix(h, x, spec_pred(n));
        assert(h.push(x)[n - 1] == h[n - 1]);
    }
}

/// Holds the number of elements inserted and, for each bit position `p`, the
/// latest root at an index with exactly `p` trailing zeros.
#[derive(Clone)]
pub struct SimpleAccumulator {
    k: Index,
    s: Vec<[u8; 32]>,
    hist: Ghost<Seq<Seq<u8>>>,
}

/// An append-only accumulator of 32-byte digests.
pub trait Accumulator: Sized {
    /// The elements inserted so far, oldest first.
    spec fn history(&self) -> Seq<Seq<u8>>;

    /// The root held for bit position `p`.
    spec fn slot(&self, p: nat) -> Seq<u8>;

    /// The internal invariant.
    spec fn wf(&self) -> bool;

    /// The length of the history from which on a prover records each element
    /// and root; an accumulator that keeps no such record reports 0. Only a
    /// constructor sets it.
    spec fn base(&self) -> nat;

    /// An empty accumulator, with every slot holding the zero digest.
    fn new() -> (r: Self)
        ensures
            r.wf(),
            r.history() == Seq::<Seq<u8>>::empty(),
            r.base() == 0,
            forall|p: nat| p < 256 ==> #[trigger] r.slot(p) == zero_digest(),
    ;

    /// The number of elements inserted.
    fn len(&self) -> (r: Index)
        requires
            self.wf(),
        ensures
            r.val() == self.history().len(),
    ;

    fn is_empty(&self) -> (r: bool)
        requires
            self.wf(),
        ensures
            r == (self.history().len() == 0),
    ;

    /// The zero digest for index 0, else the slot of `i`'s trailing-zero count.
    fn get_state(&self, i: Index) -> (r: Option<[u8; 32]>)
        requires
            self.wf(),
        ensures
            r.is_some(),
            r.unwrap()@ == (if i.val() == 0 {
                zero_digest()
            } else {
                self.slot(tz(i.val()))
            }),
    ;

    /// The root over every element inserted so far.
    fn get_root(&self) -> (r: [u8; 32])
        requires
            self.wf(),
        ensures
            r@ == root_at(self.history(), self.history().len()),
    ;

    /// Appends `element` and returns the new root, the digest of
    /// `element ‖ previous root ‖ root at pred(new length)`.
    fn insert(&mut self, element: &[u8; 32]) -> (r: [u8; 32])
        requires
            old(self).wf(),
            old(self).history().len() + 1 < index_bound(),
        ensures
            final(self).wf(),
            final(self).history() == old(self).history().push(element@),
            r@ == root_at(final(self).history(), final(self).history().len()),
            final(self).base() == old(self).base(),
            final(self).slot(tz(old(self).history().len() + 1)) == r@,
            forall|p: nat|
                p < 256 && p != tz(old(self).history().len() + 1) ==> #[trigger] final(self).slot(p)
                    == old(self).slot(p),
    ;

    /// Hashes `data` and inserts the digest.
    fn insert_data(&mut self, data: &[u8]) -> (r: [u8; 32])
        requires
            old(self).wf(),
            old(self).history().len() + 1 < index_bound(),
        ensures
            final(self).wf(),
            final(self).history() == old(self).history().push(sha256_of(data@)),
            r@ == root_at(final(self).history(), final(self).history().len()),
            final(self).base() == old(self).base(),
            final(self).slot(tz(old(self).history().len() + 1)) == r@,
            forall|p: nat|
                p < 256 && p != tz(old(self).history().len() + 1) ==> #[trigger] final(self).slot(p)
                    == old(self).slot(p),
    {
        let e = digest_data(data);
        self.insert(&e)
    }

    /// An accumulator fed `elements` in order.
    fn from_elements(elements: &[[u8; 32]]) -> (r: Self)
        ensures
            r.wf(),
            r.history() == digests(elements@),
            r.base() == 0,
    {
        let mut acc = Self::new();
        let mut n: usize = 0;
        while n < elements.len()
            invariant
                n <= elements@.len(),
                acc.wf(),
                acc.base() == 0,
                acc.history() == digests(elements@.subrange(0, n as int)),
            decreases elements@.len() - n,
        {
            proof {
                vstd::arithmetic::power2::lemma2_to64();
                vstd::arithmetic::power2::lemma_pow2_strictly_increases(64, 256);
            }
            acc.insert(&elements[n]);
            n = n + 1;
            assert(digests(elements@.subrange(0, n as int)) =~= digests(
                elements@.subrange(0, n - 1),
            ).push(elements@[n - 1]@));
        }
        assert(elements@.subrange(0, n as int) =~= elements@);
        acc
    }
}

/// What `get_state(i)` looks up: the zero digest for index 0, else the slot of
/// `i`'s trailing-zero count.
pub open spec fn state_at<A: Accumulator>(a: &A, i: nat) -> Seq<u8> {
    if i == 0 {
        zero_digest()
    } else {
        a.slot(tz(i))
    }
}

impl SimpleAccumulator {
    /// The elements inserted so far, oldest first.
    pub closed spec fn elements_so_far(&self) -> Seq<Seq<u8>> {
        self.hist@
    }

    /// The root held for bit position `p`.
    pub closed spec fn slot_value(&self, p: nat) -> Seq<u8> {
        self.s@[p as int]@
    }

    /// Slot `p` holds the root at the most recent index with exactly `p`
    /// trailing zeros, or the zero digest where there is none yet.
    pub closed spec fn inv(&self) -> bool {
        &&& self.s@.len() == 256
        &&& self.k.val() == self.hist@.len()
        &&& forall|p: nat|
            p < 256 ==> #[trigger] self.s@[p as int]@ == root_at(
                self.hist@,
                latest_with_tz(self.k.val(), p),
            )
    }
}

impl Default for SimpleAccumulator {
    fn default() -> (r: SimpleAccumulator)
        ensures
            r.wf(),
            r.history() == Seq::<Seq<u8>>::empty(),
            r.base() == 0,
            forall|p: nat| p < 256 ==> #[trigger] r.slot(p) == zero_digest(),
    {
        Self::new()
    }
}

impl Accumulator for SimpleAccumulator {
    open spec fn history(&self) -> Seq<Seq<u8>> {
        self.elements_so_far()
    }

    open spec fn slot(&self, p: nat) -> Seq<u8> {
        self.slot_value(p)
    }

    open spec fn wf(&self) -> bool {
        self.inv()
    }

    open spec fn base(&self) -> nat {
        0
    }

    fn new() -> (r: SimpleAccumulator) {
        let mut s: Vec<[u8; 32]> = Vec::new();
        let mut n: usize = 0;
        while n < 256
            invariant
                n <= 256,
                s@.len() == n,
                forall|m: int| 0 <= m < n ==> #[trigger] s@[m]@ == zero_digest(),
            decreases 256 - n,
        {
            s.push(zero_element());
            n = n + 1;
        }
        let r = SimpleAccumulator { k: Index::zero(), s, hist: Ghost(Seq::empty()) };
        assert forall|p: nat| p < 256 implies #[trigger] r.s@[p as int]@ == root_at(
            r.hist@,
            latest_with_tz(0, p),
        ) by {
            lemma_shr_zero(p);
        }
        r
    }

    fn len(&self) -> (r: Index) {
        self.k
    }

    fn is_empty(&self) -> (r: bool) {
        self.k.is_zero()
    }

    fn get_state(&self, i: Index) -> (r: Option<[u8; 32]>) {
        if i.is_zero() {
            Some(zero_element())
        } else {
            let t = i.trailing_zeros();
            proof {
                lemma_val_bound(i);
                lemma_tz_bound(i.val());
            }
            assert(self.slot(t as nat) == self.s@[t as int]@);
            Some(self.s[t as usize])
        }
    }

    fn get_root(&self) -> (r: [u8; 32]) {
        let ghost k = self.k.val();
        proof {
            if k > 0 {
                lemma_val_bound(self.k);
                lemma_tz_split(k);
                lemma_tz_bound(k);
                assert(self.s@[tz(k) as int]@ == root_at(self.hist@, latest_with_tz(k, tz(k))));
            }
        }
        match self.get_state(self.k) {
            Some(e) => e,
            None => zero_element(),
        }
    }

    fn insert(&mut self, element: &[u8; 32]) -> (r: [u8; 32])
    {
        let ghost h = self.hist@;
        let ghost k = self.k.val();
        let k1 = self.k.succ();
        let prev = self.get_root();
        let p = pred(k1);
        let pred_root = match self.get_state(p) {
            Some(e) => e,
            None => zero_element(),
        };
        let ghost q = spec_pred(k + 1);
        proof {
            lemma_tz_split(k + 1);
            if q > 0 {
                let tq = tz(q);
                lemma_pred_tz(k + 1);
                lemma_tz_bound(q);
                lemma_shr_succ(k, tq);
                lemma_shr_pred(k + 1, tq);
                lemma_tz_split(q);
                assert(latest_with_tz(k, tq) == q);
            }
            assert(pred_root@ == root_at(h, q));
        }
        let r = hash_triple(element, &prev, &pred_root);
        let t = k1.trailing_zeros();
        proof {
            lemma_val_bound(k1);
            lemma_tz_bound(k + 1);
        }
        self.s.set(t as usize, r);
        self.k = k1;
        self.hist = Ghost(h.push(element@));
        proof {
            let h1 = h.push(element@);
            lemma_root_prefix(h, element@, k);
            lemma_root_prefix(h, element@, q);
            assert(h1[k as int] == element@);
            assert(r@ == root_at(h1, k + 1));
            assert(latest_with_tz(k + 1, t as nat) == k + 1);
            assert forall|p: nat| p < 256 implies #[trigger] self.s@[p as int]@ == root_at(
                h1,
                latest_with_tz(k + 1, p),
            ) by {
                if p != t {
                    if p < t {
                        lemma_shr_succ_low(k, p);
                        lemma_below_tz_clear(k + 1, p);
                    } else {
                        lemma_shr_succ(k, p);
                    }
                    assert(latest_with_tz(k + 1, p) == latest_with_tz(k, p));
                    lemma_latest_with_tz(k, p);
                    lemma_root_prefix(h, element@, latest_with_tz(k, p));
                }
            }
        }
        r
    }
}


/// For every bit `p` set in the length `k`, looking up the index `m` made of
/// `k`'s bits from `p` up gives the root at `m`.
pub proof fn lemma_state_slot(acc: &SimpleAccumulator, p: nat)
    requires
        acc.wf(),
        p < 256,
        bit_set(acc.history().len(), p),
    ensures
        state_at(acc, clear_below(acc.history().len(), p)) == root_at(
            acc.history(),
            clear_below(acc.history().len(), p),
        ),
{
    let k = acc.history().len();
    crate::bits::lemma_tz_of_shifted(crate::bits::shr(k, p), p);
    vstd::arithmetic::power2::lemma_pow2_pos(p);
    assert(clear_below(k, p) > 0) by (nonlinear_arith)
        requires
            clear_below(k, p) == crate::bits::shr(k, p) * vstd::arithmetic::power2::pow2(p),
            crate::bits::shr(k, p) % 2 == 1,
            vstd::arithmetic::power2::pow2(p) > 0,
    ;
}

/// Slot `p` holds the root at the most recent index up to the length with
/// exactly `p` trailing zeros, or the zero digest (the root at 0) where no
/// such index has been reached yet.
pub proof fn lemma_slot_latest(acc: &SimpleAccumulator, p: nat)
    requires
        acc.wf(),
        p < 256,
    ensures
        acc.slot(p) == root_at(acc.history(), latest_with_tz(acc.history().len(), p)),
        latest_with_tz(acc.history().len(), p) <= acc.history().len(),
        latest_with_tz(acc.history().len(), p) > 0 ==> tz(
            latest_with_tz(acc.history().len(), p),
        ) == p,
{
    lemma_latest_with_tz(acc.history().len(), p);
}

/// Two accumulators fed the same elements in the same order have the same
/// root, and the same slots, whatever was read from them in between.
pub proof fn lemma_root_determinism(a: &SimpleAccumulator, b: &SimpleAccumulator)
    requires
        a.wf(),
        b.wf(),
        a.history() == b.history(),
    ensures
        root_at(a.history(), a.history().len()) == root_at(b.history(), b.history().len()),
        forall|p: nat| p < 256 ==> #[trigger] a.slot(p) == b.slot(p),
{
}


/// The 96 bytes whose digest is the root at `n >= 1`.
pub open spec fn root_input(h: Seq<Seq<u8>>, n: nat) -> Seq<u8> {
    h[n - 1] + root_at(h, (n - 1) as nat) + root_at(h, spec_pred(n))
}

/// The hash behaves on the inputs behind the roots of `h` as a random oracle
/// would with overwhelming probability: two of them with one digest are the
/// same input, none gives the zero digest, and each digest is 32 bytes long.
pub open spec fn no_collision(h: Seq<Seq<u8>>) -> bool {
    &&& forall|a: nat, b: nat|
        1 <= a <= h.len() && 1 <= b <= h.len() && #[trigger] root_at(h, a) == #[trigger] root_at(
            h,
            b,
        ) ==> root_input(h, a) == root_input(h, b)
    &&& forall|n: nat|
        1 <= n <= h.len() ==> #[trigger] root_at(h, n) != zero_digest() && root_at(h, n).len()
            == 32
}

/// Every element of the history is a 32-byte digest.
pub open spec fn digest_history(h: Seq<Seq<u8>>) -> bool {
    forall|n: int| 0 <= n < h.len() ==> (#[trigger] h[n]).len() == 32
}

proof fn lemma_roots_distinct(h: Seq<Seq<u8>>, n: nat, m: nat)
    requires
        no_collision(h),
        digest_history(h),
        m < n <= h.len(),
    ensures
        root_at(h, n) != root_at(h, m),
    decreases m,
{
    lemma_tz_split(n);
    assert(root_at(h, n) != zero_digest());
    if m > 0 {
        lemma_tz_split(m);
        lemma_roots_distinct(h, (n - 1) as nat, (m - 1) as nat);
        if root_at(h, n) == root_at(h, m) {
            let a = root_input(h, n);
            let b = root_input(h, m);
            assert(a == b);
            let rn = root_at(h, (n - 1) as nat);
            let rm = root_at(h, (m - 1) as nat);
            assert(rn.len() == 32 && rm.len() == 32) by {
                if n - 1 > 0 {
                    assert(root_at(h, (n - 1) as nat).len() == 32);
                }
                if m - 1 > 0 {
                    assert(root_at(h, (m - 1) as nat).len() == 32);
                }
            }
            assert(a.subrange(32, 64) =~= rn);
            assert(b.subrange(32, 64) =~= rm);
        }
    }
}

/// Appending never brings back an earlier root: where the hash does not
/// collide on the inputs behind the roots of the extended history, the root
/// after inserting `x` differs from the root at every earlier length.
pub proof fn lemma_append_only(h: Seq<Seq<u8>>, x: Seq<u8>, m: nat)
    requires
        no_collision(h.push(x)),
        digest_history(h),
        x.len() == 32,
        m <= h.len(),
    ensures
        root_at(h.push(x), h.len() + 1) != root_at(h, m),
{
    let h1 = h.push(x);
    assert(digest_history(h1));
    lemma_roots_distinct(h1, h.len() + 1, m);
    lemma_root_prefix(h, x, m);
}

} // verus!
