//! The prover, which keeps the history it has seen, and the stateless verifier.

use vstd::prelude::*;

use crate::accumulator::{root_at, Accumulator, SimpleAccumulator};
use crate::bits::{latest_with_tz, lemma_small_index, lemma_tz_split, pred, spec_pred, Index};
use crate::hash::{digests, hash3, hash_triple, same_digest, zero_digest, zero_element};

verus! {

/// Why a witness could not be built or did not check.
#[derive(Clone, Copy, Debug, PartialEq, Eq, Structural)]
pub enum ProverError {
    /// The prover has no record of this index.
    MissingHistory(Index),
    /// The target index is zero or lies beyond the anchor.
    OutOfBounds,
    /// The witness ran out before the target was reached.
    WitnessTooShort,
    /// A triple did not hash to the root it should open.
    RiMismatch,
    /// The path reached the target, where another element stands.
    XiMismatch,
}

/// The index that one step from `i` towards `j` lands on: `pred(i)` where
/// that does not pass `j`, else `i - 1`.
pub open spec fn step(i: nat, j: nat) -> nat {
    if spec_pred(i) >= j {
        spec_pred(i)
    } else {
        (i - 1) as nat
    }
}

proof fn lemma_step(i: nat, j: nat)
    requires
        j < i,
    ensures
        j <= step(i, j) < i,
{
    lemma_tz_split(i);
}

/// Whether a prover that recorded the indices above `base` up to `k`, and
/// index 0, knows index `n`.
pub open spec fn known(base: nat, k: nat, n: nat) -> bool {
    n == 0 || (base < n && n <= k)
}

/// The witness for element `j` against the root at `i`, from a prover with
/// history `h` that recorded the indices above `base`: `Err(None)` where `j`
/// is zero or beyond `i`, `Err(Some(n))` where index `n` is needed and not
/// recorded.
pub open spec fn witness_spec(base: nat, h: Seq<Seq<u8>>, i: nat, j: nat) -> Result<
    Seq<Seq<u8>>,
    Option<nat>,
>
    decreases i,
    via witness_spec_decreases
{
    let k = h.len();
    if j > i || j == 0 {
        Err(None)
    } else if !known(base, k, i) {
        Err(Some(i))
    } else if !known(base, k, (i - 1) as nat) {
        Err(Some((i - 1) as nat))
    } else if !known(base, k, spec_pred(i)) {
        Err(Some(spec_pred(i)))
    } else {
        let head = seq![h[i - 1], root_at(h, (i - 1) as nat), root_at(h, spec_pred(i))];
        if i == j {
            Ok(head)
        } else {
            match witness_spec(base, h, step(i, j), j) {
                Ok(w) => Ok(head + w),
                Err(e) => Err(e),
            }
        }
    }
}

#[via_fn]
proof fn witness_spec_decreases(base: nat, h: Seq<Seq<u8>>, i: nat, j: nat) {
    if 0 < j < i {
        lemma_step(i, j);
    }
}

/// Whether a result of `prove_from` is the one `witness_spec` gives.
pub open spec fn proof_result(
    r: Result<Vec<[u8; 32]>, ProverError>,
    s: Result<Seq<Seq<u8>>, Option<nat>>,
) -> bool {
    match (r, s) {
        (Ok(w), Ok(ws)) => digests(w@) == ws,
        (Err(ProverError::OutOfBounds), Err(None)) => true,
        (Err(ProverError::MissingHistory(m)), Err(Some(n))) => m.val() == n,
        _ => false,
    }
}

/// What `verify` answers on anchor root `r` at index `i`, target `j`,
/// witness `w` and claimed element `x`.
pub open spec fn verify_spec(r: Seq<u8>, i: nat, j: nat, w: Seq<Seq<u8>>, x: Seq<u8>) -> Result<
    (),
    ProverError,
>
    decreases i,
    via verify_spec_decreases
{
    if w.len() < 3 {
        Err(ProverError::WitnessTooShort)
    } else if hash3(w[0], w[1], w[2]) != r {
        Err(ProverError::RiMismatch)
    } else if i <= j {
        if w[0] == x {
            Ok(())
        } else {
            Err(ProverError::XiMismatch)
        }
    } else {
        let next = if spec_pred(i) >= j {
            w[2]
        } else {
            w[1]
        };
        verify_spec(next, step(i, j), j, w.skip(3), x)
    }
}

#[via_fn]
proof fn verify_spec_decreases(r: Seq<u8>, i: nat, j: nat, w: Seq<Seq<u8>>, x: Seq<u8>) {
    if j < i {
        lemma_step(i, j);
    }
}

/// An accumulator that also records every element and root from some point on.
#[derive(Clone)]
pub struct SimpleProver {
    accumulator: SimpleAccumulator,
    base: Index,
    elements: Vec<[u8; 32]>,
    r: Vec<[u8; 32]>,
}

/// An accumulator that also keeps its history, and so can build witnesses.
pub trait Prover: Accumulator {
    /// The recorded element at index `n`: zero at index 0, `None` where `n`
    /// was not recorded.
    fn element(&self, n: Index) -> (r: Option<[u8; 32]>)
        requires
            self.wf(),
        ensures
            r.is_some() == known(self.base(), self.history().len(), n.val()),
            r.is_some() ==> r.unwrap()@ == (if n.val() == 0 {
                zero_digest()
            } else {
                self.history()[n.val() - 1]
            }),
    ;

    /// The recorded root at index `n`: zero at index 0, `None` where `n` was
    /// not recorded.
    fn get_r(&self, n: Index) -> (r: Option<[u8; 32]>)
        requires
            self.wf(),
        ensures
            r.is_some() == known(self.base(), self.history().len(), n.val()),
            r.is_some() ==> r.unwrap()@ == root_at(self.history(), n.val()),
    ;

    /// The witness that element `j` sat at position `j` of the history, to be
    /// checked against the root at `i`: one triple (element, previous root,
    /// root at pred) per index on the path from `i` down to `j`.
    fn prove_from(&self, i: Index, j: Index) -> (r: Result<Vec<[u8; 32]>, ProverError>)
        requires
            self.wf(),
        ensures
            proof_result(r, witness_spec(self.base(), self.history(), i.val(), j.val())),
    ;

    /// `prove_from` anchored at the current length.
    fn prove(&self, j: Index) -> (r: Result<Vec<[u8; 32]>, ProverError>)
        requires
            self.wf(),
        ensures
            proof_result(
                r,
                witness_spec(self.base(), self.history(), self.history().len(), j.val()),
            ),
    {
        self.prove_from(self.len(), j)
    }

    /// Checks that `witness` opens the root `r_i` at index `i` down to index
    /// `j`, where `element` must stand.
    fn verify(r_i: &[u8; 32], i: Index, j: Index, witness: &[[u8; 32]], element: &[u8; 32]) -> (r:
        Result<(), ProverError>)
        requires
            j.val() <= i.val(),
        ensures
            r == verify_spec(r_i@, i.val(), j.val(), digests(witness@), element@),
    {
        assert(digests(witness@).skip(0) =~= digests(witness@));
        verify_at(r_i, i, j, witness, 0, element)
    }
}

impl Default for SimpleProver {
    fn default() -> (r: SimpleProver)
        ensures
            r.wf(),
            r.history() == Seq::<Seq<u8>>::empty(),
            forall|p: nat| p < 256 ==> #[trigger] r.slot(p) == zero_digest(),
            r.base() == 0,
    {
        Self::new()
    }
}

impl SimpleProver {
    /// A prover over an existing accumulator; it records from here on.
    pub fn from(accumulator: SimpleAccumulator) -> (r: SimpleProver)
        requires
            accumulator.wf(),
        ensures
            r.wf(),
            r.history() == accumulator.history(),
            r.base() == accumulator.history().len(),
            forall|p: nat| p < 256 ==> #[trigger] r.slot(p) == accumulator.slot(p),
    {
        let base = accumulator.len();
        SimpleProver { accumulator, base, elements: Vec::new(), r: Vec::new() }
    }

    /// The length of the history when recording began.
    pub closed spec fn recorded_from(&self) -> nat {
        self.base.val()
    }

    /// The elements and roots above `base` are recorded, in order.
    pub closed spec fn inv(&self) -> bool {
        let h = self.accumulator.history();
        &&& self.accumulator.wf()
        &&& self.base.val() <= h.len()
        &&& self.elements@.len() == h.len() - self.base.val()
        &&& self.r@.len() == h.len() - self.base.val()
        &&& forall|n: int|
            0 <= n < self.elements@.len() ==> #[trigger] self.elements@[n]@ == h[self.base.val()
                + n]
        &&& forall|n: int|
            0 <= n < self.r@.len() ==> #[trigger] self.r@[n]@ == root_at(
                h,
                (self.base.val() + n + 1) as nat,
            )
    }

    /// The accumulator underneath.
    pub closed spec fn inner(&self) -> SimpleAccumulator {
        self.accumulator
    }
}

impl Accumulator for SimpleProver {
    open spec fn history(&self) -> Seq<Seq<u8>> {
        self.inner().history()
    }

    open spec fn slot(&self, p: nat) -> Seq<u8> {
        self.inner().slot(p)
    }

    open spec fn wf(&self) -> bool {
        self.inv()
    }

    open spec fn base(&self) -> nat {
        self.recorded_from()
    }

    /// An empty prover, which records everything.
    fn new() -> (r: SimpleProver) {
        SimpleProver {
            accumulator: SimpleAccumulator::new(),
            base: Index::zero(),
            elements: Vec::new(),
            r: Vec::new(),
        }
    }

    fn len(&self) -> (r: Index) {
        self.accumulator.len()
    }

    fn is_empty(&self) -> (r: bool) {
        self.accumulator.is_empty()
    }

    fn get_state(&self, i: Index) -> (r: Option<[u8; 32]>) {
        self.accumulator.get_state(i)
    }

    fn get_root(&self) -> (r: [u8; 32]) {
        self.accumulator.get_root()
    }

    fn insert(&mut self, element: &[u8; 32]) -> (r: [u8; 32])
    {
        let ghost h = self.accumulator.history();
        let r = self.accumulator.insert(element);
        self.elements.push(*element);
        self.r.push(r);
        proof {
            let h1 = h.push(element@);
            assert forall|n: int| 0 <= n < self.r@.len() implies #[trigger] self.r@[n]@ == root_at(
                h1,
                (self.base.val() + n + 1) as nat,
            ) by {
                if n + 1 < self.r@.len() {
                    crate::accumulator::lemma_root_prefix(h, element@, (self.base.val() + n + 1) as nat);
                }
            }
            assert forall|n: int| 0 <= n < self.elements@.len() implies #[trigger] self.elements@[n]@
                == h1[self.base.val() + n] by {}
        }
        r
    }
}

impl Prover for SimpleProver {
    fn element(&self, n: Index) -> (r: Option<[u8; 32]>)
    {
        if n.is_zero() {
            return Some(zero_element());
        }
        if !n.le(&self.accumulator.len()) || n.le(&self.base) {
            return None;
        }
        let off = n.minus(&self.base);
        let len = self.elements.len();
        proof {
            vstd::arithmetic::power2::lemma2_to64();
            assert(off.val() <= len);
            lemma_small_index(off);
        }
        Some(self.elements[(off.w0 - 1) as usize])
    }

    fn get_r(&self, n: Index) -> (r: Option<[u8; 32]>)
    {
        if n.is_zero() {
            return Some(zero_element());
        }
        if !n.le(&self.accumulator.len()) || n.le(&self.base) {
            return None;
        }
        let off = n.minus(&self.base);
        let len = self.r.len();
        proof {
            vstd::arithmetic::power2::lemma2_to64();
            assert(off.val() <= len);
            lemma_small_index(off);
        }
        Some(self.r[(off.w0 - 1) as usize])
    }

    fn prove_from(&self, i: Index, j: Index) -> (r: Result<Vec<[u8; 32]>, ProverError>)
        decreases i.val(),
    {
        if !j.le(&i) || j.is_zero() {
            return Err(ProverError::OutOfBounds);
        }
        let pred_i = pred(i);
        let i1 = i.minus(&Index::one());
        let x = match self.element(i) {
            Some(x) => x,
            None => return Err(ProverError::MissingHistory(i)),
        };
        let prev = match self.get_r(i1) {
            Some(x) => x,
            None => return Err(ProverError::MissingHistory(i1)),
        };
        let pr = match self.get_r(pred_i) {
            Some(x) => x,
            None => return Err(ProverError::MissingHistory(pred_i)),
        };
        let mut witness = vec![x, prev, pr];
        let ghost head = seq![
            self.history()[i.val() - 1],
            root_at(self.history(), (i.val() - 1) as nat),
            root_at(self.history(), spec_pred(i.val())),
        ];
        assert(digests(witness@) =~= head);
        if i.le(&j) {
            return Ok(witness);
        }
        let next = if j.le(&pred_i) {
            pred_i
        } else {
            i1
        };
        proof {
            lemma_step(i.val(), j.val());
        }
        match self.prove_from(next, j) {
            Ok(rest) => {
                let mut rest = rest;
                let ghost tail = rest@;
                witness.append(&mut rest);
                assert(digests(witness@) =~= head + digests(tail));
                Ok(witness)
            },
            Err(e) => Err(e),
        }
    }
}

fn verify_at(
    r: &[u8; 32],
    i: Index,
    j: Index,
    w: &[[u8; 32]],
    off: usize,
    x: &[u8; 32],
) -> (res: Result<(), ProverError>)
    requires
        j.val() <= i.val(),
        off <= w@.len(),
    ensures
        res == verify_spec(r@, i.val(), j.val(), digests(w@).skip(off as int), x@),
    decreases i.val(),
{
    let ghost ws = digests(w@).skip(off as int);
    if w.len() - off < 3 {
        return Err(ProverError::WitnessTooShort);
    }
    assert(ws[0] == w@[off as int]@ && ws[1] == w@[off + 1]@ && ws[2] == w@[off + 2]@);
    let d = hash_triple(&w[off], &w[off + 1], &w[off + 2]);
    if !same_digest(&d, r) {
        return Err(ProverError::RiMismatch);
    }
    if i.le(&j) {
        if same_digest(&w[off], x) {
            return Ok(());
        } else {
            return Err(ProverError::XiMismatch);
        }
    }
    proof {
        lemma_step(i.val(), j.val());
        assert(ws.skip(3) =~= digests(w@).skip(off + 3));
    }
    let p = pred(i);
    if j.le(&p) {
        verify_at(&w[off + 2], p, j, w, off + 3, x)
    } else {
        verify_at(&w[off + 1], i.minus(&Index::one()), j, w, off + 3, x)
    }
}


/// Number of triples on the path from `i` down to `j`.
pub open spec fn path_len(i: nat, j: nat) -> nat
    decreases i,
    via path_len_decreases
{
    if i <= j {
        1
    } else {
        1 + path_len(step(i, j), j)
    }
}

#[via_fn]
proof fn path_len_decreases(i: nat, j: nat) {
    if j < i {
        lemma_step(i, j);
    }
}

/// Completeness: over a fully recorded history, every position `j` up to an
/// anchor `i` gets a witness, and `verify` accepts it with the element at `j`
/// against the root at `i`.
pub proof fn lemma_completeness(h: Seq<Seq<u8>>, i: nat, j: nat)
    requires
        1 <= j <= i <= h.len(),
    ensures
        witness_spec(0, h, i, j) is Ok,
        verify_spec(root_at(h, i), i, j, witness_spec(0, h, i, j)->Ok_0, h[j - 1]) == Ok::<
            (),
            ProverError,
        >(()),
    decreases i,
{
    lemma_tz_split(i);
    if i > j {
        lemma_step(i, j);
        lemma_completeness(h, step(i, j), j);
        let head = seq![h[i - 1], root_at(h, (i - 1) as nat), root_at(h, spec_pred(i))];
        let rest = witness_spec(0, h, step(i, j), j)->Ok_0;
        assert((head + rest).skip(3) =~= rest);
    }
}

/// Soundness against another element: a witness built for position `j`
/// is refused with `XiMismatch` for any element other than the one at `j`.
pub proof fn lemma_element_substitution(h: Seq<Seq<u8>>, i: nat, j: nat, x: Seq<u8>)
    requires
        1 <= j <= i <= h.len(),
        x != h[j - 1],
    ensures
        witness_spec(0, h, i, j) is Ok,
        verify_spec(root_at(h, i), i, j, witness_spec(0, h, i, j)->Ok_0, x) == Err::<
            (),
            ProverError,
        >(ProverError::XiMismatch),
    decreases i,
{
    lemma_tz_split(i);
    if i > j {
        lemma_step(i, j);
        lemma_element_substitution(h, step(i, j), j, x);
        let head = seq![h[i - 1], root_at(h, (i - 1) as nat), root_at(h, spec_pred(i))];
        let rest = witness_spec(0, h, step(i, j), j)->Ok_0;
        assert((head + rest).skip(3) =~= rest);
    }
}

/// Soundness against another anchor: a witness built against the root at `i`
/// is refused with `RiMismatch` by any other root, whatever the element.
pub proof fn lemma_root_substitution(h: Seq<Seq<u8>>, i: nat, j: nat, r: Seq<u8>, x: Seq<u8>)
    requires
        1 <= j <= i <= h.len(),
        r != root_at(h, i),
    ensures
        witness_spec(0, h, i, j) is Ok,
        verify_spec(r, i, j, witness_spec(0, h, i, j)->Ok_0, x) == Err::<(), ProverError>(
            ProverError::RiMismatch,
        ),
{
    lemma_completeness(h, i, j);
    lemma_tz_split(i);
}

/// A witness holds one triple per index on the path, so its length is a
/// multiple of three, and the path visits each index from `j` to `i` at most
/// once.
pub proof fn lemma_witness_length(base: nat, h: Seq<Seq<u8>>, i: nat, j: nat)
    requires
        witness_spec(base, h, i, j) is Ok,
    ensures
        witness_spec(base, h, i, j)->Ok_0.len() == 3 * path_len(i, j),
        witness_spec(base, h, i, j)->Ok_0.len() % 3 == 0,
        path_len(i, j) <= i - j + 1,
    decreases i,
{
    if i > j && j > 0 {
        lemma_step(i, j);
        lemma_witness_length(base, h, step(i, j), j);
    }
}


/// A prover's slots are those of its accumulator: slot `p` holds the root at
/// the most recent index up to the length with exactly `p` trailing zeros.
pub proof fn lemma_prover_slot_latest(pv: &SimpleProver, p: nat)
    requires
        pv.wf(),
        p < 256,
    ensures
        pv.slot(p) == root_at(pv.history(), latest_with_tz(pv.history().len(), p)),
{
    crate::accumulator::lemma_slot_latest(&pv.accumulator, p);
}

} // verus!
