use history_accumulator::{
    digest_data, hash_triple, highest_divisor_power_of_2, pred, zero_element, Accumulator, Index,
    Prover, ProverError, SimpleAccumulator, SimpleProver,
};
use sha2::Digest;

const WORDS: [&str; 6] = ["some", "small", "list", "of", "distinct", "elements"];

fn h(s: &str) -> [u8; 32] {
    sha2::Sha256::digest(s.as_bytes()).into()
}

fn idx(n: u64) -> Index {
    Index::from_u64(n)
}

fn original_scenario() {
    let mut prover = SimpleProver::default();
    let elements: Vec<[u8; 32]> = WORDS.iter().map(|e| h(e)).collect();

    prover.insert_data(WORDS[0].as_bytes());
    prover.insert_data(WORDS[1].as_bytes());
    prover.insert_data(WORDS[2].as_bytes());
    prover.insert_data(WORDS[3].as_bytes());
    let root_4 = prover.get_root();

    prover.insert_data(WORDS[4].as_bytes());
    prover.insert_data(WORDS[5].as_bytes());

    let witness = prover.prove_from(idx(4), idx(4)).unwrap();
    SimpleProver::verify(&root_4, idx(4), idx(4), &witness, &elements[3]).unwrap();
}

#[test]
fn lib_it_works() {
    original_scenario();
}

#[test]
fn simple_it_works() {
    original_scenario();
}

/// A prover fed the six words, with the root after each insert (index 0 is
/// the empty root).
fn six_word_prover() -> (SimpleProver, Vec<[u8; 32]>) {
    let mut prover = SimpleProver::new();
    let mut roots = vec![prover.get_root()];
    for w in WORDS.iter() {
        roots.push(prover.insert_data(w.as_bytes()));
    }
    (prover, roots)
}

#[test]
fn prove_four_four_verifies() {
    let (prover, roots) = six_word_prover();
    let w = prover.prove_from(idx(4), idx(4)).unwrap();
    assert_eq!(w.len(), 3);
    assert_eq!(SimpleProver::verify(&roots[4], idx(4), idx(4), &w, &h("of")), Ok(()));
}

#[test]
fn wrong_element_is_xi_mismatch() {
    let (prover, roots) = six_word_prover();
    let w = prover.prove_from(idx(4), idx(4)).unwrap();
    assert_eq!(
        SimpleProver::verify(&roots[4], idx(4), idx(4), &w, &h("WRONG")),
        Err(ProverError::XiMismatch)
    );
}

#[test]
fn truncated_witness_is_too_short() {
    let (prover, roots) = six_word_prover();
    let w = prover.prove_from(idx(4), idx(4)).unwrap();
    assert_eq!(
        SimpleProver::verify(&roots[4], idx(4), idx(4), &w[..2], &h("of")),
        Err(ProverError::WitnessTooShort)
    );
}

#[test]
fn prove_six_one_follows_the_path() {
    let (prover, roots) = six_word_prover();
    let w = prover.prove_from(idx(6), idx(1)).unwrap();
    assert_eq!(SimpleProver::verify(&roots[6], idx(6), idx(1), &w, &h("some")), Ok(()));
    // 6 -> pred 4 -> 3 (pred(4) = 0 < 1) -> pred 2 -> 1 (pred(2) = 0 < 1)
    let mut path = vec![6u64];
    let mut i = 6u64;
    while i > 1 {
        let p = i - (i & i.wrapping_neg());
        i = if p >= 1 { p } else { i - 1 };
        path.push(i);
    }
    assert_eq!(path, vec![6, 4, 3, 2, 1]);
    assert_eq!(w.len(), 3 * path.len());
}

#[test]
fn identical_inputs_give_identical_roots() {
    let mut a = SimpleAccumulator::new();
    let mut b = SimpleAccumulator::new();
    for w in WORDS.iter() {
        let ra = a.insert_data(w.as_bytes());
        // read-only calls in between change nothing
        let _ = b.get_root();
        let _ = b.get_state(idx(3));
        let rb = b.insert_data(w.as_bytes());
        assert_eq!(ra, rb);
        assert_eq!(a.get_root(), b.get_root());
    }
}

#[test]
fn forged_element_is_ri_mismatch() {
    let (prover, roots) = six_word_prover();
    let mut w = prover.prove_from(idx(4), idx(2)).unwrap();
    assert_eq!(SimpleProver::verify(&roots[4], idx(4), idx(2), &w, &h("small")), Ok(()));
    w[0][0] ^= 1;
    assert_eq!(
        SimpleProver::verify(&roots[4], idx(4), idx(2), &w, &h("small")),
        Err(ProverError::RiMismatch)
    );
}

#[test]
fn every_position_verifies_against_every_later_root() {
    let mut prover = SimpleProver::new();
    let mut roots = vec![prover.get_root()];
    let mut elems = vec![zero_element()];
    for n in 0..20u8 {
        let e = digest_data(&[n]);
        elems.push(e);
        roots.push(prover.insert(&e));
    }
    for i in 1..=20u64 {
        for j in 1..=i {
            let w = prover.prove_from(idx(i), idx(j)).unwrap();
            assert_eq!(w.len() % 3, 0);
            assert_eq!(
                SimpleProver::verify(&roots[i as usize], idx(i), idx(j), &w, &elems[j as usize]),
                Ok(())
            );
            let other = elems[(j as usize % 20) + 1];
            assert_eq!(
                SimpleProver::verify(&roots[i as usize], idx(i), idx(j), &w, &other),
                Err(ProverError::XiMismatch)
            );
            let bad_root = roots[i as usize - 1];
            assert_eq!(
                SimpleProver::verify(&bad_root, idx(i), idx(j), &w, &elems[j as usize]),
                Err(ProverError::RiMismatch)
            );
        }
    }
}

#[test]
fn witness_from_eight_to_one_has_seven_triples() {
    let mut prover = SimpleProver::new();
    for n in 0..8u8 {
        prover.insert_data(&[n]);
    }
    // 8 -> 7 -> 6 -> 4 -> 3 -> 2 -> 1
    let w = prover.prove_from(idx(8), idx(1)).unwrap();
    assert_eq!(w.len(), 21);
}

#[test]
fn new_roots_differ_from_all_earlier_ones() {
    let mut acc = SimpleAccumulator::new();
    let mut roots = vec![acc.get_root()];
    for n in 0..40u8 {
        let r = acc.insert_data(&[n % 3]);
        assert!(!roots.contains(&r));
        roots.push(r);
    }
}

#[test]
fn state_slots_hold_the_roots_of_the_length_prefixes() {
    let (prover, roots) = six_word_prover();
    // 6 = 0b110: bit 1 gives index 6, bit 2 gives index 4
    assert_eq!(prover.get_state(idx(6)), Some(roots[6]));
    assert_eq!(prover.get_state(idx(4)), Some(roots[4]));
    assert_eq!(prover.get_state(idx(0)), Some([0u8; 32]));
}

#[test]
fn empty_accumulator_has_zero_root() {
    let acc = SimpleAccumulator::new();
    assert_eq!(acc.get_root(), [0u8; 32]);
    assert!(acc.is_empty());
    assert_eq!(acc.len(), idx(0));
}

#[test]
fn first_root_hashes_against_zeros() {
    let mut acc = SimpleAccumulator::new();
    let x = h("first");
    let r = acc.insert(&x);
    assert_eq!(r, hash_triple(&x, &[0u8; 32], &[0u8; 32]));
    assert_ne!(r, x);
    assert_eq!(acc.len(), idx(1));
    assert!(!acc.is_empty());
}

#[test]
fn insert_chains_element_previous_and_pred_roots() {
    let mut acc = SimpleAccumulator::new();
    let xs: Vec<[u8; 32]> = WORDS.iter().map(|w| h(w)).collect();
    let mut roots = vec![[0u8; 32]];
    for x in xs.iter() {
        roots.push(acc.insert(x));
    }
    // r_6 = H(x_6 || r_5 || r_pred(6) = r_4)
    assert_eq!(roots[6], hash_triple(&xs[5], &roots[5], &roots[4]));
    // r_4 = H(x_4 || r_3 || r_0)
    assert_eq!(roots[4], hash_triple(&xs[3], &roots[3], &[0u8; 32]));
    // r_3 = H(x_3 || r_2 || r_2)
    assert_eq!(roots[3], hash_triple(&xs[2], &roots[2], &roots[2]));
}

#[test]
fn from_elements_matches_inserting() {
    let xs: Vec<[u8; 32]> = WORDS.iter().map(|w| h(w)).collect();
    let a = SimpleAccumulator::from_elements(&xs);
    let mut b = SimpleAccumulator::new();
    for x in xs.iter() {
        b.insert(x);
    }
    assert_eq!(a.get_root(), b.get_root());
    assert_eq!(a.len(), idx(6));
}

#[test]
fn prove_single_first_element() {
    let mut prover = SimpleProver::new();
    let r1 = prover.insert(&h("x"));
    let w = prover.prove_from(idx(1), idx(1)).unwrap();
    assert_eq!(w, vec![h("x"), [0u8; 32], [0u8; 32]]);
    assert_eq!(SimpleProver::verify(&r1, idx(1), idx(1), &w, &h("x")), Ok(()));
}

#[test]
fn out_of_bounds_requests() {
    let (prover, _) = six_word_prover();
    assert_eq!(prover.prove_from(idx(3), idx(4)), Err(ProverError::OutOfBounds));
    assert_eq!(prover.prove_from(idx(3), idx(0)), Err(ProverError::OutOfBounds));
    assert_eq!(prover.prove_from(idx(0), idx(0)), Err(ProverError::OutOfBounds));
}

#[test]
fn anchor_beyond_history_is_missing() {
    let (prover, _) = six_word_prover();
    assert_eq!(prover.prove_from(idx(7), idx(1)), Err(ProverError::MissingHistory(idx(7))));
}

#[test]
fn prove_uses_the_current_length() {
    let (prover, roots) = six_word_prover();
    let w = prover.prove(idx(2)).unwrap();
    assert_eq!(w, prover.prove_from(idx(6), idx(2)).unwrap());
    assert_eq!(SimpleProver::verify(&roots[6], idx(6), idx(2), &w, &h("small")), Ok(()));
}

#[test]
fn prover_taken_over_from_accumulator_lacks_old_history() {
    let mut acc = SimpleAccumulator::new();
    for w in WORDS[..4].iter() {
        acc.insert_data(w.as_bytes());
    }
    let mut prover = SimpleProver::from(acc);
    prover.insert_data(WORDS[4].as_bytes());
    let r6 = prover.insert_data(WORDS[5].as_bytes());
    assert_eq!(prover.len(), idx(6));
    assert_eq!(prover.element(idx(3)), None);
    assert_eq!(prover.element(idx(5)), Some(h("distinct")));
    assert_eq!(prover.get_r(idx(6)), Some(r6));
    assert_eq!(prover.get_r(idx(0)), Some([0u8; 32]));
    // index 6 needs r_5 and r_4; r_4 predates the prover
    assert_eq!(prover.prove_from(idx(6), idx(6)), Err(ProverError::MissingHistory(idx(4))));
    assert_eq!(prover.prove_from(idx(2), idx(1)), Err(ProverError::MissingHistory(idx(2))));
}

#[test]
fn predecessor_and_lowest_bit() {
    assert_eq!(highest_divisor_power_of_2(idx(12)), idx(4));
    assert_eq!(highest_divisor_power_of_2(idx(7)), idx(1));
    assert_eq!(pred(idx(12)), idx(8));
    assert_eq!(pred(idx(6)), idx(4));
    assert_eq!(pred(idx(8)), idx(0));
    for n in 1..200u64 {
        let p = pred(idx(n));
        let l = highest_divisor_power_of_2(idx(n));
        assert_eq!(p.w0 + l.w0, n);
    }
    let big = Index { w0: 0, w1: 0, w2: 8, w3: 1 };
    assert_eq!(highest_divisor_power_of_2(big), Index { w0: 0, w1: 0, w2: 8, w3: 0 });
    assert_eq!(pred(big), Index { w0: 0, w1: 0, w2: 0, w3: 1 });
    let top = Index { w0: 0, w1: 0, w2: 0, w3: 1 << 63 };
    assert_eq!(pred(top), idx(0));
}

#[test]
fn index_arithmetic_crosses_words() {
    let a = Index { w0: u64::MAX, w1: 0, w2: 0, w3: 0 };
    assert_eq!(a.succ(), Index { w0: 0, w1: 1, w2: 0, w3: 0 });
    assert_eq!(a.succ().minus(&idx(1)), a);
    assert_eq!(Index { w0: 0, w1: 0, w2: 1, w3: 0 }.trailing_zeros(), 128);
    assert_eq!(idx(0).trailing_zeros(), 256);
    assert_eq!(idx(40).trailing_zeros(), 3);
    assert!(idx(3).le(&idx(3)));
    assert!(!a.succ().le(&a));
    assert!(idx(0).is_zero());
    assert!(!a.is_zero());
}

#[test]
fn digest_is_sha256() {
    let d = digest_data(b"abc");
    let expected: [u8; 32] = [
        0xba, 0x78, 0x16, 0xbf, 0x8f, 0x01, 0xcf, 0xea, 0x41, 0x41, 0x40, 0xde, 0x5d, 0xae, 0x22,
        0x23, 0xb0, 0x03, 0x61, 0xa3, 0x96, 0x17, 0x7a, 0x9c, 0xb4, 0x10, 0xff, 0x61, 0xf2, 0x00,
        0x15, 0xad,
    ];
    assert_eq!(d, expected);
    let mut buf = Vec::new();
    buf.extend_from_slice(&[1u8; 32]);
    buf.extend_from_slice(&[2u8; 32]);
    buf.extend_from_slice(&[3u8; 32]);
    assert_eq!(hash_triple(&[1u8; 32], &[2u8; 32], &[3u8; 32]), digest_data(&buf));
}

#[test]
fn lowest_bit_and_predecessor_of_zero() {
    assert_eq!(highest_divisor_power_of_2(idx(0)), idx(0));
    assert_eq!(pred(idx(0)), idx(0));
}

#[test]
fn stale_slots_hold_the_latest_root_with_their_trailing_zeros() {
    let mut acc = SimpleAccumulator::new();
    let mut roots = vec![acc.get_root()];
    for n in 0..5u8 {
        roots.push(acc.insert_data(&[n]));
    }
    // 5 = 0b101; slot 1 is not live, and holds r_2, the latest index with
    // one trailing zero
    assert_eq!(acc.get_state(idx(2)), Some(roots[2]));
    assert_eq!(acc.get_state(idx(6)), Some(roots[2]));
    assert_eq!(acc.get_state(idx(1)), Some(roots[5]));
    assert_eq!(acc.get_state(idx(4)), Some(roots[4]));
    // no index up to 5 has three trailing zeros
    assert_eq!(acc.get_state(idx(8)), Some([0u8; 32]));
}

#[test]
fn prover_taken_over_keeps_the_accumulator_slots() {
    let mut acc = SimpleAccumulator::new();
    for n in 0..7u8 {
        acc.insert_data(&[n]);
    }
    let copy = acc.clone();
    let prover = SimpleProver::from(acc);
    for i in 0..20u64 {
        assert_eq!(prover.get_state(idx(i)), copy.get_state(idx(i)));
    }
    assert_eq!(prover.get_root(), copy.get_root());
}
