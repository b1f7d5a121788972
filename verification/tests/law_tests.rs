use lib::{
    dot_i32, sign, tadd, tmul, ConservationAnalyzer, EquivResult, KernelPatch, ScalarKernel,
    VecKernel, Vectorizer, NEG, POS, ZERO,
};

// ── Trit algebra edge cases ──

#[test]
fn sign_of_extremes() {
    assert_eq!(sign(i32::MIN), NEG);
    assert_eq!(sign(i32::MAX), POS);
}

#[test]
fn tmul_truncates_non_trit_bytes() {
    // 100 * 100 = 10000 = 39 * 256 + 16
    assert_eq!(tmul(100, 100), 16);
    assert_eq!(tmul(-128, -128), 0);
}

#[test]
fn tadd_of_non_trits_is_sign_of_sum() {
    assert_eq!(tadd(100, 100), POS);
    assert_eq!(tadd(-128, 127), NEG);
}

#[test]
fn dot_exact_value() {
    assert_eq!(dot_i32(&[POS, NEG, ZERO, POS], &[POS, POS, NEG, NEG]), -1);
    assert_eq!(dot_i32(&[100, -100], &[100, 100]), 0);
    assert_eq!(dot_i32(&[], &[]), 0);
}

#[test]
fn weight_sum_and_nnz() {
    let k = ScalarKernel::new(vec![POS, ZERO, NEG, POS, ZERO]);
    assert_eq!(k.weight_sum(), 1);
    assert_eq!(k.nnz(), 3);
    assert_eq!(k.n(), 5);
}

// ── Vectorization ──

#[test]
fn vectorize_clamps_chunk_size() {
    let k = ScalarKernel::new(vec![POS, NEG, POS]);
    let vk = Vectorizer::new(10).vectorize(&k);
    assert_eq!(vk.chunk_size, 3);
    assert_eq!(vk.weight_chunks, vec![vec![POS, NEG, POS]]);
    let empty = ScalarKernel::new(vec![]);
    let ve = Vectorizer::new(4).vectorize(&empty);
    assert_eq!(ve.chunk_size, 1);
    assert_eq!(ve.n_lanes(), 0);
    assert_eq!(ve.run(&[]), ZERO);
}

#[test]
fn vectorize_chunks_in_order() {
    let k = ScalarKernel::new(vec![POS, NEG, ZERO, POS, NEG]);
    let vk = Vectorizer::new(2).vectorize(&k);
    assert_eq!(vk.chunk_size, 2);
    assert_eq!(vk.weight_chunks, vec![vec![POS, NEG], vec![ZERO, POS], vec![NEG]]);
}

#[test]
fn vectorized_output_matches_scalar() {
    let k = ScalarKernel::new(vec![POS, POS, NEG]);
    let vk = Vectorizer::new(2).vectorize(&k);
    for x in [[POS, POS, POS], [NEG, POS, POS], [ZERO, NEG, POS]] {
        assert_eq!(vk.run(&x), k.run(&x));
    }
}

#[test]
fn vec_kernel_stops_at_shorter_side() {
    // Only the first weight chunk has a partner: 1*1 + 1*1 = 2.
    let vk = VecKernel { weight_chunks: vec![vec![POS, POS]], chunk_size: 2 };
    assert_eq!(vk.run(&[POS, POS, NEG, NEG]), POS);
}

#[test]
fn speedup_ratio_exact_values() {
    let k = ScalarKernel::new(vec![POS; 8]);
    let r = Vectorizer::new(1).vectorize(&k).theoretical_speedup_ratio();
    assert_eq!((r.num, r.den), (8, 4)); // 8 lanes: depth 3
    let k5 = ScalarKernel::new(vec![POS; 5]);
    let r5 = Vectorizer::new(1).vectorize(&k5).theoretical_speedup_ratio();
    assert_eq!((r5.num, r5.den), (5, 4)); // 5 lanes: depth ceil(log2 5) = 3
    let r1 = Vectorizer::new(8).vectorize(&k).theoretical_speedup_ratio();
    assert_eq!((r1.num, r1.den), (1, 1)); // one lane
    // A short last chunk: 5 weights in lanes of 3 and 2, depth 1.
    let r53 = Vectorizer::new(3).vectorize(&k5).theoretical_speedup_ratio();
    assert_eq!((r53.num, r53.den), (5, 4));
}

#[test]
fn narrowest_lane_is_never_slower() {
    for n in 1..=12usize {
        let k = ScalarKernel::new(vec![POS; n]);
        let r1 = Vectorizer::new(1).vectorize(&k).theoretical_speedup_ratio();
        for w in 1..=n + 2 {
            let rw = Vectorizer::new(w).vectorize(&k).theoretical_speedup_ratio();
            assert!(r1.num * rw.den >= rw.num * r1.den, "n={n} w={w}");
        }
    }
    // 3 weights: width 1 gives 3/3, width 2 gives 3/3 (not 4/3).
    let k3 = ScalarKernel::new(vec![POS, NEG, ZERO]);
    let r2 = Vectorizer::new(2).vectorize(&k3).theoretical_speedup_ratio();
    assert_eq!((r2.num, r2.den), (3, 3));
}

#[test]
fn prove_equiv_reports_counts_and_speedup() {
    let k = ScalarKernel::new(vec![POS, NEG, ZERO, POS]);
    let r = Vectorizer::new(1).prove_equiv(&k);
    match r {
        EquivResult::Proved { cases_verified, n, lane_width, speedup } => {
            assert_eq!(cases_verified, 81);
            assert_eq!(n, 4);
            assert_eq!(lane_width, 1);
            assert_eq!((speedup.num, speedup.den), (4, 3));
        }
        _ => panic!("expected a proof"),
    }
    let empty = ScalarKernel::new(vec![]);
    assert_eq!(Vectorizer::new(3).prove_equiv(&empty).cases_verified(), Some(1));
}

#[test]
fn prove_equiv_refuses_large_kernels() {
    let k = ScalarKernel::new(vec![POS; 11]);
    let r = Vectorizer::new(2).prove_equiv(&k);
    assert!(!r.is_proved());
    assert_eq!(r.cases_verified(), None);
    assert!(r.speedup().is_none());
    match r {
        EquivResult::Unverified { reason } => {
            assert_eq!(reason, "n > 10: exhaustive search exceeds tractable bound")
        }
        _ => panic!("expected Unverified"),
    }
}

#[test]
fn prove_equiv_at_the_bound() {
    let k = ScalarKernel::new(vec![POS, NEG, POS, NEG, ZERO, POS, POS, NEG, NEG, POS]);
    let r = Vectorizer::new(3).prove_equiv(&k);
    assert_eq!(r.cases_verified(), Some(59049));
    assert!(r.speedup().is_some());
}

// ── Conservation laws ──

#[test]
fn binary_output_sum_exact() {
    // inputs 00, 10, 01, 11 → outputs 0, 1, 1, 1
    let k = ScalarKernel::new(vec![POS, POS]);
    assert_eq!(ConservationAnalyzer::binary_output_sum(&k), 3);
    let e = ScalarKernel::new(vec![]);
    assert_eq!(ConservationAnalyzer::binary_output_sum(&e), 0);
}

#[test]
fn balanced_kernels_have_zero_binary_sum() {
    for w in [vec![POS, NEG, ZERO], vec![POS, POS, NEG, NEG, ZERO], vec![3, -1, -2, 0, 0]] {
        let k = ScalarKernel::new(w);
        assert_eq!(k.weight_sum(), 0);
        assert_eq!(ConservationAnalyzer::binary_output_sum(&k), 0);
    }
}

#[test]
fn negated_kernel_negates_outputs() {
    let k = ScalarKernel::new(vec![POS, NEG, POS, ZERO]);
    let neg = ScalarKernel::new(vec![NEG, POS, NEG, ZERO]);
    for x in [[POS, POS, NEG, ZERO], [NEG, NEG, NEG, POS], [ZERO, POS, ZERO, NEG]] {
        assert_eq!(neg.run(&x), -k.run(&x));
    }
    assert_eq!(neg.weight_sum(), -k.weight_sum());
}

#[test]
fn negate_output_law_gives_up_above_eight() {
    let k = ScalarKernel::new(vec![POS; 9]);
    assert!(!ConservationAnalyzer::verify_negate_output_law(&k));
    let k8 = ScalarKernel::new(vec![POS, NEG, POS, NEG, ZERO, POS, NEG, POS]);
    assert!(ConservationAnalyzer::verify_negate_output_law(&k8));
}

// ── Patches ──

#[test]
fn patch_records_positions_and_values() {
    let a = ScalarKernel::new(vec![POS, NEG, ZERO, POS]);
    let b = ScalarKernel::new(vec![NEG, NEG, POS, POS]);
    let p = KernelPatch::compute(&a, &b).unwrap();
    assert_eq!(p.changed_indices, vec![0, 2]);
    assert_eq!(p.new_weights, vec![NEG, POS]);
    assert_eq!(p.patch_bytes(), 4);
    assert_eq!(p.apply(&a).weights, b.weights);
}

#[test]
fn patch_apply_writes_in_order() {
    let a = ScalarKernel::new(vec![ZERO, ZERO, ZERO]);
    let p = KernelPatch { changed_indices: vec![1, 1, 2], new_weights: vec![POS, NEG] };
    assert_eq!(p.apply(&a).weights, vec![ZERO, NEG, ZERO]);
}
