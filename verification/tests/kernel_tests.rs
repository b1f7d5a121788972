use lib::{
    dot_i32, sign, tadd, tmul, tneg, ConservationAnalyzer, KernelPatch,
    ScalarKernel, VecKernel, Vectorizer, NEG, POS, ZERO,
};

// ── Primitive algebra ──

#[test]
fn test_sign_clamps_to_trit() {
    assert_eq!(sign(-99), NEG);
    assert_eq!(sign(0), ZERO);
    assert_eq!(sign(99), POS);
    assert_eq!(sign(-1), NEG);
    assert_eq!(sign(1), POS);
}

#[test]
fn test_tmul_is_product_of_signs() {
    assert_eq!(tmul(NEG, NEG), POS); // (-1)(-1) = +1
    assert_eq!(tmul(NEG, ZERO), ZERO);
    assert_eq!(tmul(NEG, POS), NEG); // (-1)(+1) = -1
    assert_eq!(tmul(POS, POS), POS);
    assert_eq!(tmul(ZERO, POS), ZERO);
}

#[test]
fn test_tadd_representative_cases() {
    assert_eq!(tadd(NEG, POS), ZERO); // cancellation
    assert_eq!(tadd(NEG, NEG), NEG); // sign(-2) = -1
    assert_eq!(tadd(POS, POS), POS); // sign(+2) = +1
    assert_eq!(tadd(ZERO, NEG), NEG);
}

#[test]
fn test_tneg_flips_sign() {
    assert_eq!(tneg(POS), NEG);
    assert_eq!(tneg(NEG), POS);
    assert_eq!(tneg(ZERO), ZERO);
}

// ── ScalarKernel ──

#[test]
fn test_scalar_zero_weights_always_outputs_zero() {
    let k = ScalarKernel::new(vec![ZERO, ZERO, ZERO]);
    for x in [POS, NEG, ZERO] {
        assert_eq!(k.run(&[x, x, x]), ZERO);
    }
}

#[test]
fn test_scalar_single_weight_acts_as_identity() {
    let k = ScalarKernel::new(vec![POS]);
    assert_eq!(k.run(&[NEG]), NEG);
    assert_eq!(k.run(&[ZERO]), ZERO);
    assert_eq!(k.run(&[POS]), POS);
}

#[test]
fn test_scalar_negated_weight_acts_as_negate() {
    let k = ScalarKernel::new(vec![NEG]);
    assert_eq!(k.run(&[POS]), NEG);
    assert_eq!(k.run(&[NEG]), POS);
    assert_eq!(k.run(&[ZERO]), ZERO);
}

#[test]
fn test_scalar_balanced_weights_cancel_equal_inputs() {
    // w=[+1,-1]: inputs=[x,x] → dot = x - x = 0 → ZERO
    let k = ScalarKernel::new(vec![POS, NEG]);
    assert_eq!(k.run(&[POS, POS]), ZERO);
    assert_eq!(k.run(&[NEG, NEG]), ZERO);
    assert_eq!(k.run(&[ZERO, ZERO]), ZERO);
}

// ── Equivalence proofs ──

#[test]
fn test_equiv_proof_lane_width_1_covers_3_to_n_cases() {
    let v = Vectorizer::new(1);
    let k = ScalarKernel::new(vec![POS, NEG, ZERO]);
    let result = v.prove_equiv(&k);
    assert!(result.is_proved(), "{result:?}");
    assert_eq!(result.cases_verified(), Some(27)); // 3^3
}

#[test]
fn test_equiv_proof_lane_width_4_n4_verified() {
    let v = Vectorizer::new(4);
    let k = ScalarKernel::new(vec![POS, NEG, ZERO, POS]);
    let result = v.prove_equiv(&k);
    assert!(result.is_proved(), "{result:?}");
    assert_eq!(result.cases_verified(), Some(81)); // 3^4
}

#[test]
fn test_equiv_proof_lane_width_2_n6_verified() {
    let v = Vectorizer::new(2);
    let k = ScalarKernel::new(vec![POS, POS, NEG, NEG, POS, NEG]);
    let result = v.prove_equiv(&k);
    assert!(result.is_proved(), "{result:?}");
    assert_eq!(result.cases_verified(), Some(729)); // 3^6
}

#[test]
fn test_equiv_proof_non_power_of_two_size_n5_width3() {
    // n=5, width=3 → chunks of sizes [3, 2]
    let v = Vectorizer::new(3);
    let k = ScalarKernel::new(vec![POS, NEG, ZERO, POS, NEG]);
    let vk = v.vectorize(&k);
    assert_eq!(vk.weight_chunks.len(), 2);
    assert_eq!(vk.weight_chunks[0].len(), 3);
    assert_eq!(vk.weight_chunks[1].len(), 2);
    assert!(v.prove_equiv(&k).is_proved());
}

// ── Counterexample detection ──

#[test]
fn test_buggy_vectorizer_counterexample_detected() {
    // The bug: apply sign() to each partial sum BEFORE the final reduction.
    //
    // Concrete counterexample:
    //   weights=[+1,+1,−1], inputs=[+1,+1,+1], chunk_size=2
    //   Scalar:  1+1−1 = 1        → sign = +1
    //   Buggy:   chunk₁=sign(2)=+1, chunk₂=sign(−1)=−1 → +1+(−1)=0 → sign = 0  ← WRONG

    let weights = [POS, POS, NEG];
    let inputs = [POS, POS, POS];

    // Correct scalar
    let scalar_out = sign(dot_i32(&weights, &inputs));
    assert_eq!(scalar_out, POS);

    // Buggy vectorized (sign applied per chunk)
    let chunk1 = sign(dot_i32(&weights[..2], &inputs[..2])) as i32;
    let chunk2 = sign(dot_i32(&weights[2..], &inputs[2..])) as i32;
    let buggy_out = sign(chunk1 + chunk2);
    assert_eq!(buggy_out, ZERO);

    // The compiler's verifier would catch this divergence
    assert_ne!(
        scalar_out, buggy_out,
        "Buggy vectorizer produces a different answer — verifier must flag this"
    );
}

// ── Speedup model ──

fn speedup_of(vk: &VecKernel) -> f64 {
    let r = vk.theoretical_speedup_ratio();
    r.num as f64 / r.den as f64
}

#[test]
fn test_speedup_decreases_with_wider_lanes() {
    // Wider lanes = fewer parallel units = lower speedup.
    // Narrowest lane (width=1) maximises parallelism for a fixed kernel size.
    let k = ScalarKernel::new(vec![POS; 16]);
    let speedups: Vec<f64> = [1, 2, 4, 8, 16]
        .iter()
        .map(|&w| speedup_of(&Vectorizer::new(w).vectorize(&k)))
        .collect();
    for pair in speedups.windows(2) {
        assert!(
            pair[0] >= pair[1],
            "Speedup should decrease as lane width grows (fewer parallel units): \
             {:.2} vs {:.2}",
            pair[0],
            pair[1]
        );
    }
}

#[test]
fn test_speedup_is_greater_than_one_when_n_exceeds_chunk_depth() {
    // n=8, width=1: scalar=8 ops, vector=1(per lane)+3(reduce)=4 → speedup=2.0
    let k = ScalarKernel::new(vec![POS; 8]);
    let vk = Vectorizer::new(1).vectorize(&k);
    assert!(
        speedup_of(&vk) > 1.0,
        "8-wide kernel with 1-wide lanes must have speedup > 1: {}",
        speedup_of(&vk)
    );
}

// ── Conservation laws ──

fn binary_input_bias(k: &ScalarKernel) -> f64 {
    let total = 1u64 << k.n();
    ConservationAnalyzer::binary_output_sum(k) as f64 / total as f64
}

#[test]
fn test_balanced_kernel_has_zero_binary_input_bias() {
    // w=[+1,−1]: weight_sum = 0 → bias over {0,1}² inputs must be exactly 0
    let k = ScalarKernel::new(vec![POS, NEG]);
    assert_eq!(k.weight_sum(), 0);
    let bias = binary_input_bias(&k);
    assert_eq!(bias, 0.0, "Balanced kernel: binary-input bias must be 0, got {bias}");
}

#[test]
fn test_unbalanced_kernel_has_nonzero_binary_input_bias() {
    // w=[+1,+1]: weight_sum = 2 → positively biased on {0,1}² inputs
    let k = ScalarKernel::new(vec![POS, POS]);
    assert_ne!(k.weight_sum(), 0);
    let bias = binary_input_bias(&k);
    assert!(
        bias > 0.0,
        "All-positive weights must produce positive bias on binary inputs: {bias}"
    );
}

#[test]
fn test_negate_law_reverses_weight_sum() {
    let k = ScalarKernel::new(vec![POS, POS, NEG, ZERO]);
    assert!(ConservationAnalyzer::verify_negate_law(&k));
}

#[test]
fn test_negate_output_law_holds_for_small_kernel() {
    // For every input x, negating weights must flip the output sign
    let k = ScalarKernel::new(vec![POS, NEG, POS]);
    assert!(
        ConservationAnalyzer::verify_negate_output_law(&k),
        "Negating all weights must negate every individual output"
    );
}

// ── Kernel patching ──

#[test]
fn test_patch_for_two_changes_is_smaller_than_full_kernel() {
    let old = ScalarKernel::new(vec![POS, POS, NEG, ZERO, POS, NEG, POS, POS]);
    let mut new_w = old.weights.clone();
    new_w[2] = POS; // changed
    new_w[5] = ZERO; // changed
    let new = ScalarKernel::new(new_w);

    let patch = KernelPatch::compute(&old, &new).unwrap();
    assert_eq!(patch.n_changed(), 2);

    let ratio = patch.patch_bytes() as f64 / old.n() as f64;
    // patch_bytes = 2 changes × 2 bytes = 4; full_bytes = 8 → ratio = 0.5
    // Any patch touching ≤ half the weights is a net win over full recompile.
    assert!(
        ratio <= 0.5,
        "2-change patch on 8-weight kernel must be ≤50% of full kernel: ratio={ratio:.2}"
    );

    // Round-trip: applying patch to old must reproduce new
    let restored = patch.apply(&old);
    assert_eq!(restored.weights, new.weights, "Patch round-trip must be lossless");
}

#[test]
fn test_patch_for_identical_kernels_is_empty() {
    let k = ScalarKernel::new(vec![POS, NEG, ZERO]);
    let patch = KernelPatch::compute(&k, &k).unwrap();
    assert_eq!(patch.n_changed(), 0);
    assert_eq!(patch.patch_bytes() as f64 / k.n() as f64, 0.0);
}

#[test]
fn test_patch_returns_none_for_size_mismatch() {
    let a = ScalarKernel::new(vec![POS, NEG]);
    let b = ScalarKernel::new(vec![POS, NEG, ZERO]);
    assert!(KernelPatch::compute(&a, &b).is_none());
}
