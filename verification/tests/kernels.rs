//! Integer kernels.

use swamp::kernels::{
    exp_q16_16, mojo_matmul_w3, mojo_softmax_padic, swamp_gemv_q8_vnni, StokesKVCacheSim,
};

/// The exponential in fixed point, by way of singles.
fn exp_fixed(x_fixed: i32) -> i32 {
    let x_real = x_fixed as f32 / 65536.0;
    (x_real.exp() * 65536.0).round() as i32
}

fn gemv_q8_scalar_ref(w: &[i8], acts: &[i8]) -> i32 {
    w.iter().zip(acts.iter()).map(|(&wi, &ai)| (wi as i32) * (ai as i32)).sum()
}

#[test]
fn test_gemv_vnni_bitexact_vs_scalar() {
    let mut lcg: u64 = 0xDEAD_BEEF_1234_5678;
    let next = |s: &mut u64| -> i8 {
        *s ^= *s << 13;
        *s ^= *s >> 7;
        *s ^= *s << 17;
        *s as i8
    };

    for trial in 0..32 {
        let k = (trial % 4 + 1) * 64;
        let w: Vec<i8> = (0..k).map(|_| next(&mut lcg)).collect();
        let acts: Vec<i8> = (0..k).map(|_| next(&mut lcg)).collect();

        let expected = gemv_q8_scalar_ref(&w, &acts);
        let got = swamp_gemv_q8_vnni(&w, &acts);
        assert_eq!(
            got,
            expected,
            "trial={} k={}: VNNI bias detected! got={} expected={} diff={}",
            trial,
            k,
            got,
            expected,
            got - expected
        );
    }
}

#[test]
fn test_exp_q16_16_accuracy() {
    let mut max_rel_err = 0.0f64;
    let mut worst_x = 0i32;

    let step = 65536 / 64;
    let mut x_fixed = -6 * 65536i32;
    while x_fixed <= 0 {
        let got_fixed = exp_q16_16(x_fixed, &exp_fixed);
        let x_real = x_fixed as f64 / 65536.0;
        let expected_real = x_real.exp();
        let got_real = got_fixed as f64 / 65536.0;
        let rel_err = (got_real - expected_real).abs() / expected_real;

        if rel_err > max_rel_err {
            max_rel_err = rel_err;
            worst_x = x_fixed;
        }
        x_fixed += step;
    }

    assert!(
        max_rel_err < 0.008,
        "exp_q16_16 max relative error {:.4}% at x={:.4}, expected < 0.8%",
        max_rel_err * 100.0,
        worst_x as f64 / 65536.0
    );
}

#[test]
fn test_softmax_padic_normalization() {
    let logits = vec![1.0f32, 2.0, 3.0, 0.5, -1.0, 4.0, 2.5, 1.5];
    let fixed: Vec<i32> = logits.iter().map(|x| (x * 65536.0) as i32).collect();
    let probs: Vec<f32> = mojo_softmax_padic(&fixed, &exp_fixed)
        .into_iter()
        .map(|p| p as f32 / 65536.0)
        .collect();

    let sum: f32 = probs.iter().sum();
    assert!(
        (sum - 1.0).abs() < 0.01,
        "softmax nao normalizado: sum={:.6} (esperado ~1.0)",
        sum
    );

    let max_idx = probs
        .iter()
        .enumerate()
        .max_by(|a, b| a.1.partial_cmp(b.1).unwrap())
        .map(|(i, _)| i)
        .unwrap();
    assert_eq!(max_idx, 5, "logit 4.0 no idx 5 deve ter prob maxima, got idx {}", max_idx);
}

#[test]
fn exponentials_far_down_are_nothing() {
    assert_eq!(exp_q16_16(-655361, &exp_fixed), 0);
    assert_eq!(exp_q16_16(-655360, &exp_fixed), 3);
    assert_eq!(exp_q16_16(0, &exp_fixed), 65536);
    assert_eq!(exp_q16_16(12345, &exp_fixed), 65536);
    assert_eq!(exp_q16_16(-1, &|_| -7), 0);
}

#[test]
fn equal_logits_share_evenly() {
    assert_eq!(mojo_softmax_padic(&vec![5, 5, 5, 5], &exp_fixed), vec![16384; 4]);
    assert_eq!(mojo_softmax_padic(&vec![1], &exp_fixed), vec![65536]);
    assert!(mojo_softmax_padic(&vec![], &exp_fixed).is_empty());
    let many = mojo_softmax_padic(&(0..100).map(|i| i * 1000).collect(), &exp_fixed);
    let sum: i32 = many.iter().sum();
    assert!(sum <= 65536 && sum >= 65536 - 200);
    assert!(many.windows(2).all(|w| w[0] <= w[1]));
}

#[test]
fn products_keep_what_is_left_over() {
    let w: Vec<i8> = (0..70).map(|i| (i % 7) as i8 - 3).collect();
    let a: Vec<i8> = (0..70).map(|i| if i % 2 == 0 { -128 } else { 127 }).collect();
    assert_eq!(swamp_gemv_q8_vnni(&w, &a), gemv_q8_scalar_ref(&w, &a));
    assert_eq!(swamp_gemv_q8_vnni(&[], &[]), 0);
    let long = 200_000;
    let w: Vec<i8> = (0..long).map(|i| if i % 2 == 0 { -128 } else { 127 }).collect();
    let a: Vec<i8> = (0..long).map(|i| if i % 4 < 2 { 127 } else { -128 }).collect();
    assert_eq!(swamp_gemv_q8_vnni(&w, &a), 50_000);
}

#[test]
fn matrices_multiply_row_by_row() {
    let a: Vec<i8> = vec![1, 2, 3, 4, 5, 6];
    let w: Vec<i8> = vec![1, 0, -1, 2, 2, 2];
    assert_eq!(mojo_matmul_w3(&a, &w, 2, 2, 3), vec![-2, 12, -2, 30]);
}

#[test]
fn lowest_score_leaves_a_full_cache() {
    let mut c = StokesKVCacheSim::new(2);
    for i in 0..4096u32 {
        let score = if i == 100 { 0.25f32 } else { 1.0 };
        c.mojo_stokes_append(&[i, i + 1], &[i + 2, i + 3], score.to_bits());
    }
    assert_eq!(c.num_tokens, 4096);
    c.mojo_stokes_append(&[7, 8], &[9, 10], 2.0f32.to_bits());
    assert_eq!(c.num_tokens, 4096);
    assert_eq!(&c.keys[198..204], &[99, 100, 101, 102, 102, 103]);
    assert_eq!(&c.values[8190..], &[9, 10]);
    assert_eq!(c.scores[4095], 2.0f32.to_bits());
    // Now all but the last are equal: the oldest of them leaves.
    c.mojo_stokes_append(&[1, 1], &[1, 1], 3.0f32.to_bits());
    assert_eq!(&c.keys[0..2], &[1, 2]);
}
