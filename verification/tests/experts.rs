//! Choosing the code for a product.

use swamp::execution_moe::{
    available_experts, bucket_dim, global_router, num_available_experts, CpuFeatures, ExpertRouter, GemmExpert,
    OpProfile,
};

fn all_features() -> CpuFeatures {
    CpuFeatures { avx512f: true, avx512vnni: true, avx2: true, fma: true }
}

fn no_features() -> CpuFeatures {
    CpuFeatures { avx512f: false, avx512vnni: false, avx2: false, fma: false }
}

#[test]
fn test_select_defaults_to_first_available() {
    let mut router = ExpertRouter::new(0);
    let profile = OpProfile::new(2048, 2048, false);
    let exp = router.select(&profile, &all_features());
    let avail = available_experts(&all_features());
    assert!(avail.contains(&exp));
}

#[test]
fn test_record_and_select() {
    let mut router = ExpertRouter::new(0);
    let profile = OpProfile::new(2048, 2048, false);
    router.record(&profile, GemmExpert::Vnni, 1_000_000);
    router.record(&profile, GemmExpert::Avx2, 100_000);
    let exp = router.select(&profile, &all_features());
    assert_eq!(exp, GemmExpert::Avx2);
}

#[test]
fn test_bucket_dim() {
    assert_eq!(bucket_dim(256), 0);
    assert_eq!(bucket_dim(512), 1);
    assert_eq!(bucket_dim(2048), 2);
    assert_eq!(bucket_dim(8192), 3);
    assert_eq!(bucket_dim(32000), 4);
}

#[test]
fn scalar_code_is_always_there() {
    assert_eq!(available_experts(&no_features()), vec![GemmExpert::Scalar]);
    assert_eq!(num_available_experts(&no_features()), 1);
    assert_eq!(
        available_experts(&all_features()),
        vec![GemmExpert::Vnni, GemmExpert::Avx2, GemmExpert::Scalar]
    );
    let mut router = ExpertRouter::new(0);
    let profile = OpProfile::new(64, 64, true);
    assert_eq!(router.select(&profile, &no_features()), GemmExpert::Scalar);
}

#[test]
fn profiles_are_measured_apart() {
    let mut router = ExpertRouter::new(0);
    let small = OpProfile::new(128, 128, false);
    let large = OpProfile::new(20000, 20000, false);
    router.record(&small, GemmExpert::Vnni, 900);
    router.record(&small, GemmExpert::Avx2, 100);
    router.record(&large, GemmExpert::Vnni, 100);
    router.record(&large, GemmExpert::Avx2, 900);
    assert_eq!(router.select(&small, &all_features()), GemmExpert::Avx2);
    assert_eq!(router.select(&large, &all_features()), GemmExpert::Vnni);
    let report = router.report_profile(&small, &all_features());
    assert_eq!(report.len(), 3);
    assert_eq!(report[0].0, GemmExpert::Vnni);
    assert_eq!(report[0].2, 1);
    assert_eq!(report[2].2, 0);
}

#[test]
fn experts_have_numbers_and_names() {
    for i in 0..3 {
        assert_eq!(GemmExpert::from_index(i).index(), i);
    }
    assert_eq!(GemmExpert::Scalar.name(), "scalar");
}

#[test]
fn products_share_one_router() {
    let mut shared = None;
    let profile = OpProfile::new(2048, 2048, false);
    global_router(&mut shared).record(&profile, GemmExpert::Avx2, 700);
    let report = global_router(&mut shared).report_profile(&profile, &all_features());
    assert_eq!(report[1], (GemmExpert::Avx2, 700, 1));
    assert_eq!(report[0], (GemmExpert::Vnni, 0, 0));
}
