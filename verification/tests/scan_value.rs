use ferrite_core::scan_value::{
    bytes_match_exact_given, bytes_match_integer, passes_filter, ScanFilter, ScanValue,
};

#[test]
fn exact_int_match_is_a_literal_byte_pattern() {
    let target = ScanValue::I32(100);
    assert!(bytes_match_integer(&100i32.to_le_bytes(), target));
    assert!(!bytes_match_integer(&101i32.to_le_bytes(), target));
}

#[test]
fn changed_and_unchanged_are_bitwise_not_epsilon() {
    let old = ScanValue::F32(1.000_000_0f32.to_bits());
    let new = ScanValue::F32(1.000_000_1f32.to_bits());
    assert!(passes_filter(old, new, ScanFilter::Changed));
    assert!(!passes_filter(old, new, ScanFilter::Unchanged));
}

#[test]
fn increased_and_decreased_for_integers() {
    let old = ScanValue::I32(100);
    let higher = ScanValue::I32(150);
    let lower = ScanValue::I32(50);

    assert!(passes_filter(old, higher, ScanFilter::Increased));
    assert!(!passes_filter(old, higher, ScanFilter::Decreased));
    assert!(passes_filter(old, lower, ScanFilter::Decreased));
    assert!(!passes_filter(old, lower, ScanFilter::Increased));
}

#[test]
fn non_finite_values_never_pass_any_filter() {
    let nan = ScanValue::F32(f32::NAN.to_bits());
    let normal = ScanValue::F32(1.0f32.to_bits());

    for filter in [ScanFilter::Changed, ScanFilter::Unchanged, ScanFilter::Increased, ScanFilter::Decreased] {
        assert!(!passes_filter(nan, normal, filter));
        assert!(!passes_filter(normal, nan, filter));
    }
}

#[test]
fn float_order_follows_the_values_not_the_bits() {
    let f = |x: f32| ScanValue::F32(x.to_bits());
    assert!(passes_filter(f(-2.0), f(-1.0), ScanFilter::Increased));
    assert!(passes_filter(f(-1.0), f(0.5), ScanFilter::Increased));
    assert!(passes_filter(f(3.0), f(-3.0), ScanFilter::Decreased));
    let d = |x: f64| ScanValue::F64(x.to_bits());
    assert!(passes_filter(d(1.5), d(2.5), ScanFilter::Increased));
    assert!(passes_filter(d(-0.0), d(-1e-300), ScanFilter::Decreased));
}

#[test]
fn the_two_zeros_differ_bytewise_and_infinity_is_not_finite() {
    let f = |x: f32| ScanValue::F32(x.to_bits());
    assert!(passes_filter(f(0.0), f(-0.0), ScanFilter::Changed));
    assert!(!passes_filter(f(0.0), f(-0.0), ScanFilter::Unchanged));
    assert!(!passes_filter(f(0.0), f(-0.0), ScanFilter::Increased));
    assert!(!passes_filter(f(0.0), f(-0.0), ScanFilter::Decreased));
    assert_eq!(f(0.0), f(-0.0));
    assert_ne!(f(f32::NAN), f(f32::NAN));
    assert!(!f(f32::INFINITY).is_finite());
    assert!(f(f32::MAX).is_finite());
    assert!(!ScanValue::F64(f64::NEG_INFINITY.to_bits()).is_finite());
    assert!(!passes_filter(f(f32::INFINITY), f(1.0), ScanFilter::Changed));
}

#[test]
fn values_read_back_from_their_bytes() {
    for v in [
        ScanValue::I8(-5),
        ScanValue::I16(-300),
        ScanValue::I32(-70000),
        ScanValue::I64(i64::MIN),
        ScanValue::F32(12.5f32.to_bits()),
        ScanValue::F64((-0.25f64).to_bits()),
    ] {
        let bytes = v.to_le_bytes();
        assert_eq!(bytes.len(), v.size());
        assert_eq!(v.from_le_bytes_like(&bytes), v);
    }
    assert_eq!(ScanValue::I16(0).from_le_bytes_like(&[0xFE, 0xFF]), ScanValue::I16(-2));
    assert_eq!(ScanValue::F32(0).to_le_bytes(), 0.0f32.to_le_bytes().to_vec());
    assert_eq!(ScanValue::F32(1.5f32.to_bits()).to_le_bytes(), 1.5f32.to_le_bytes().to_vec());
}

#[test]
fn changed_and_unchanged_split_and_an_ordered_filter_implies_changed() {
    let cases = [
        (ScanValue::I32(100), ScanValue::I32(150)),
        (ScanValue::I32(100), ScanValue::I32(100)),
        (ScanValue::I8(-3), ScanValue::I8(-7)),
        (ScanValue::F32(1.5f32.to_bits()), ScanValue::F32((-2.0f32).to_bits())),
        (ScanValue::F32(0.0f32.to_bits()), ScanValue::F32((-0.0f32).to_bits())),
        (ScanValue::F64(1.0f64.to_bits()), ScanValue::F64(1.0000001f64.to_bits())),
    ];
    for (old, new) in cases {
        let unchanged = passes_filter(old, new, ScanFilter::Unchanged);
        let changed = passes_filter(old, new, ScanFilter::Changed);
        let up = passes_filter(old, new, ScanFilter::Increased);
        let down = passes_filter(old, new, ScanFilter::Decreased);
        assert_ne!(changed, unchanged, "{old:?} -> {new:?}");
        assert!(!up || changed, "{old:?} -> {new:?}");
        assert!(!down || changed, "{old:?} -> {new:?}");
        assert!(!(up && down), "{old:?} -> {new:?}");
    }
}

#[test]
fn an_exact_match_reads_integers_by_their_bytes_and_floats_by_the_rounded_comparison() {
    assert!(bytes_match_exact_given(&100i32.to_le_bytes(), ScanValue::I32(100), false));
    assert!(!bytes_match_exact_given(&101i32.to_le_bytes(), ScanValue::I32(100), true));
    let target = ScanValue::F32(12.34f32.to_bits());
    assert!(bytes_match_exact_given(&12.340_001f32.to_le_bytes(), target, true));
    assert!(!bytes_match_exact_given(&12.36f32.to_le_bytes(), target, false));
    assert!(!bytes_match_exact_given(&f32::NAN.to_le_bytes(), target, true));
}
