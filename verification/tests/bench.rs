use ranker_rs::bench::{parse_prune_spec, parse_usize, select_tier, KernelTier};

#[test]
fn prune_spec_reads_both_budgets() {
    assert_eq!(parse_prune_spec(b"16/64", 64, 128), (16, 64));
}

#[test]
fn prune_spec_none_keeps_the_defaults() {
    assert_eq!(parse_prune_spec(b"none", 64, 128), (64, 128));
}

#[test]
fn prune_spec_without_separator_keeps_the_defaults() {
    assert_eq!(parse_prune_spec(b"32", 64, 128), (64, 128));
    assert_eq!(parse_prune_spec(b"", 64, 128), (64, 128));
}

#[test]
fn prune_spec_with_two_separators_keeps_the_defaults() {
    assert_eq!(parse_prune_spec(b"1/2/3", 64, 128), (64, 128));
}

#[test]
fn prune_spec_side_that_fails_to_parse_keeps_its_default() {
    assert_eq!(parse_prune_spec(b"x/64", 64, 128), (64, 64));
    assert_eq!(parse_prune_spec(b"16/", 64, 128), (16, 128));
}

#[test]
fn prune_spec_overflowing_side_keeps_its_default() {
    assert_eq!(parse_prune_spec(b"99999999999999999999999/8", 64, 128), (64, 8));
}

#[test]
fn parse_usize_accepts_digits_and_a_leading_plus() {
    assert_eq!(parse_usize(b"0"), Some(0));
    assert_eq!(parse_usize(b"16"), Some(16));
    assert_eq!(parse_usize(b"+5"), Some(5));
}

#[test]
fn parse_usize_rejects_malformed_notation() {
    assert_eq!(parse_usize(b""), None);
    assert_eq!(parse_usize(b"+"), None);
    assert_eq!(parse_usize(b"12a"), None);
    assert_eq!(parse_usize(b"-3"), None);
    assert_eq!(parse_usize(b"99999999999999999999999"), None);
}

#[test]
fn tier_selection_prefers_the_widest_extension() {
    assert_eq!(select_tier(true, true), KernelTier::Avx512);
    assert_eq!(select_tier(true, false), KernelTier::Avx512);
    assert_eq!(select_tier(false, true), KernelTier::Avx2);
    assert_eq!(select_tier(false, false), KernelTier::Scalar);
}

#[test]
fn tier_labels_match_the_report_names() {
    assert_eq!(KernelTier::Avx512.label(), "AVX-512");
    assert_eq!(KernelTier::Avx2.label(), "AVX2");
    assert_eq!(KernelTier::Scalar.label(), "SSE");
}
