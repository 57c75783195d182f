use leto_ops::infrastructure::cache::{
    geometry_from_cache_levels, CacheGeometry, CacheLevel, MatmulTilePolicy, FALLBACK_CACHE_LINE_BYTES,
    FALLBACK_L1_BYTES, FALLBACK_L2_BYTES, FALLBACK_L3_BYTES,
};

fn cache_level(level: u32, size_bytes: usize, line_bytes: Option<usize>) -> CacheLevel {
    CacheLevel { level, size_bytes, line_bytes }
}

#[test]
fn fallback_geometry_is_conservative() {
    let geometry = CacheGeometry::fallback();

    assert_eq!(geometry.l1_bytes(), 32 * 1024);
    assert_eq!(geometry.l2_bytes(), 256 * 1024);
    assert_eq!(geometry.l3_bytes(), 8 * 1024 * 1024);
    assert_eq!(geometry.cache_line_bytes(), 64);
}

#[test]
fn explicit_line_geometry_requires_a_positive_width() {
    assert_eq!(CacheGeometry::with_cache_line_bytes(0), None);

    let geometry = CacheGeometry::with_cache_line_bytes(128)
        .expect("positive cache-line width is a valid explicit policy");
    assert_eq!(geometry.cache_line_bytes(), 128);
    assert_eq!(geometry.l1_bytes(), FALLBACK_L1_BYTES);
    assert_eq!(geometry.l2_bytes(), FALLBACK_L2_BYTES);
    assert_eq!(geometry.l3_bytes(), FALLBACK_L3_BYTES);
}

#[test]
fn matmul_policy_preserves_measured_default_for_common_shapes() {
    let geometry = CacheGeometry::fallback();

    assert_eq!(MatmulTilePolicy::for_geometry(geometry, 8, 64).row_block(), 32);
    assert_eq!(MatmulTilePolicy::for_geometry(geometry, 8, 256).row_block(), 32);
}

#[test]
fn matmul_policy_downsizes_wide_rows_without_exceeding_bounds() {
    let geometry = CacheGeometry::fallback();

    assert_eq!(MatmulTilePolicy::for_geometry(geometry, 8, 1_024).row_block(), 8);
    assert_eq!(MatmulTilePolicy::for_geometry(geometry, 8, 2_048).row_block(), 4);
    assert_eq!(MatmulTilePolicy::for_geometry(geometry, 8, 1).row_block(), 32);
}

#[test]
fn fixed_matmul_policy_accepts_only_supported_specializations() {
    assert_eq!(MatmulTilePolicy::fixed(32).map(MatmulTilePolicy::row_block), Some(32));
    assert_eq!(MatmulTilePolicy::fixed(3), None);
    assert_eq!(MatmulTilePolicy::fixed(64), None);
}

#[test]
fn matmul_policy_handles_empty_and_tiny_cache_inputs() {
    assert_eq!(MatmulTilePolicy::for_geometry(CacheGeometry::fallback(), 0, 0).row_block(), 1);

    // A 4 KiB L1, 32 KiB L2, 256 KiB L3 part with 64-byte lines.
    let tiny = geometry_from_cache_levels(&[
        cache_level(1, 4 * 1024, Some(64)),
        cache_level(2, 32 * 1024, Some(64)),
        cache_level(3, 256 * 1024, Some(64)),
    ]);
    assert_eq!(tiny.l1_bytes(), 4 * 1024);
    assert_eq!(tiny.l2_bytes(), 32 * 1024);
    assert_eq!(tiny.l3_bytes(), 256 * 1024);
    assert_eq!(tiny.cache_line_bytes(), 64);
    assert_eq!(MatmulTilePolicy::for_geometry(tiny, 8, 256).row_block(), 4);
}

#[test]
fn heterogeneous_levels_resolve_to_the_smallest_reported_capacity() {
    let levels = [
        cache_level(1, 32 * 1024, Some(64)),
        cache_level(2, 3 * 1024 * 1024, Some(64)),
        cache_level(1, 48 * 1024, Some(64)),
        cache_level(2, 4 * 1024 * 1024, Some(64)),
        cache_level(3, 36 * 1024 * 1024, Some(64)),
    ];

    let geometry = geometry_from_cache_levels(&levels);

    assert_eq!(geometry.l1_bytes(), 32 * 1024);
    assert_eq!(geometry.l2_bytes(), 3 * 1024 * 1024);
    assert_eq!(geometry.l3_bytes(), 36 * 1024 * 1024);
}

#[test]
fn a_reported_capacity_is_never_clamped_to_the_fallback() {
    let levels = [cache_level(2, 3 * 1024 * 1024, Some(64))];

    let geometry = geometry_from_cache_levels(&levels);

    assert_eq!(geometry.l2_bytes(), 3 * 1024 * 1024);
    assert_eq!(geometry.l1_bytes(), CacheGeometry::fallback().l1_bytes());
    assert_eq!(geometry.l3_bytes(), CacheGeometry::fallback().l3_bytes());
}

#[test]
fn cache_levels_override_capacities_and_line_width() {
    let levels = [
        cache_level(1, 48 * 1024, Some(128)),
        cache_level(2, 1024 * 1024, Some(128)),
        cache_level(3, 32 * 1024 * 1024, Some(128)),
    ];

    let geometry = geometry_from_cache_levels(&levels);

    assert_eq!(geometry.l1_bytes(), 48 * 1024);
    assert_eq!(geometry.l2_bytes(), 1024 * 1024);
    assert_eq!(geometry.l3_bytes(), 32 * 1024 * 1024);
    assert_eq!(geometry.cache_line_bytes(), 128);
}

#[test]
fn widest_reported_line_width_wins_across_levels() {
    let levels = [
        cache_level(1, 64 * 1024, Some(64)),
        cache_level(2, 4 * 1024 * 1024, None),
        cache_level(4, 128 * 1024 * 1024, Some(128)),
    ];

    let geometry = geometry_from_cache_levels(&levels);

    assert_eq!(geometry.cache_line_bytes(), 128);
    assert_eq!(geometry.l1_bytes(), 64 * 1024);
    assert_eq!(geometry.l2_bytes(), 4 * 1024 * 1024);
}

#[test]
fn reported_line_width_narrower_than_the_fallback_is_honoured() {
    let levels = [cache_level(1, 16 * 1024, Some(32))];

    let geometry = geometry_from_cache_levels(&levels);

    assert_eq!(geometry.cache_line_bytes(), 32);
}

#[test]
fn zero_sized_or_unknown_cache_levels_keep_fallbacks() {
    let levels = [cache_level(1, 0, Some(0)), cache_level(4, 128 * 1024 * 1024, None)];

    let geometry = geometry_from_cache_levels(&levels);

    assert_eq!(geometry, CacheGeometry::fallback());
    assert_eq!(geometry.cache_line_bytes(), FALLBACK_CACHE_LINE_BYTES);
}

#[test]
fn detected_geometry_is_usable_for_tiling() {
    let geometry = CacheGeometry::detect();
    assert!(geometry.l1_bytes() > 0);
    assert!(geometry.l2_bytes() > 0);
    assert!(geometry.l3_bytes() > 0);
    assert!(geometry.cache_line_bytes() > 0);
    let block = MatmulTilePolicy::automatic(8, 64).row_block();
    assert!([1, 2, 4, 8, 16, 32].contains(&block));
    assert_eq!(leto_ops::cache_geometry().l1_bytes() > 0, true);
}
