use leto_ops::Xorshift64;

#[test]
fn seeded_stream_matches_xorshift64_star() {
    let mut rng = Xorshift64::new(1);
    assert_eq!(rng.next_u64(), 5_180_492_295_206_395_165);
    assert_eq!(rng.next_u64(), 12_380_297_144_915_551_517);
}

#[test]
fn zero_seed_is_remapped_to_the_fallback_state() {
    let mut zero = Xorshift64::new(0);
    let mut fallback = Xorshift64::new(0x9E37_79B9_7F4A_7C15);
    let first = zero.next_u64();
    assert_eq!(first, 973_819_730_272_012_410);
    assert_eq!(fallback.next_u64(), first);
    for _ in 0..16 {
        assert_eq!(zero.next_u64(), fallback.next_u64());
    }
}

#[test]
fn stream_is_reproducible_and_never_stalls_at_zero() {
    let mut a = Xorshift64::new(42);
    let mut b = Xorshift64::new(42);
    for _ in 0..1000 {
        let x = a.next_u64();
        assert_eq!(x, b.next_u64());
        assert_ne!(x, 0);
    }
}

#[test]
fn zero_seed_streams_like_the_fallback_seed_and_never_yields_zero() {
    let mut zero = Xorshift64::new(0);
    let mut fallback = Xorshift64::new(0x9E37_79B9_7F4A_7C15);
    let mut again = Xorshift64::new(0);
    for _ in 0..1000 {
        let value = zero.next_u64();
        assert_eq!(value, fallback.next_u64());
        assert_eq!(value, again.next_u64());
        assert_ne!(value, 0);
    }
}
