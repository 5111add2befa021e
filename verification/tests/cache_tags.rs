use pullauta::cache::{u64_to_hex_bytes, CachedComputation};

fn computation() -> CachedComputation {
    CachedComputation::new(String::from("in.xyz.bin"), String::from("in.cache"), 77)
}

#[test]
fn hex_encoding_is_exact() {
    assert_eq!(u64_to_hex_bytes(0x0123_4567_89ab_cdef), b"0123456789abcdef".to_vec());
    assert_eq!(u64_to_hex_bytes(0), b"0000000000000000".to_vec());
    assert_eq!(u64_to_hex_bytes(u64::MAX), b"ffffffffffffffff".to_vec());
}

#[test]
fn expected_tag_is_deterministic() {
    let c = computation();
    let t1 = c.expected_tag(10, 20, 30);
    let t2 = c.expected_tag(10, 20, 30);
    assert_eq!(t1, t2);
    assert_eq!(t1.len(), 16);
}

#[test]
fn tag_depends_on_observations() {
    let c = computation();
    let t = c.expected_tag(10, 20, 30);
    assert_ne!(t, c.expected_tag(10, 20, 31));
    assert_ne!(t, c.expected_tag(10, 21, 30));
    let other = CachedComputation::new(String::from("in.xyz.bin"), String::from("in.cache"), 78);
    assert_ne!(t, other.expected_tag(10, 20, 30));
}

#[test]
fn matching_tag_skips_recompute() {
    let c = computation();
    let tag = c.expected_tag(10, 20, 30);
    assert!(c.needs_recompute_decision(false, Some(tag.clone()), tag).is_none());
}

#[test]
fn changed_tag_recomputes() {
    let c = computation();
    let stored = c.expected_tag(10, 20, 30);
    let expected = c.expected_tag(11, 20, 30);
    let guard = c.needs_recompute_decision(false, Some(stored), expected.clone()).unwrap();
    let (cache_file, new_tag) = guard.into_parts();
    assert_eq!(cache_file, "in.cache");
    assert_eq!(new_tag, Some(expected));
}

#[test]
fn missing_tag_recomputes() {
    let c = computation();
    let expected = c.expected_tag(10, 20, 30);
    let guard = c.needs_recompute_decision(false, None, expected.clone()).unwrap();
    let (_, new_tag) = guard.into_parts();
    assert_eq!(new_tag, Some(expected));
}

#[test]
fn cache_bypass_always_recomputes() {
    let c = computation();
    let tag = c.expected_tag(10, 20, 30);
    let guard = c.needs_recompute_decision(true, Some(tag.clone()), tag).unwrap();
    let (cache_file, new_tag) = guard.into_parts();
    assert_eq!(cache_file, "in.cache");
    // no tag is stored when the cache was bypassed
    assert_eq!(new_tag, None);
}
