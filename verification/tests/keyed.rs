use exedra_exact::keyed::{hash, mix, splitmix64_mix, tag, Key, Stream};

#[test]
fn hash_is_a_left_fold_of_mix() {
    assert_eq!(hash(5, &[1, 2]), mix(mix(5, 1), 2));
    assert_eq!(mix(0, 0), splitmix64_mix(0));
    assert_eq!(mix(0, 0), 0, "documented zero fixed point");
    assert_eq!(Key::new(1).with(2).with(3).bits(), hash(1, &[2, 3]));
    assert_ne!(hash(1, &[2, 3]), hash(1, &[3, 2]), "key order matters");
}

#[test]
fn tags_are_fnv1a() {
    assert_eq!(tag(""), 0xcbf2_9ce4_8422_2325);
    assert_eq!(tag("a"), 0xaf63_dc4c_8601_ec8c);
    assert_eq!(tag("branch.angle"), 0x8f3a_fca4_7b66_5b1c);
}

#[test]
fn hash_golden_vectors_match_the_documented_contract() {
    assert_eq!(hash(0, &[]), 0);
    assert_eq!(hash(1, &[2, 3]), 0x614a_eb9e_d12c_cf8d);
    assert_eq!(hash(u64::MAX, &[0]), 0xb4d0_55fc_f2cb_bd7b);
}

#[test]
fn hash_of_a_concatenation_continues_from_the_prefix() {
    let prefix = hash(7, &[11, 13]);
    assert_eq!(hash(7, &[11, 13, 17, 19]), hash(prefix, &[17, 19]));
    assert_eq!(hash(42, &[]), 42);
}

#[test]
fn mix_is_zero_at_the_key_product() {
    let k = 12345_u64;
    let h = k.wrapping_mul(0x9E37_79B9_7F4A_7C15);
    assert_eq!(mix(h, k), 0);
    assert_ne!(mix(h ^ 1, k), 0);
}

#[test]
fn splitmix_finalizer_is_exact() {
    // The first output of a SplitMix64 generator seeded with 0.
    assert_eq!(splitmix64_mix(0x9E37_79B9_7F4A_7C15), 0xe220_a839_7b1d_cdaf);
}

#[test]
fn stream_advances_by_the_golden_gamma() {
    let mut stream = Stream(0);
    let first = stream.next();
    assert_eq!(stream.0, 0x9E37_79B9_7F4A_7C15);
    assert_eq!(first, splitmix64_mix(0x9E37_79B9_7F4A_7C15));
    let second = stream.next();
    assert_eq!(stream.0, 0x9E37_79B9_7F4A_7C15_u64.wrapping_mul(2));
    assert_eq!(second, splitmix64_mix(stream.0));
}
