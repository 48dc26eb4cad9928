use shardmap::hashing::mix64;

#[test]
fn hash_is_fixed_and_reproducible() {
    // The routing hash is a pure function of the key, with no per-process
    // seed: these values must never change between runs or builds.
    assert_eq!(mix64(0), 0);
    assert_eq!(mix64(1), 0xb456_bcfc_34c2_cb2c);
    assert_eq!(mix64(10), 0x6461_7244_2548_d30d);
    assert_eq!(mix64(0xdead_beef), 0xd24b_d59f_862a_1dac);
    assert_eq!(mix64(u64::MAX), 0x64b5_720b_4b82_5f21);
}

#[test]
fn hash_is_deterministic_across_calls() {
    for k in [3u64, 999, 1 << 40, u64::MAX - 1] {
        assert_eq!(mix64(k), mix64(k));
    }
}
