use few_pretty_graphs::{trivial_random, FxHasher};

const FX_MUL: u64 = 0x517cc1b727220a95;

#[test]
fn default_seed() {
    let hasher = FxHasher::default();
    assert_eq!(hasher.finish(), 0x4234234234129);
}

#[test]
fn one_round_matches_rotate_xor_multiply() {
    let mut hasher = FxHasher { hash: 0xdead_beef_0123_4567 };
    hasher.add_to_hash(42);
    let expected = (0xdead_beef_0123_4567u64.rotate_left(5) ^ 42).wrapping_mul(FX_MUL);
    assert_eq!(hasher.finish(), expected);
}

#[test]
fn stream_matches_manual_fold() {
    let seed: u64 = 389204;
    let values = trivial_random(seed, 8);
    assert_eq!(values.len(), 8);
    let mut state = seed;
    for (k, value) in values.iter().enumerate() {
        state = (state.rotate_left(5) ^ (k as u64)).wrapping_mul(FX_MUL);
        assert_eq!(*value, state);
    }
}

#[test]
fn stream_is_deterministic() {
    assert_eq!(trivial_random(7, 16), trivial_random(7, 16));
}
