use solution_x::random::{
    lcg, sample_indices, training_start, warmup_query, TRAINING_SEED, WARMUP_SEED,
};
use solution_x::ranking::{first_reaching, nearest, rank_centroids, NO_DISTANCE};

#[test]
fn least_keys_come_first() {
    assert_eq!(rank_centroids(&[5, 3, 9, 1, 7], 3), [(1, 3), (3, 1), (5, 0)]);
    assert_eq!(rank_centroids(&[5, 3], 3), [(3, 1), (5, 0)]);
    assert_eq!(rank_centroids(&[], 3), []);
}

#[test]
fn ties_keep_the_keys() {
    let r = rank_centroids(&[4, 4, 4, 4, 1], 2);
    assert_eq!(r[0], (1, 4));
    assert_eq!(r[1].0, 4);
    assert!(r[1].1 < 4);
}

#[test]
fn keys_of_distances_keep_their_order() {
    let d = [0.0f32, 1e-30, 0.25, 0.5, 1.0, 3.5, 1e20, f32::MAX, f32::INFINITY];
    for w in d.windows(2) {
        assert!(w[0].to_bits() < w[1].to_bits());
    }
    assert_eq!(f32::MAX.to_bits(), NO_DISTANCE);
}

#[test]
fn nearest_is_the_first_least() {
    assert_eq!(nearest(&[5, 3, 9, 3]), 1);
    assert_eq!(nearest(&[]), 0);
    assert_eq!(nearest(&[NO_DISTANCE, NO_DISTANCE + 1]), 0);
    assert_eq!(nearest(&[u32::MAX, NO_DISTANCE - 1]), 1);
}

#[test]
fn the_generator_steps() {
    assert_eq!(lcg(0), 1442695040888963407);
    assert_eq!(lcg(1), 7806831264735756412);
}

#[test]
fn warmup_queries_are_drawn_in_turn() {
    let (q, after) = warmup_query(WARMUP_SEED);
    let mut seed = WARMUP_SEED;
    for d in 0..14 {
        seed = seed.wrapping_mul(6364136223846793005).wrapping_add(1442695040888963407);
        let x = ((seed >> 48) as i16).wrapping_rem(20_001).wrapping_sub(10_000);
        assert_eq!(q[d], x);
        assert!(-30_000 <= q[d] && q[d] <= 10_000);
    }
    assert_eq!(after, seed);
    assert_eq!(WARMUP_SEED, 0x9E37_79B9_7F4A_7C15);
}

#[test]
fn samples_are_drawn_in_turn() {
    let (places, after) = sample_indices(1, 3, 10);
    let a = lcg(1);
    let b = lcg(a);
    let c = lcg(b);
    assert_eq!(places, [(a % 10) as usize, (b % 10) as usize, (c % 10) as usize]);
    assert_eq!(after, c);
    let t = training_start(4, 65_536);
    assert_eq!(t.sample.len(), 4);
    assert_eq!(t.sample[0], (lcg(TRAINING_SEED) % 4) as usize);
    assert_eq!(t.first, t.sample[(t.state % 4) as usize]);
}

#[test]
fn totals_are_reached_once() {
    assert_eq!(first_reaching(&[1, 3, 3, 8], 0), 0);
    assert_eq!(first_reaching(&[1, 3, 3, 8], 2), 1);
    assert_eq!(first_reaching(&[1, 3, 3, 8], 3), 1);
    assert_eq!(first_reaching(&[1, 3, 3, 8], 8), 3);
    assert_eq!(first_reaching(&[1, 3, 3, 8], 9), 3);
    assert_eq!(first_reaching(&[5], 9), 0);
}
