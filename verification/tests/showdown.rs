use rand::rngs::SmallRng;
use rand::{Rng, SeedableRng};
use rust_poker::showdown::{tally_showdown, tally_showdown_scalar, D};

fn make_valid(b: usize, set: impl Fn(usize) -> bool) -> Vec<u64> {
    let mut v = vec![0u64; (b + 63) / 64];
    for i in 0..b {
        if set(i) {
            v[i >> 6] |= 1u64 << (i & 63);
        }
    }
    v
}

#[test]
fn invariant_and_parity_random() {
    let mut rng = SmallRng::seed_from_u64(0xC0FFEE);
    for _ in 0..200 {
        let n = rng.gen_range(2, 10);
        let b = rng.gen_range(1, 600);

        // Low score range forces frequent ties.
        let cols: Vec<Vec<u16>> = (0..n)
            .map(|_| (0..b).map(|_| rng.gen_range(1, 6) as u16).collect())
            .collect();
        let scores: Vec<&[u16]> = cols.iter().map(|c| c.as_slice()).collect();

        let weights: Vec<u32> = (0..b).map(|_| rng.gen_range(1, 25)).collect();
        let valid_bits: Vec<bool> = (0..b).map(|_| rng.gen_bool(0.85)).collect();
        let valid = make_valid(b, |i| valid_bits[i]);

        let mut out_simd = vec![0u64; n];
        let mut out_scalar = vec![0u64; n];

        let w_simd = tally_showdown(&scores, &weights, &valid, &mut out_simd);
        let w_scalar = tally_showdown_scalar(&scores, &weights, &valid, &mut out_scalar);

        assert_eq!(w_simd, w_scalar, "W mismatch");
        assert_eq!(out_simd, out_scalar, "SIMD != scalar");

        let sum: u64 = out_simd.iter().sum();
        assert_eq!(sum, D * w_simd, "sum_p out_units != D * W");
    }
}

#[test]
fn wide_scores_no_ties() {
    let mut rng = SmallRng::seed_from_u64(42);
    let n = 6;
    let b = 5000;
    let cols: Vec<Vec<u16>> = (0..n)
        .map(|_| (0..b).map(|_| rng.gen_range(1, 60000) as u16).collect())
        .collect();
    let scores: Vec<&[u16]> = cols.iter().map(|c| c.as_slice()).collect();
    let weights = vec![1u32; b];
    let valid = make_valid(b, |_| true);

    let mut out = vec![0u64; n];
    let w = tally_showdown(&scores, &weights, &valid, &mut out);
    let sum: u64 = out.iter().sum();
    assert_eq!(sum, D * w);
}

#[test]
fn forced_tie_split() {
    // Two players, identical scores, one board, weight 1 -> 50/50 split.
    let s: Vec<u16> = vec![7];
    let scores: Vec<&[u16]> = vec![&s, &s];
    let weights = vec![1u32];
    let valid = vec![1u64];
    let mut out = vec![0u64; 2];
    let w = tally_showdown(&scores, &weights, &valid, &mut out);
    assert_eq!(w, 1);
    assert_eq!(out[0], D / 2);
    assert_eq!(out[1], D / 2);
    assert_eq!(out[0] + out[1], D);
}

#[test]
fn invalid_boards_contribute_nothing() {
    let a: Vec<u16> = vec![10, 99];
    let c: Vec<u16> = vec![20, 1];
    let scores: Vec<&[u16]> = vec![&a, &c];
    let weights = vec![5u32, 1000u32];
    let valid = make_valid(2, |i| i == 0); // board 1 invalid
    let mut out = vec![0u64; 2];
    let w = tally_showdown(&scores, &weights, &valid, &mut out);
    assert_eq!(w, 5);
    assert_eq!(out[0], 0); // player 0 lost the only valid board
    assert_eq!(out[1], 5 * D); // player 1 won it outright
}

// ---------------------------------------------------------------------------

#[test]
fn three_way_tie_and_accumulation() {
    let a: Vec<u16> = vec![5, 1, 9];
    let b: Vec<u16> = vec![5, 2, 9];
    let c: Vec<u16> = vec![5, 3, 1];
    let scores: Vec<&[u16]> = vec![&a, &b, &c];
    let weights = vec![3u32, 2, 4];
    let valid = vec![0b111u64];
    // caller-provided totals are added to, not overwritten; an extra slot is untouched
    let mut out = vec![100u64, 0, 7, 42];
    let w = tally_showdown_scalar(&scores, &weights, &valid, &mut out);
    assert_eq!(w, 9);
    // board 0: three-way tie, 3 * D / 3 each; board 1: player 2 wins 2 * D;
    // board 2: players 0 and 1 split 4 * D
    assert_eq!(out, vec![100 + D + 2 * D, D + 2 * D, 7 + D + 2 * D, 42]);
    let gained: u64 = out[..3].iter().sum::<u64>() - 107;
    assert_eq!(gained, D * w);
}

#[test]
fn no_valid_boards() {
    let a: Vec<u16> = vec![1, 2, 3];
    let scores: Vec<&[u16]> = vec![&a];
    let weights = vec![1u32, 2, 3];
    let valid = vec![0u64];
    let mut out = vec![0u64; 1];
    assert_eq!(tally_showdown(&scores, &weights, &valid, &mut out), 0);
    assert_eq!(out, vec![0]);
    // no players and no playable board
    let none: Vec<&[u16]> = vec![];
    let mut empty: Vec<u64> = vec![];
    assert_eq!(tally_showdown(&none, &weights, &valid, &mut empty), 0);
}

#[test]
fn boards_in_second_word_of_bitset() {
    let b = 130;
    let s0: Vec<u16> = (0..b).map(|i| (i % 7) as u16).collect();
    let s1: Vec<u16> = (0..b).map(|i| (i % 5) as u16).collect();
    let scores: Vec<&[u16]> = vec![&s0, &s1];
    let weights: Vec<u32> = (0..b).map(|i| (i % 3) as u32 + 1).collect();
    let valid = make_valid(b, |i| i >= 64);
    let mut out = vec![0u64; 2];
    let w = tally_showdown(&scores, &weights, &valid, &mut out);
    let expected_w: u64 = (64..b).map(|i| weights[i] as u64).sum();
    assert_eq!(w, expected_w);
    assert_eq!(out[0] + out[1], D * w);
}

#[test]
fn players_are_treated_alike() {
    let a: Vec<u16> = vec![5, 1, 9, 4];
    let b: Vec<u16> = vec![5, 2, 9, 7];
    let c: Vec<u16> = vec![5, 3, 1, 7];
    let weights = vec![3u32, 2, 4, 6];
    let valid = vec![0b1111u64];
    let scores: Vec<&[u16]> = vec![&a, &b, &c];
    let mut out = vec![0u64; 3];
    let w = tally_showdown(&scores, &weights, &valid, &mut out);
    // rows in the order given by pi = [2, 0, 1]
    let pi = [2usize, 0, 1];
    let scores2: Vec<&[u16]> = pi.iter().map(|&p| scores[p]).collect();
    let mut out2 = vec![0u64; 3];
    let w2 = tally_showdown(&scores2, &weights, &valid, &mut out2);
    assert_eq!(w, w2);
    for i in 0..3 {
        assert_eq!(out2[i], out[pi[i]]);
    }
}
