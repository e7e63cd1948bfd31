use rust_poker::hand::{card, init_card_constants, scalar_add, Hand, RANKS};

#[test]
fn test_card_constants() {
    let cards = init_card_constants();
    // test a single card
    let rank: usize = 0; // 2
    let suit: usize = 0; // spade
    let h = cards[4 * rank + suit];
    assert_eq!(h.get_mask(), 1u64 << ((3 - suit) * 16 + rank));
    assert_eq!(h.count(), 1); // one card
    assert_eq!(h.has_flush(), false);
}

#[test]
fn test_from_hole_cards() {
    // 2 of spades, 2 of hearts
    let h = Hand::from_hole_cards(0, 1);
    assert_eq!(h.count(), 2);
    assert_eq!(h.has_flush(), false);
}

#[test]
fn test_rank_key() {
    // 2 of spades, 2 of hearts
    let h = Hand::from_hole_cards(0, 1);
    assert_eq!(h.get_rank_key() as u64, RANKS[0] + RANKS[0]);
}

#[test]
fn test_flush_key() {
    let cards = init_card_constants();
    let h_flush = Hand::default() + cards[0] + cards[4] + cards[8] + cards[12] + cards[16];
    assert_eq!(h_flush.get_flush_key(), 0b11111);

    let h_noflush = Hand::default() + cards[0] + cards[4] + cards[8] + cards[12];
    assert_eq!(h_noflush.get_flush_key(), 0);
}

#[test]
fn test_has_flush() {
    let cards = init_card_constants();
    let h_flush = Hand::default() + cards[0] + cards[8] + cards[12] + cards[16] + cards[20];
    assert_eq!(h_flush.has_flush(), true);
    let h_noflush = Hand::default() + cards[0] + cards[8] + cards[12] + cards[16] + cards[21];
    assert_eq!(h_noflush.has_flush(), false);
}

#[test]
fn test_suit_count() {
    let cards = init_card_constants();
    let h_4_spades = Hand::default() + cards[0] + cards[8] + cards[12] + cards[16] + cards[21];
    assert_eq!(h_4_spades.suit_count(0), 4);
    let h_3_hearts = Hand::default() + cards[1] + cards[9] + cards[13];
    assert_eq!(h_3_hearts.suit_count(1), 3);
}

fn assert_same(simd: Hand, scalar: Hand) {
    assert_eq!(simd.key, scalar.key);
    assert_eq!(simd.mask, scalar.mask);
}

#[test]
fn test_simd_matches_scalar_all_pairs() {
    let cards = init_card_constants();
    // every distinct two-card combination added onto the default hand
    for a in 0..52usize {
        for b in (a + 1)..52usize {
            let base = Hand::default();
            let simd = base + cards[a] + cards[b];
            let scalar = scalar_add(scalar_add(base, cards[a]), cards[b]);
            assert_same(simd, scalar);
        }
    }
}

#[test]
fn test_simd_matches_scalar_5_to_7_cards() {
    let cards = init_card_constants();
    // representative 5-, 6- and 7-card hands
    let card_sets: &[&[usize]] = &[
        &[0, 4, 8, 12, 16],          // 5 cards, no flush
        &[0, 4, 8, 12, 16, 20],      // 6 cards
        &[0, 4, 8, 12, 16, 20, 24],  // 7 cards
        &[0, 1, 2, 3, 16, 20, 24],   // quads
        &[0, 8, 16, 24, 32],         // five spades -> flush
        &[0, 8, 16, 24, 32, 40, 48], // seven spades
        &[1, 9, 17, 25, 33, 41, 49], // seven hearts
    ];
    for set in card_sets {
        let mut simd = Hand::default();
        let mut scalar = Hand::default();
        for &c in *set {
            simd += cards[c];
            scalar = scalar_add(scalar, cards[c]);
        }
        assert_same(simd, scalar);
    }
}

// ---------------------------------------------------------------------------

fn hand_of(cs: &[u8]) -> Hand {
    let mut h = Hand::default();
    for &c in cs {
        h += card(c);
    }
    h
}

#[test]
fn default_hand_layout() {
    let h = Hand::default();
    assert_eq!(h.get_key(), 0x3333_0000_0000_0000);
    assert_eq!(h.get_mask(), 0);
    assert_eq!(h.count(), 0);
    assert_eq!(h.get_counters(), 0x3333_0000);
    for s in 0..4u8 {
        assert_eq!(h.suit_count(s), 0);
    }
    assert!(!h.has_flush());
    assert_eq!(h.get_flush_key(), 0);
}

#[test]
fn single_card_values() {
    // ace of clubs: rank 12, suit 3
    let h = card(51);
    assert_eq!(h.key, (1u64 << 60) + (1u64 << 32) + 0x494493);
    assert_eq!(h.mask, 1u64 << 12);
    // two of spades: rank 0, suit 0
    let h = card(0);
    assert_eq!(h.key, (1u64 << 48) + (1u64 << 32) + 0x2000);
    assert_eq!(h.mask, 1u64 << 48);
}

#[test]
fn card_table_matches_card() {
    let cards = init_card_constants();
    for c in 0..52u8 {
        assert_eq!(cards[c as usize], card(c));
    }
}

#[test]
fn seven_card_hand_fields() {
    // As Ks Qs Js Ts 9h 2d: ranks 12, 11, 10, 9, 8 spades, 7 hearts, 0 diamonds
    let cs: [u8; 7] = [48, 44, 40, 36, 32, 29, 2];
    let h = hand_of(&cs);
    assert_eq!(h.count(), 7);
    assert_eq!(h.suit_count(0), 5);
    assert_eq!(h.suit_count(1), 1);
    assert_eq!(h.suit_count(2), 1);
    assert_eq!(h.suit_count(3), 0);
    assert!(h.has_flush());
    assert_eq!(h.get_flush_key(), 0b1_1111_0000_0000);
    let rank_sum = RANKS[12] + RANKS[11] + RANKS[10] + RANKS[9] + RANKS[8] + RANKS[7] + RANKS[0];
    assert_eq!(h.get_rank_key() as u64, rank_sum);
    assert_eq!(h.get_mask().count_ones(), 7);
    for &c in cs.iter() {
        let bit = (3 - (c % 4) as u64) * 16 + (c / 4) as u64;
        assert_eq!((h.get_mask() >> bit) & 1, 1);
    }
}

#[test]
fn flush_key_picks_the_flushed_suit() {
    // seven hearts: ranks 0, 2, 4, 6, 8, 10, 12
    let cs: [u8; 7] = [1, 9, 17, 25, 33, 41, 49];
    let h = hand_of(&cs);
    assert_eq!(h.suit_count(1), 7);
    assert!(h.has_flush());
    assert_eq!(h.get_flush_key(), 0b1_0101_0101_0101);
    // five clubs and two diamonds
    let cs: [u8; 7] = [3, 7, 11, 15, 23, 2, 6];
    let h = hand_of(&cs);
    assert_eq!(h.get_flush_key(), 0b10_1111);
}

#[test]
fn from_bit_mask_adds_the_set_cards() {
    let mask: u64 = (1 << 0) | (1 << 5) | (1 << 51) | (1 << 30);
    let h = Hand::from_bit_mask(mask);
    assert_eq!(h, hand_of(&[0, 5, 30, 51]));
    assert_eq!(h.count(), 4);
    assert_eq!(Hand::from_bit_mask(0), Hand::default());
    // bits above the deck are ignored
    assert_eq!(Hand::from_bit_mask(1u64 << 63), Hand::default());
}

#[test]
fn from_bit_mask_full_deck_wraps() {
    let h = Hand::from_bit_mask((1u64 << 52) - 1);
    let mut expected = Hand::default();
    for c in 0..52u8 {
        expected = scalar_add(expected, card(c));
    }
    assert_eq!(h, expected);
    assert_eq!(h.count(), 52 % 16);
    assert_eq!(h.get_mask().count_ones(), 52);
}

#[test]
fn add_is_commutative_and_associative() {
    let a = hand_of(&[3, 17]);
    let b = card(40);
    let c = Hand::from_hole_cards(8, 9);
    assert_eq!(a + b, b + a);
    assert_eq!((a + b) + c, a + (b + c));
    let big = Hand { key: u64::MAX, mask: 1 };
    assert_eq!((big + card(0)).key, card(0).key - 1);
}

#[test]
fn hole_cards_are_two_cards() {
    let h = Hand::from_hole_cards(50, 51);
    assert_eq!(h, scalar_add(card(50), card(51)));
    assert_eq!(h.count(), 2);
    assert_eq!(h.get_rank_key() as u64, RANKS[12] * 2);
    assert!(!h.has_flush());
}

#[test]
fn suit_count_is_signed() {
    // a hand without the default offset reports -3 for an empty suit
    let h = card(0);
    assert_eq!(h.suit_count(1), -3);
    assert_eq!(h.suit_count(0), -2);
}

/// Adds two words as two independent wrapping 32-bit lanes.
fn lanes(x: u64, y: u64) -> u64 {
    let lo = (x as u32).wrapping_add(y as u32) as u64;
    let hi = ((x >> 32) as u32).wrapping_add((y >> 32) as u32) as u64;
    (hi << 32) | lo
}

#[test]
fn lane_wise_sum_matches_for_legal_hands() {
    // adding each card of a seven-card hand lane by lane gives the scalar sum
    let cs: [u8; 7] = [51, 47, 43, 39, 35, 31, 27];
    let mut h = Hand::default();
    for &c in cs.iter() {
        let k = card(c);
        assert_eq!(h.mask & k.mask, 0);
        assert!((h.key as u32 as u64) + (k.key as u32 as u64) < (1u64 << 32));
        let lane = Hand { key: lanes(h.key, k.key), mask: lanes(h.mask, k.mask) };
        h = h + k;
        assert_eq!(lane, h);
    }
    assert_eq!(h.suit_count(3), 7);
    assert_eq!(h.get_flush_key(), 0b1_1111_1100_0000);
}

#[test]
fn fold_of_seven_cards_does_not_wrap() {
    let cs: [u8; 7] = [0, 1, 2, 3, 16, 20, 24];
    let h = hand_of(&cs);
    let key_sum: u128 = cs.iter().map(|&c| card(c).key as u128).sum();
    let mask_join = cs.iter().fold(0u64, |m, &c| m | card(c).mask);
    assert_eq!(h.key as u128, Hand::default().key as u128 + key_sum);
    assert_eq!(h.mask, mask_join);
}

#[test]
fn setting_a_board_bit_adds_the_card() {
    let m: u64 = (1 << 3) | (1 << 17) | (1 << 40);
    for c in [0u8, 5, 18, 51] {
        assert_eq!(Hand::from_bit_mask(m | (1u64 << c)), Hand::from_bit_mask(m) + card(c));
    }
}

#[test]
fn two_card_board_is_hole_cards_plus_offset() {
    for (c1, c2) in [(0u8, 1u8), (51, 7), (12, 40)] {
        let board = Hand::from_bit_mask((1u64 << c1) | (1u64 << c2));
        assert_eq!(board, Hand::from_hole_cards(c1, c2) + Hand::default());
    }
}
