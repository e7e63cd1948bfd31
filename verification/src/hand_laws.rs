//! What the hand representation means: the laws that tie a hand built from
//! a set of cards to the number of cards, the cards of each suit, the rank
//! key and the card mask.
use vstd::prelude::*;
use vstd::arithmetic::power2::{pow2, lemma2_to64, lemma2_to64_rest};
use vstd::arithmetic::div_mod::{lemma_add_mod_noop, lemma_fundamental_div_mod_converse};
use crate::bits::{
    bit_set, lemma_bit_insert, lemma_bit_or, lemma_bit_shift, lemma_bit_single, lemma_bit_zero,
};
use crate::hand::{
    card_at_bit, card_bit, default_hand, flush_suit, card_counter, card_hand, card_key, card_rank, card_suit, flush_in_key,
    hand_of, hand_sum, mask_cards, rank_key, rank_sum, suit_counter, suit_flushed, suit_group,
    suit_tally, valid_cards, Hand, RANKS,
};

verus! {

/// Weight of one card of suit `s` in the suit counters (`16^s`).
spec fn suit_weight(s: int) -> int {
    if s == 0 {
        1
    } else if s == 1 {
        16
    } else if s == 2 {
        256
    } else {
        4096
    }
}

/// Sum of the suit weights of `cards`.
spec fn suit_sum(cards: Seq<int>) -> int
    decreases cards.len(),
{
    if cards.len() == 0 {
        0
    } else {
        suit_sum(cards.drop_last()) + suit_weight(card_suit(cards.last()))
    }
}

proof fn lemma_rank_key_bound(r: int)
    requires
        0 <= r < 13,
    ensures
        0 <= rank_key(r) <= 0x494493,
{
    assert(RANKS@[r] <= 0x494493);
}

proof fn lemma_card_key(c: int)
    requires
        0 <= c < 52,
    ensures
        card_key(c) == 0x1_0000_0000_0000 * suit_weight(card_suit(c)) + 0x1_0000_0000 + rank_key(
            card_rank(c),
        ),
        0 <= rank_key(card_rank(c)) <= 0x494493,
        card_hand(c).key == card_key(c),
{
    lemma2_to64();
    lemma2_to64_rest();
    lemma_rank_key_bound(card_rank(c));
}

proof fn lemma_key_sum(cards: Seq<int>)
    requires
        forall|i: int| 0 <= i < cards.len() ==> 0 <= #[trigger] cards[i] < 52,
    ensures
        hand_of(cards).key == (0x1_0000_0000_0000 * (0x3333 + suit_sum(cards)) + 0x1_0000_0000
            * cards.len() + rank_sum(cards)) % 0x1_0000_0000_0000_0000,
        0 <= rank_sum(cards) <= 0x494493 * cards.len(),
        suit_sum(cards) == suit_tally(cards, 0) + 16 * suit_tally(cards, 1) + 256 * suit_tally(
            cards,
            2,
        ) + 4096 * suit_tally(cards, 3),
        suit_tally(cards, 0) + suit_tally(cards, 1) + suit_tally(cards, 2) + suit_tally(cards, 3)
            == cards.len(),
    decreases cards.len(),
{
    if cards.len() == 0 {
    } else {
        let s = cards.drop_last();
        let c = cards.last();
        assert(c == cards[cards.len() - 1]);
        lemma_key_sum(s);
        lemma_card_key(c);
        let m: int = 0x1_0000_0000_0000_0000;
        let xs = 0x1_0000_0000_0000 * (0x3333 + suit_sum(s)) + 0x1_0000_0000 * s.len() + rank_sum(s);
        lemma_add_mod_noop(xs, card_key(c), m);
        assert(card_key(c) % m == card_key(c));
    }
}

/// Distinct cards of the deck number at most 52.
proof fn lemma_valid_cards_len(cards: Seq<int>)
    requires
        valid_cards(cards),
    ensures
        cards.len() <= 52,
{
    cards.unique_seq_to_set();
    vstd::set_lib::lemma_int_range(0, 52);
    assert(cards.to_set().subset_of(vstd::set_lib::set_int_range(0, 52))) by {
        assert forall|x: int| cards.to_set().contains(x) implies vstd::set_lib::set_int_range(
            0,
            52,
        ).contains(x) by {
            let i = choose|i: int| 0 <= i < cards.len() && cards[i] == x;
        }
    }
    vstd::set_lib::lemma_len_subset(cards.to_set(), vstd::set_lib::set_int_range(0, 52));
}

/// Reading the fields of a key laid out as counters `h`, card counter `n`
/// and rank key `r`.
proof fn lemma_key_layout(k: u64, h: u64, n: u64, r: u64)
    by (bit_vector)
    requires
        h < 0x10000,
        n < 0x10000,
        r < 0x1_0000_0000,
        k == h * 0x1_0000_0000_0000 + n * 0x1_0000_0000 + r,
    ensures
        k % 0x1_0000_0000 == r,
        (k / 0x1_0000_0000) % 16 == n % 16,
        k / 0x1_0000_0000_0000 == h,
        (k / 0x1_0000_0000_0000) % 16 == h % 16,
        (k / 0x10_0000_0000_0000) % 16 == (h / 16) % 16,
        (k / 0x100_0000_0000_0000) % 16 == (h / 256) % 16,
        (k / 0x1000_0000_0000_0000) % 16 == (h / 4096) % 16,
{
}

/// Reading the four suit counters `a0..a3` packed (with carries) into 16 bits.
proof fn lemma_counters_layout(h: u64, t: u64, a0: u64, a1: u64, a2: u64, a3: u64)
    by (bit_vector)
    requires
        a0 < 64,
        a1 < 64,
        a2 < 64,
        a3 < 64,
        t == a0 + a1 * 16 + a2 * 256 + a3 * 4096,
        h == t % 0x10000,
    ensures
        a0 < 16 ==> h % 16 == a0,
        a0 < 16 && a1 < 16 ==> (h / 16) % 16 == a1,
        a0 < 16 && a1 < 16 && a2 < 16 ==> (h / 256) % 16 == a2,
        a0 < 16 && a1 < 16 && a2 < 16 && a3 < 16 ==> h / 4096 == a3,
{
}

/// The fields of the key of a legal hand, read off the cards.
proof fn lemma_hand_fields(cards: Seq<int>)
    requires
        valid_cards(cards),
    ensures
        hand_of(cards).key % 0x1_0000_0000 == rank_sum(cards),
        rank_sum(cards) < 0x1_0000_0000,
        card_counter(hand_of(cards).key) == cards.len() % 16,
        suit_tally(cards, 0) <= 12 ==> suit_counter(hand_of(cards).key, 0) == 3 + suit_tally(cards, 0),
        suit_tally(cards, 0) <= 12 && suit_tally(cards, 1) <= 12 ==> suit_counter(
            hand_of(cards).key,
            1,
        ) == 3 + suit_tally(cards, 1),
        suit_tally(cards, 0) <= 12 && suit_tally(cards, 1) <= 12 && suit_tally(cards, 2) <= 12
            ==> suit_counter(hand_of(cards).key, 2) == 3 + suit_tally(cards, 2),
        suit_tally(cards, 0) <= 12 && suit_tally(cards, 1) <= 12 && suit_tally(cards, 2) <= 12
            && suit_tally(cards, 3) <= 12 ==> suit_counter(hand_of(cards).key, 3) == 3
            + suit_tally(cards, 3),
{
    lemma_valid_cards_len(cards);
    lemma_key_sum(cards);
    lemma2_to64();
    lemma2_to64_rest();
    let n = cards.len() as int;
    let r = rank_sum(cards);
    let big_h = 0x3333 + suit_sum(cards);
    let x = 0x1_0000_0000_0000 * big_h + 0x1_0000_0000 * n + r;
    vstd::arithmetic::div_mod::lemma_fundamental_div_mod(big_h, 0x10000);
    let q = big_h / 0x10000;
    let h = big_h % 0x10000;
    let rest = 0x1_0000_0000_0000 * h + 0x1_0000_0000 * n + r;
    assert(x == 0x1_0000_0000_0000_0000 * q + rest);
    lemma_fundamental_div_mod_converse(x, 0x1_0000_0000_0000_0000, q, rest);
    let k = hand_of(cards).key;
    assert(k == rest);
    lemma_key_layout(k, h as u64, n as u64, r as u64);
    let a0 = 3 + suit_tally(cards, 0);
    let a1 = 3 + suit_tally(cards, 1);
    let a2 = 3 + suit_tally(cards, 2);
    let a3 = 3 + suit_tally(cards, 3);
    lemma_counters_layout(h as u64, big_h as u64, a0 as u64, a1 as u64, a2 as u64, a3 as u64);
}

/// The mask of a hand has the bits of its cards and no other.
proof fn lemma_mask_bits(cards: Seq<int>)
    requires
        forall|i: int| 0 <= i < cards.len() ==> 0 <= #[trigger] cards[i] < 52,
    ensures
        forall|q: int|
            0 <= q < 64 ==> (bit_set(hand_of(cards).mask, q) <==> exists|i: int|
                0 <= i < cards.len() && card_bit(#[trigger] cards[i]) == q),
    decreases cards.len(),
{
    if cards.len() == 0 {
        assert forall|q: int| 0 <= q < 64 implies !bit_set(hand_of(cards).mask, q) by {
            assert(0u64 as nat / pow2(q as nat) == 0) by {
                vstd::arithmetic::power2::lemma_pow2_pos(q as nat);
            }
        }
    } else {
        let s = cards.drop_last();
        let c = cards.last();
        assert(c == cards[cards.len() - 1]);
        lemma_mask_bits(s);
        assert forall|q: int| 0 <= q < 64 implies (bit_set(hand_of(cards).mask, q) <==> exists|
            i: int,
        | 0 <= i < cards.len() && card_bit(#[trigger] cards[i]) == q) by {
            lemma_bit_or(hand_of(s).mask, card_hand(c).mask, q);
            lemma_bit_single(card_bit(c), q);
            if exists|i: int| 0 <= i < s.len() && card_bit(#[trigger] s[i]) == q {
                let i = choose|i: int| 0 <= i < s.len() && card_bit(#[trigger] s[i]) == q;
                assert(cards[i] == s[i]);
            }
            if exists|i: int| 0 <= i < cards.len() && card_bit(#[trigger] cards[i]) == q {
                let i = choose|i: int| 0 <= i < cards.len() && card_bit(#[trigger] cards[i]) == q;
                if i < s.len() {
                    assert(s[i] == cards[i]);
                }
            }
        }
    }
}

proof fn lemma_card_at_bit(c: int, q: int)
    requires
        0 <= c < 52,
        0 <= q < 64,
    ensures
        (card_bit(c) == q) == (q % 16 < 13 && c == card_at_bit(q)),
{
}

/// The number of cards of a suit, counted over the positions of the sequence.
proof fn lemma_tally_set(cards: Seq<int>, suit: int)
    ensures
        Set::new(|i: int| 0 <= i < cards.len() && cards[i] % 4 == suit).finite(),
        suit_tally(cards, suit) == Set::new(
            |i: int| 0 <= i < cards.len() && cards[i] % 4 == suit,
        ).len(),
    decreases cards.len(),
{
    let all = Set::new(|i: int| 0 <= i < cards.len() && cards[i] % 4 == suit);
    if cards.len() == 0 {
        assert(all =~= Set::<int>::empty());
    } else {
        let s = cards.drop_last();
        lemma_tally_set(s, suit);
        let prev = Set::new(|i: int| 0 <= i < s.len() && s[i] % 4 == suit);
        let last = cards.len() - 1;
        if cards[last] % 4 == suit {
            assert(all =~= prev.insert(last));
        } else {
            assert(all =~= prev);
        }
    }
}

/// The rank sum, as a fold of the rank keys over the cards.
proof fn lemma_rank_sum_fold(cards: Seq<int>)
    ensures
        rank_sum(cards) == cards.fold_left(0int, |acc: int, c: int| acc + RANKS@[c / 4] as int),
    decreases cards.len(),
{
    if cards.len() > 0 {
        lemma_rank_sum_fold(cards.drop_last());
    }
}

// ------------------------------------------------------------------------
// Laws
// ------------------------------------------------------------------------

/// The card counter of a hand of distinct cards is the number of its cards
/// (held in four bits, so modulo 16).
pub proof fn law_card_count(cards: Seq<int>)
    requires
        valid_cards(cards),
    ensures
        card_counter(hand_of(cards).key) == cards.len() % 16,
{
    lemma_hand_fields(cards);
}

/// The low 32 bits of the key of a hand of distinct cards are the sum of the
/// rank keys of its cards; that sum never reaches bit 32.
pub proof fn law_rank_key(cards: Seq<int>)
    requires
        valid_cards(cards),
    ensures
        hand_of(cards).key % 0x1_0000_0000 == rank_sum(cards),
        rank_sum(cards) < 0x1_0000_0000,
        hand_of(cards).key % 0x1_0000_0000 == cards.fold_left(
            0int,
            |acc: int, c: int| acc + RANKS@[c / 4] as int,
        ),
{
    lemma_hand_fields(cards);
    lemma_rank_sum_fold(cards);
}

/// The counter of suit `suit` is 3 plus the number of cards of that suit, as long
/// as neither that suit nor a lower one holds 13 cards (a counter holds 3 + 12).
pub proof fn law_suit_count(cards: Seq<int>, suit: int)
    requires
        valid_cards(cards),
        0 <= suit < 4,
        forall|t: int| 0 <= t <= suit ==> #[trigger] suit_tally(cards, t) <= 12,
    ensures
        suit_counter(hand_of(cards).key, suit) == 3 + suit_tally(cards, suit),
        suit_counter(hand_of(cards).key, suit) == 3 + Set::new(
            |i: int| 0 <= i < cards.len() && cards[i] % 4 == suit,
        ).len(),
{
    lemma_tally_set(cards, suit);
    lemma_hand_fields(cards);
    assert(suit_tally(cards, 0) <= 12);
    if suit >= 1 {
        assert(suit_tally(cards, 1) <= 12);
    }
    if suit >= 2 {
        assert(suit_tally(cards, 2) <= 12);
    }
    if suit >= 3 {
        assert(suit_tally(cards, 3) <= 12);
    }
}

/// A suit is flushed (its counter reached 8) exactly when the hand holds five or
/// more cards of it, provided no suit holds all 13 of its cards.
pub proof fn law_flush(cards: Seq<int>)
    requires
        valid_cards(cards),
        forall|t: int| 0 <= t < 4 ==> #[trigger] suit_tally(cards, t) <= 12,
    ensures
        forall|suit: int|
            0 <= suit < 4 ==> (suit_flushed(hand_of(cards).key, suit) <==> #[trigger] suit_tally(
                cards,
                suit,
            ) >= 5),
        forall|suit: int|
            0 <= suit < 4 ==> (#[trigger] suit_flushed(hand_of(cards).key, suit) <==> Set::new(
                |i: int| 0 <= i < cards.len() && cards[i] % 4 == suit,
            ).len() >= 5),
        flush_in_key(hand_of(cards).key) <==> exists|suit: int|
            0 <= suit < 4 && #[trigger] suit_flushed(hand_of(cards).key, suit),
        flush_in_key(hand_of(cards).key) ==> {
            let s = flush_suit(hand_of(cards).key);
            &&& 0 <= s < 4
            &&& suit_flushed(hand_of(cards).key, s)
            &&& forall|t: int| s < t < 4 ==> !#[trigger] suit_flushed(hand_of(cards).key, t)
        },
{
    assert forall|suit: int| 0 <= suit < 4 implies (suit_flushed(hand_of(cards).key, suit)
        <==> #[trigger] suit_tally(cards, suit) >= 5) by {
        law_suit_count(cards, suit);
    }
    assert forall|suit: int| 0 <= suit < 4 implies (#[trigger] suit_flushed(
        hand_of(cards).key,
        suit,
    ) <==> Set::new(|i: int| 0 <= i < cards.len() && cards[i] % 4 == suit).len() >= 5) by {
        law_suit_count(cards, suit);
    }
    let k = hand_of(cards).key;
    if exists|suit: int| 0 <= suit < 4 && #[trigger] suit_flushed(k, suit) {
        let s = choose|suit: int| 0 <= suit < 4 && #[trigger] suit_flushed(k, suit);
        assert(s == 0 || s == 1 || s == 2 || s == 3);
    }
    if flush_in_key(k) {
        assert(suit_flushed(k, 0) || suit_flushed(k, 1) || suit_flushed(k, 2) || suit_flushed(k, 3));
    }
}

/// The mask of a hand has one bit per card: bit `q` is set exactly when `q`
/// is the position of one of its cards.
pub proof fn law_mask(cards: Seq<int>)
    requires
        valid_cards(cards),
    ensures
        forall|q: int|
            0 <= q < 64 ==> (bit_set(hand_of(cards).mask, q) <==> (q % 16 < 13 && cards.contains(
                card_at_bit(q),
            ))),
{
    lemma_mask_bits(cards);
    assert forall|q: int| 0 <= q < 64 implies (bit_set(hand_of(cards).mask, q) <==> (q % 16 < 13
        && cards.contains(card_at_bit(q)))) by {
        if bit_set(hand_of(cards).mask, q) {
            let i = choose|i: int| 0 <= i < cards.len() && card_bit(#[trigger] cards[i]) == q;
            lemma_card_at_bit(cards[i], q);
        }
        if q % 16 < 13 && cards.contains(card_at_bit(q)) {
            let i = choose|i: int| 0 <= i < cards.len() && cards[i] == card_at_bit(q);
            lemma_card_at_bit(cards[i], q);
        }
    }
}

/// Bit `r` of the group of suit `suit` is bit `16 * (3 - suit) + r` of the mask.
proof fn lemma_suit_group_bit(m: u64, suit: int, r: int)
    requires
        0 <= suit < 4,
        0 <= r < 16,
    ensures
        suit_group(m, suit) < 0x10000,
        bit_set(suit_group(m, suit) as u64, r) == bit_set(m, 16 * (3 - suit) + r),
{
    let a = (16 * (3 - suit)) as u64;
    let ru = r as u64;
    vstd::bits::lemma_u64_shr_is_div(m, a);
    let y = m >> a;
    assert(y & 0xffff == y % 0x10000) by (bit_vector);
    let z = y & 0xffff;
    assert(suit_group(m, suit) == z);
    lemma_bit_shift(z, r);
    lemma_bit_shift(m, 16 * (3 - suit) + r);
    assert(a <= 48 && ru < 16 ==> ((((m >> a) & 0xffff) >> ru) & 1 == 1 <==> (m >> (a + ru)) & 1
        == 1)) by (bit_vector);
}

/// The group of suit `suit` in the mask of a hand holds one bit per rank of
/// that suit in the hand: bit `r` is set exactly when the card of rank `r` and
/// suit `suit` is in the hand.
pub proof fn law_suit_group(cards: Seq<int>, suit: int)
    requires
        valid_cards(cards),
        0 <= suit < 4,
    ensures
        suit_group(hand_of(cards).mask, suit) < 0x10000,
        forall|r: int|
            0 <= r < 16 ==> (#[trigger] bit_set(suit_group(hand_of(cards).mask, suit) as u64, r)
                <==> (r < 13 && cards.contains(4 * r + suit))),
{
    law_mask(cards);
    lemma_suit_group_bit(hand_of(cards).mask, suit, 0);
    assert forall|r: int| 0 <= r < 16 implies (#[trigger] bit_set(
        suit_group(hand_of(cards).mask, suit) as u64,
        r,
    ) <==> (r < 13 && cards.contains(4 * r + suit))) by {
        lemma_suit_group_bit(hand_of(cards).mask, suit, r);
        let q = 16 * (3 - suit) + r;
        assert(q % 16 == r && q / 16 == 3 - suit);
        assert(card_at_bit(q) == 4 * r + suit);
    }
}

proof fn lemma_mask_cards(mask: u64, n: int)
    requires
        0 <= n <= 52,
    ensures
        forall|i: int|
            0 <= i < mask_cards(mask, n).len() ==> 0 <= #[trigger] mask_cards(mask, n)[i] < n,
        forall|i: int, j: int|
            0 <= i < j < mask_cards(mask, n).len() ==> #[trigger] mask_cards(mask, n)[i]
                < #[trigger] mask_cards(mask, n)[j],
        forall|c: int| 0 <= c < n ==> (mask_cards(mask, n).contains(c) <==> bit_set(mask, c)),
    decreases n,
{
    if n > 0 {
        lemma_mask_cards(mask, n - 1);
        let prev = mask_cards(mask, n - 1);
        if bit_set(mask, n - 1) {
            assert forall|c: int| 0 <= c < n implies (mask_cards(mask, n).contains(c) <==> bit_set(
                mask,
                c,
            )) by {
                if c < n - 1 && mask_cards(mask, n).contains(c) {
                    let i = choose|i: int| 0 <= i < mask_cards(mask, n).len() && mask_cards(mask, n)[i] == c;
                    if i < prev.len() {
                        assert(prev[i] == c);
                    }
                }
                if c < n - 1 && prev.contains(c) {
                    let i = choose|i: int| 0 <= i < prev.len() && prev[i] == c;
                    assert(mask_cards(mask, n)[i] == c);
                }
                if c == n - 1 {
                    assert(mask_cards(mask, n)[prev.len() as int] == c);
                }
            }
        } else {
            assert forall|c: int| 0 <= c < n implies (mask_cards(mask, n).contains(c) <==> bit_set(
                mask,
                c,
            )) by {
                if c == n - 1 && prev.contains(c) {
                    let i = choose|i: int| 0 <= i < prev.len() && prev[i] == c;
                }
            }
        }
    }
}

/// The cards that a bit mask names are distinct cards of the deck: exactly
/// those whose bit is set.
pub proof fn law_mask_cards(mask: u64)
    ensures
        valid_cards(mask_cards(mask, 52)),
        forall|c: int| 0 <= c < 52 ==> (mask_cards(mask, 52).contains(c) <==> bit_set(mask, c)),
{
    lemma_mask_cards(mask, 52);
    let cards = mask_cards(mask, 52);
    assert forall|i: int, j: int| 0 <= i < cards.len() && 0 <= j < cards.len() && i != j implies cards[i]
        != cards[j] by {
        if i < j {
            assert(cards[i] < cards[j]);
        } else {
            assert(cards[j] < cards[i]);
        }
    }
}

/// Two hole cards (added without the suit counter offset of the empty hand)
/// make a hand of two cards whose rank key is the sum of their rank keys and
/// in which no suit is flushed.
pub proof fn law_hole_cards(c1: int, c2: int)
    requires
        0 <= c1 < 52,
        0 <= c2 < 52,
    ensures
        card_counter(hand_sum(card_hand(c1), card_hand(c2)).key) == 2,
        hand_sum(card_hand(c1), card_hand(c2)).key % 0x1_0000_0000 == rank_key(card_rank(c1))
            + rank_key(card_rank(c2)),
        !flush_in_key(hand_sum(card_hand(c1), card_hand(c2)).key),
{
    lemma_card_key(c1);
    lemma_card_key(c2);
    lemma2_to64();
    lemma2_to64_rest();
    let h = suit_weight(card_suit(c1)) + suit_weight(card_suit(c2));
    let r = rank_key(card_rank(c1)) + rank_key(card_rank(c2));
    let k = hand_sum(card_hand(c1), card_hand(c2)).key;
    vstd::arithmetic::div_mod::lemma_small_mod(
        (card_key(c1) + card_key(c2)) as nat,
        0x1_0000_0000_0000_0000,
    );
    assert(k == h * 0x1_0000_0000_0000 + 2 * 0x1_0000_0000 + r);
    lemma_key_layout(k, h as u64, 2, r as u64);
    let a0 = (if card_suit(c1) == 0 { 1int } else { 0 }) + (if card_suit(c2) == 0 { 1int } else { 0 });
    let a1 = (if card_suit(c1) == 1 { 1int } else { 0 }) + (if card_suit(c2) == 1 { 1int } else { 0 });
    let a2 = (if card_suit(c1) == 2 { 1int } else { 0 }) + (if card_suit(c2) == 2 { 1int } else { 0 });
    let a3 = (if card_suit(c1) == 3 { 1int } else { 0 }) + (if card_suit(c2) == 3 { 1int } else { 0 });
    assert(h == a0 + a1 * 16 + a2 * 256 + a3 * 4096);
    lemma_counters_layout(h as u64, h as u64, a0 as u64, a1 as u64, a2 as u64, a3 as u64);
}

/// Adding two words as two independent 32-bit lanes, each wrapping.
pub open spec fn lane_add(x: u64, y: u64) -> int {
    (x % 0x1_0000_0000 + y % 0x1_0000_0000) % 0x1_0000_0000 + ((x / 0x1_0000_0000 + y
        / 0x1_0000_0000) % 0x1_0000_0000) * 0x1_0000_0000
}

/// Adding two hands lane by lane: four independent 32-bit additions over the
/// low and high halves of the key and of the mask.
pub open spec fn lane_sum(a: Hand, b: Hand) -> Hand {
    Hand { key: lane_add(a.key, b.key) as u64, mask: lane_add(a.mask, b.mask) as u64 }
}

proof fn lemma_lane_add_key(x: u64, y: u64)
    requires
        x % 0x1_0000_0000 + y % 0x1_0000_0000 < 0x1_0000_0000,
    ensures
        lane_add(x, y) == (x + y) % 0x1_0000_0000_0000_0000,
{
    assert(x % 0x1_0000_0000 + y % 0x1_0000_0000 < 0x1_0000_0000 ==> (x % 0x1_0000_0000 + y
        % 0x1_0000_0000) % 0x1_0000_0000 + ((x / 0x1_0000_0000 + y / 0x1_0000_0000)
        % 0x1_0000_0000) * 0x1_0000_0000 == (x + y) % 0x1_0000_0000_0000_0000) by (bit_vector);
}

proof fn lemma_lane_add_disjoint(x: u64, y: u64)
    requires
        x & y == 0,
    ensures
        lane_add(x, y) == x | y,
{
    assert(x & y == 0 ==> (x % 0x1_0000_0000 + y % 0x1_0000_0000) % 0x1_0000_0000 + ((x
        / 0x1_0000_0000 + y / 0x1_0000_0000) % 0x1_0000_0000) * 0x1_0000_0000 == x | y)
        by (bit_vector);
}

/// Adding one more card to a legal hand never carries between the 32-bit
/// halves: the masks are disjoint and the rank keys stay below bit 32, so
/// adding lane by lane gives the same hand as the scalar sum.
pub proof fn law_lane_sum(cards: Seq<int>, c: int)
    requires
        valid_cards(cards.push(c)),
    ensures
        hand_of(cards).mask & card_hand(c).mask == 0,
        hand_of(cards).key % 0x1_0000_0000 + card_hand(c).key % 0x1_0000_0000 < 0x1_0000_0000,
        lane_sum(hand_of(cards), card_hand(c)) == hand_sum(hand_of(cards), card_hand(c)),
{
    let all = cards.push(c);
    assert(all.drop_last() =~= cards);
    assert(c == all[all.len() - 1]);
    assert(valid_cards(cards)) by {
        assert forall|i: int| 0 <= i < cards.len() implies 0 <= #[trigger] cards[i] < 52 by {
            assert(cards[i] == all[i]);
        }
        assert forall|i: int, j: int| 0 <= i < cards.len() && 0 <= j < cards.len() && i != j
            implies cards[i] != cards[j] by {
            assert(cards[i] == all[i] && cards[j] == all[j]);
        }
    }
    assert(!cards.contains(c)) by {
        if cards.contains(c) {
            let i = choose|i: int| 0 <= i < cards.len() && cards[i] == c;
            assert(all[i] == all[all.len() - 1]);
        }
    }
    // masks: the bit of `c` is clear in the hand, and the card has that bit only
    law_mask(cards);
    let q = card_bit(c);
    lemma_card_at_bit(c, q);
    assert(!bit_set(hand_of(cards).mask, q));
    lemma_bit_shift(hand_of(cards).mask, q);
    vstd::bits::lemma_u64_pow2_no_overflow(q as nat);
    vstd::bits::lemma_u64_shl_is_mul(1, q as u64);
    let x = hand_of(cards).mask;
    let qu = q as u64;
    assert(card_hand(c).mask == 1u64 << qu);
    assert(qu < 64 && (x >> qu) & 1 != 1 ==> x & (1u64 << qu) == 0) by (bit_vector);
    lemma_lane_add_disjoint(x, card_hand(c).mask);
    // keys: the rank keys of all the cards stay below bit 32
    law_rank_key(cards);
    law_rank_key(all);
    lemma_card_key(c);
    lemma2_to64();
    lemma2_to64_rest();
    assert(rank_sum(all) == rank_sum(cards) + rank_key(card_rank(c)));
    assert(card_hand(c).key % 0x1_0000_0000 == rank_key(card_rank(c))) by {
        lemma_fundamental_div_mod_converse(
            card_key(c),
            0x1_0000_0000,
            0x1_0000 * suit_weight(card_suit(c)) + 1,
            rank_key(card_rank(c)),
        );
    }
    lemma_lane_add_key(hand_of(cards).key, card_hand(c).key);
}

/// Sum of the keys of `cards`.
pub open spec fn card_key_sum(cards: Seq<int>) -> int
    decreases cards.len(),
{
    if cards.len() == 0 {
        0
    } else {
        card_key_sum(cards.drop_last()) + card_key(cards.last())
    }
}

/// Join of the masks of `cards`.
pub open spec fn card_mask_join(cards: Seq<int>) -> u64
    decreases cards.len(),
{
    if cards.len() == 0 {
        0
    } else {
        card_mask_join(cards.drop_last()) | card_hand(cards.last()).mask
    }
}

proof fn lemma_fold(cards: Seq<int>)
    requires
        forall|i: int| 0 <= i < cards.len() ==> 0 <= #[trigger] cards[i] < 52,
    ensures
        hand_of(cards).mask == card_mask_join(cards),
        hand_of(cards).key == (default_hand().key + card_key_sum(cards)) % 0x1_0000_0000_0000_0000,
        0 <= card_key_sum(cards) <= cards.len() * (0x1000_0000_0000_0000 + 0x1_0000_0000 + 0x494493),
    decreases cards.len(),
{
    if cards.len() > 0 {
        let s = cards.drop_last();
        let c = cards.last();
        assert(c == cards[cards.len() - 1]);
        lemma_fold(s);
        lemma_card_key(c);
        let m: int = 0x1_0000_0000_0000_0000;
        lemma_add_mod_noop(default_hand().key + card_key_sum(s), card_key(c), m);
        assert(card_key(c) % m == card_key(c));
        assert(suit_weight(card_suit(c)) <= 4096);
        let k: int = 0x1000_0000_0000_0000int + 0x1_0000_0000int + 0x494493int;
        assert(card_key(c) <= k);
        assert(cards.len() * k == s.len() * k + k) by (nonlinear_arith)
            requires
                cards.len() == s.len() + 1,
        ;
    }
}

/// Adding cards one by one to the empty hand: the mask is the join of the card
/// masks, and the key is the empty hand's key plus the card keys, modulo 2^64;
/// for up to seven cards that sum stays below 2^64, so nothing wraps.
pub proof fn law_fold(cards: Seq<int>)
    requires
        forall|i: int| 0 <= i < cards.len() ==> 0 <= #[trigger] cards[i] < 52,
    ensures
        hand_of(cards).mask == card_mask_join(cards),
        hand_of(cards).key == (default_hand().key + card_key_sum(cards)) % 0x1_0000_0000_0000_0000,
        cards.len() <= 7 ==> default_hand().key + card_key_sum(cards) < 0x1_0000_0000_0000_0000,
        cards.len() <= 7 ==> hand_of(cards).key == default_hand().key + card_key_sum(cards),
{
    lemma_fold(cards);
    if cards.len() <= 7 {
        assert(cards.len() * (0x1000_0000_0000_0000 + 0x1_0000_0000 + 0x494493) <= 7 * (
        0x1000_0000_0000_0000 + 0x1_0000_0000 + 0x494493)) by (nonlinear_arith)
            requires
                cards.len() <= 7,
        ;
        vstd::arithmetic::div_mod::lemma_small_mod(
            (default_hand().key + card_key_sum(cards)) as nat,
            0x1_0000_0000_0000_0000,
        );
    }
}

proof fn lemma_board_insert(m: u64, c: int, n: int)
    requires
        0 <= c < 52,
        0 <= n <= 52,
        !bit_set(m, c),
    ensures
        hand_of(mask_cards(m | (1u64 << (c as u64)), n)) == if c < n {
            hand_sum(hand_of(mask_cards(m, n)), card_hand(c))
        } else {
            hand_of(mask_cards(m, n))
        },
    decreases n,
{
    if n > 0 {
        lemma_board_insert(m, c, n - 1);
        let m2 = m | (1u64 << (c as u64));
        let i = n - 1;
        lemma_bit_insert(m, c, i);
        let a = mask_cards(m, i);
        let a2 = mask_cards(m2, i);
        assert(a.push(i).drop_last() =~= a);
        assert(a2.push(i).drop_last() =~= a2);
        if i != c && bit_set(m, i) && c < i {
            law_add_associative(hand_of(a), card_hand(c), card_hand(i));
            law_add_commutative(card_hand(c), card_hand(i));
            law_add_associative(hand_of(a), card_hand(i), card_hand(c));
        }
    }
}

/// Setting the clear bit of card `c` in a board mask adds that card to the
/// board's hand.
pub proof fn law_board_insert(m: u64, c: int)
    requires
        0 <= c < 52,
        !bit_set(m, c),
    ensures
        hand_of(mask_cards(m | (1u64 << (c as u64)), 52)) == hand_sum(
            hand_of(mask_cards(m, 52)),
            card_hand(c),
        ),
{
    lemma_board_insert(m, c, 52);
}

proof fn lemma_empty_board(n: int)
    requires
        0 <= n,
    ensures
        mask_cards(0, n) =~= Seq::<int>::empty(),
    decreases n,
{
    if n > 0 {
        lemma_empty_board(n - 1);
        lemma_bit_zero(n - 1);
    }
}

/// A board mask with the bits of two distinct cards builds the hand of those
/// two cards plus the empty hand (its suit counter offset).
pub proof fn law_two_card_board(c1: int, c2: int)
    requires
        0 <= c1 < 52,
        0 <= c2 < 52,
        c1 != c2,
    ensures
        hand_of(mask_cards((1u64 << (c1 as u64)) | (1u64 << (c2 as u64)), 52)) == hand_sum(
            hand_sum(card_hand(c1), card_hand(c2)),
            default_hand(),
        ),
{
    lemma_empty_board(52);
    assert(hand_of(mask_cards(0, 52)) == default_hand());
    lemma_bit_zero(c1);
    law_board_insert(0, c1);
    let x1 = 1u64 << (c1 as u64);
    assert(0u64 | x1 == x1) by (bit_vector);
    lemma_bit_insert(0, c1, c2);
    lemma_bit_zero(c2);
    law_board_insert(x1, c2);
    let (d, h1, h2) = (default_hand(), card_hand(c1), card_hand(c2));
    // (d + h1) + h2 == (h1 + h2) + d
    law_add_commutative(d, h1);
    law_add_associative(h1, d, h2);
    law_add_commutative(d, h2);
    law_add_associative(h1, h2, d);
}

/// The hand of a single card `c`: a one in the counter of suit `c % 4`, a one in
/// the card counter, the key `RANKS[c / 4]` of its rank in the low 32 bits, and
/// the single mask bit `(3 - c % 4) * 16 + c / 4`.
pub proof fn law_card_layout(c: int)
    requires
        0 <= c < 52,
    ensures
        card_hand(c).key == (1u64 << ((48 + 4 * (c % 4)) as u64)) + (1u64 << 32u64) + RANKS@[c / 4],
        card_hand(c).key % 0x1_0000_0000 == RANKS@[c / 4],
        card_hand(c).mask == 1u64 << (((3 - c % 4) * 16 + c / 4) as u64),
{
    lemma_card_key(c);
    lemma2_to64();
    lemma2_to64_rest();
    let sh = (48 + 4 * (c % 4)) as u64;
    vstd::bits::lemma_u64_pow2_no_overflow(sh as nat);
    vstd::bits::lemma_u64_shl_is_mul(1, sh);
    vstd::bits::lemma_u64_shl_is_mul(1, 32);
    let mb = ((3 - c % 4) * 16 + c / 4) as u64;
    vstd::bits::lemma_u64_pow2_no_overflow(mb as nat);
    vstd::bits::lemma_u64_shl_is_mul(1, mb);
    lemma_fundamental_div_mod_converse(
        card_key(c),
        0x1_0000_0000,
        0x1_0000 * suit_weight(card_suit(c)) + 1,
        rank_key(card_rank(c)),
    );
}

/// Adding hands is commutative.
pub proof fn law_add_commutative(a: Hand, b: Hand)
    ensures
        hand_sum(a, b) == hand_sum(b, a),
{
    let (x, y) = (a.mask, b.mask);
    assert(x | y == y | x) by (bit_vector);
}

/// Adding hands is associative.
pub proof fn law_add_associative(a: Hand, b: Hand, c: Hand)
    ensures
        hand_sum(hand_sum(a, b), c) == hand_sum(a, hand_sum(b, c)),
{
    let m: int = 0x1_0000_0000_0000_0000;
    let (ka, kb, kc) = (a.key as int, b.key as int, c.key as int);
    vstd::arithmetic::div_mod::lemma_small_mod(ka as nat, m as nat);
    vstd::arithmetic::div_mod::lemma_small_mod(kc as nat, m as nat);
    lemma_add_mod_noop(ka + kb, kc, m);
    lemma_add_mod_noop(ka, kb + kc, m);
    assert((ka + kb) + kc == ka + (kb + kc));
    assert(hand_sum(hand_sum(a, b), c).key == (ka + kb + kc) % m);
    assert(hand_sum(a, hand_sum(b, c)).key == (ka + kb + kc) % m);
    let (x, y, z) = (a.mask, b.mask, c.mask);
    assert((x | y) | z == x | (y | z)) by (bit_vector);
}

} // verus!
