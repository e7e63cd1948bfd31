//! 64+64 bit representation of a poker hand for use in the evaluator.
//!
//! Layout of `key`:
//! - bits 0-31: key to the non-flush lookup table (sum of the rank keys),
//! - bits 32-35: card counter,
//! - bits 48-63: suit counters, four bits per suit, each starting at 3.
//!
//! `mask` holds one bit per card, each suit in a 16 bit group
//! (suit `s` in bits `16 * (3 - s) ..`, one bit per rank).
use vstd::prelude::*;
use vstd::arithmetic::power2::pow2;
use core::ops::AddAssign;
use crate::bits::{bit_set, lemma_bit_test};

verus! {

/// Number of cards in a deck.
pub const CARD_COUNT: u8 = 52;

/// Per-rank keys (deuce first), summed into the low 32 bits of a hand's key.
pub const RANKS: [u64; 13] = [
    0x2000,
    0x8001,
    0x11000,
    0x3a000,
    0x91000,
    0x176005,
    0x366000,
    0x41a013,
    0x47802e,
    0x479068,
    0x48c0e4,
    0x48f211,
    0x494493,
];

const CARD_COUNT_SHIFT: u8 = 32;

const SUITS_SHIFT: u8 = 48;

const FLUSH_CHECK_MASK64: u64 = 0x8888_0000_0000_0000;

const FLUSH_CHECK_MASK32: u32 = 0x8888_0000;

/// A hand: the key (rank key, card counter, suit counters) and the card mask.
#[derive(Debug, Copy, Clone, PartialEq, Eq, Structural)]
pub struct Hand {
    pub key: u64,
    pub mask: u64,
}

// ------------------------------------------------------------------------
// Model of the representation
// ------------------------------------------------------------------------

/// The key of rank `r` (0 = deuce, 12 = ace).
pub open spec fn rank_key(r: int) -> int {
    RANKS@[r] as int
}

/// Suit of card `c` (cards are numbered `4 * rank + suit`).
pub open spec fn card_suit(c: int) -> int {
    c % 4
}

/// Rank of card `c`.
pub open spec fn card_rank(c: int) -> int {
    c / 4
}

/// Position of card `c` in a hand's mask.
pub open spec fn card_bit(c: int) -> int {
    (3 - card_suit(c)) * 16 + card_rank(c)
}

/// The key that one card contributes: a one in its suit counter, a one in
/// the card counter, and the key of its rank.
pub open spec fn card_key(c: int) -> int {
    pow2((48 + 4 * card_suit(c)) as nat) + pow2(32) + rank_key(card_rank(c))
}

/// The hand that holds card `c` alone (suit counters starting at zero).
pub open spec fn card_hand(c: int) -> Hand {
    Hand { key: card_key(c) as u64, mask: pow2(card_bit(c) as nat) as u64 }
}

/// The empty hand: no card, every suit counter at 3.
pub open spec fn default_hand() -> Hand {
    Hand { key: 0x3333_0000_0000_0000, mask: 0 }
}

/// Sum of two hands: keys added modulo 2^64, masks joined.
pub open spec fn hand_sum(a: Hand, b: Hand) -> Hand {
    Hand { key: ((a.key + b.key) % 0x1_0000_0000_0000_0000) as u64, mask: a.mask | b.mask }
}

/// The card counter field (bits 32-35) of a key.
pub open spec fn card_counter(key: u64) -> nat {
    (key as nat / pow2(32)) % 16
}

/// The counter of suit `suit` (bits `48 + 4 * suit ..`) of a key.
pub open spec fn suit_counter(key: u64, suit: int) -> nat {
    (key as nat / pow2((48 + 4 * suit) as nat)) % 16
}

/// Whether the counter of suit `suit` has reached 8 (five or more cards of it).
pub open spec fn suit_flushed(key: u64, suit: int) -> bool {
    suit_counter(key, suit) >= 8
}

/// Whether some suit counter has reached 8.
pub open spec fn flush_in_key(key: u64) -> bool {
    suit_flushed(key, 0) || suit_flushed(key, 1) || suit_flushed(key, 2) || suit_flushed(key, 3)
}

/// The highest suit whose counter has reached 8.
pub open spec fn flush_suit(key: u64) -> int {
    if suit_flushed(key, 3) {
        3
    } else if suit_flushed(key, 2) {
        2
    } else if suit_flushed(key, 1) {
        1
    } else {
        0
    }
}

/// The 16 bit group of `mask` that belongs to suit `suit`.
pub open spec fn suit_group(mask: u64, suit: int) -> nat {
    (mask as nat / pow2((16 * (3 - suit)) as nat)) % 0x10000
}

/// The hand `base` with the cards of `cards` added, in order.
pub open spec fn add_cards(base: Hand, cards: Seq<int>) -> Hand
    decreases cards.len(),
{
    if cards.len() == 0 {
        base
    } else {
        hand_sum(add_cards(base, cards.drop_last()), card_hand(cards.last()))
    }
}

/// The hand made of the cards of `cards`, starting from the empty hand.
pub open spec fn hand_of(cards: Seq<int>) -> Hand {
    add_cards(default_hand(), cards)
}

/// The cards `0 .. n` whose bit is set in `mask`, in increasing order.
pub open spec fn mask_cards(mask: u64, n: int) -> Seq<int>
    decreases n,
{
    if n <= 0 {
        Seq::empty()
    } else if bit_set(mask, n - 1) {
        mask_cards(mask, n - 1).push(n - 1)
    } else {
        mask_cards(mask, n - 1)
    }
}

/// A legal set of cards: distinct cards of the deck.
pub open spec fn valid_cards(cards: Seq<int>) -> bool {
    &&& cards.no_duplicates()
    &&& forall|i: int| 0 <= i < cards.len() ==> 0 <= #[trigger] cards[i] < 52
}

/// Number of cards of suit `suit` in `cards`.
pub open spec fn suit_tally(cards: Seq<int>, suit: int) -> nat
    decreases cards.len(),
{
    if cards.len() == 0 {
        0
    } else {
        suit_tally(cards.drop_last(), suit) + if card_suit(cards.last()) == suit {
            1nat
        } else {
            0nat
        }
    }
}

/// Sum of the rank keys of `cards`.
pub open spec fn rank_sum(cards: Seq<int>) -> int
    decreases cards.len(),
{
    if cards.len() == 0 {
        0
    } else {
        rank_sum(cards.drop_last()) + rank_key(card_rank(cards.last()))
    }
}

/// The card whose position in a hand's mask is `q` (for `q % 16 < 13`).
pub open spec fn card_at_bit(q: int) -> int {
    4 * (q % 16) + (3 - q / 16)
}

// ------------------------------------------------------------------------
// Bit-level facts
// ------------------------------------------------------------------------

/// Bit-level facts shared by the functions below.
proof fn lemma_key_fields(k: u64)
    ensures
        k >> 32u64 == k as nat / pow2(32),
        (k >> 32u64) & 0xf == card_counter(k),
        k as u32 == k as nat % 0x1_0000_0000,
        (k >> 32u64) as u32 == k as nat / pow2(32),
        (k & 0x8888_0000_0000_0000 != 0) == (((k >> 32u64) as u32) & 0x8888_0000u32 != 0),
{
    vstd::arithmetic::power2::lemma2_to64();
    assert(k >> 32u64 == k / 0x1_0000_0000) by (bit_vector);
    assert((k >> 32u64) & 0xf == (k / 0x1_0000_0000) % 16) by (bit_vector);
    assert(k as u32 == k % 0x1_0000_0000) by (bit_vector);
    assert((k >> 32u64) as u32 == k / 0x1_0000_0000) by (bit_vector);
    assert((k & 0x8888_0000_0000_0000 != 0) == (((k >> 32u64) as u32) & 0x8888_0000u32 != 0))
        by (bit_vector);
}

/// The flush check mask tests the top bit of each suit counter.
proof fn lemma_flush_bits(k: u64)
    ensures
        (k & 0x8888_0000_0000_0000 != 0) == flush_in_key(k),
{
    vstd::arithmetic::power2::lemma2_to64();
    vstd::arithmetic::power2::lemma2_to64_rest();
    assert((k & 0x8888_0000_0000_0000 != 0) == (
        (k / 0x1_0000_0000_0000) % 16 >= 8
        || (k / 0x10_0000_0000_0000) % 16 >= 8
        || (k / 0x100_0000_0000_0000) % 16 >= 8
        || (k / 0x1000_0000_0000_0000) % 16 >= 8)) by (bit_vector);
}

/// The counter of suit `s`, read from the upper half of the key.
proof fn lemma_suit_field(k: u64, s: u64)
    requires
        s < 4,
    ensures
        (((k >> 32u64) as u32) >> ((4 * s + 16) as u32)) & 0xf == suit_counter(k, s as int),
{
    assert((((k >> 32u64) as u32) >> ((4 * s + 16) as u32)) & 0xf == (k >> (48 + 4 * s)) & 0xf)
        by (bit_vector)
        requires s < 4;
    vstd::bits::lemma_u64_shr_is_div(k, (48 + 4 * s) as u64);
    let y = k >> (48 + 4 * s);
    assert(y & 0xf == y % 16) by (bit_vector);
}

/// Where the leading zeros of the flush check bits point.
proof fn lemma_flush_shift(k: u64, f: u32, l: u32)
    requires
        f == ((k >> 32u64) as u32) & 0x8888_0000u32,
        f != 0,
        0 <= l < 32 ==> (f >> ((31 - l) as u32)) & 1u32 != 0u32,
        f >> ((32 - l) as u32) == 0,
        l <= 32,
    ensures
        flush_in_key(k) ==> (l == 12 - 4 * flush_suit(k)),
{
    lemma_flush_bits(k);
    vstd::arithmetic::power2::lemma2_to64();
    vstd::arithmetic::power2::lemma2_to64_rest();
    assert(
        ((k / 0x1000_0000_0000_0000) % 16 >= 8 ==> l == 0)
        && (!((k / 0x1000_0000_0000_0000) % 16 >= 8) && (k / 0x100_0000_0000_0000) % 16 >= 8 ==> l == 4)
        && (!((k / 0x1000_0000_0000_0000) % 16 >= 8) && !((k / 0x100_0000_0000_0000) % 16 >= 8)
            && (k / 0x10_0000_0000_0000) % 16 >= 8 ==> l == 8)
        && (!((k / 0x1000_0000_0000_0000) % 16 >= 8) && !((k / 0x100_0000_0000_0000) % 16 >= 8)
            && !((k / 0x10_0000_0000_0000) % 16 >= 8) ==> l == 12)
    ) by (bit_vector)
        requires
            f == ((k >> 32u64) as u32) & 0x8888_0000u32,
            f != 0,
            0 <= l < 32 ==> (f >> ((31 - l) as u32)) & 1u32 != 0u32,
            f >> ((32 - l) as u32) == 0,
            l <= 32;
}

/// Shifting the mask by `4 * lz` bits selects the group of suit `3 - lz / 4`.
proof fn lemma_suit_group(m: u64, l: u32, shift: u32, s: int)
    requires
        l == 12 - 4 * s,
        0 <= s < 4,
        shift == l << 2,
    ensures
        shift < 64,
        (m >> shift) as u16 == suit_group(m, s),
{
    assert(l <= 12 ==> (l << 2) == 4 * l) by (bit_vector);
    assert(shift == 16 * (3 - s));
    vstd::bits::lemma_u64_shr_is_div(m, shift as u64);
    let y = m >> shift;
    assert(y as u16 == y % 0x10000) by (bit_vector);
}

// ------------------------------------------------------------------------
// Executable functions
// ------------------------------------------------------------------------

impl Hand {
    /// Create hand from hole cards (no suit counter offset: the two cards alone).
    pub fn from_hole_cards(c1: u8, c2: u8) -> (h: Hand)
        requires
            c1 < 52,
            c2 < 52,
        ensures
            h == hand_sum(card_hand(c1 as int), card_hand(c2 as int)),
    {
        card(c1) + card(c2)
    }

    /// Return first 64 bits
    pub fn get_key(self) -> (r: u64)
        ensures
            r == self.key,
    {
        self.key
    }

    /// Return last 64 bits
    pub fn get_mask(self) -> (r: u64)
        ensures
            r == self.mask,
    {
        self.mask
    }

    /// get rank key of card for lookup table (bits 0-31 of the key)
    pub fn get_rank_key(self) -> (r: usize)
        ensures
            r == self.key % 0x1_0000_0000,
    {
        proof {
            lemma_key_fields(self.key);
        }
        let key = self.key as u32;
        key as usize
    }

    /// Return counter bits (bits 32-63 of the key)
    pub fn get_counters(self) -> (r: u32)
        ensures
            r == self.key as nat / pow2(32),
    {
        proof {
            lemma_key_fields(self.key);
            let k = self.key;
            assert(k >> 32u64 <= 0xffff_ffff) by (bit_vector);
        }
        (self.key >> 32) as u32
    }

    /// Return number of cards in hand
    pub fn count(self) -> (r: u32)
        ensures
            r == card_counter(self.key),
    {
        let c = self.get_counters();
        proof {
            lemma_key_fields(self.key);
            let k = self.key;
            assert(((k >> 32u64) as u32) >> 0u32 & 0xf == (k >> 32u64) & 0xf) by (bit_vector);
        }
        (c >> (CARD_COUNT_SHIFT - 32)) & 0xf
    }

    /// construct a Hand object from board mask (bit `c` set: card `c` in the hand)
    pub fn from_bit_mask(mask: u64) -> (h: Hand)
        ensures
            h == hand_of(mask_cards(mask, 52)),
    {
        let mut board = Hand::default();
        for c in 0..CARD_COUNT
            invariant
                board == hand_of(mask_cards(mask, c as int)),
        {
            proof {
                lemma_bit_test(mask, c as u64);
            }
            if (mask & (1u64 << c)) != 0 {
                board.add_assign(card(c));
            }
            proof {
                let prev = mask_cards(mask, c as int);
                assert(prev.push(c as int).drop_last() =~= prev);
            }
        }
        board
    }

    /// Get flush key of card for lookup table
    ///
    /// Returns 0 if there is no flush
    pub fn get_flush_key(self) -> (r: usize)
        ensures
            r == (if flush_in_key(self.key) {
                suit_group(self.mask, flush_suit(self.key))
            } else {
                0
            }),
    {
        if self.has_flush() {
            let flush_check_bits = self.get_counters() & FLUSH_CHECK_MASK32;
            proof {
                lemma_key_fields(self.key);
                lemma_flush_bits(self.key);
            }
            let lz = flush_check_bits.leading_zeros();
            proof {
                vstd::std_specs::bits::axiom_u32_leading_zeros(flush_check_bits);
                lemma_flush_shift(self.key, flush_check_bits, lz);
            }
            let shift = lz << 2;
            proof {
                lemma_suit_group(self.mask, lz, shift, flush_suit(self.key));
            }
            let key = (self.mask >> shift) as u16;
            key as usize
        } else {
            0
        }
    }

    /// Whether some suit has five or more cards
    pub fn has_flush(self) -> (r: bool)
        ensures
            r == flush_in_key(self.key),
    {
        proof {
            lemma_flush_bits(self.key);
        }
        (self.get_key() & FLUSH_CHECK_MASK64) != 0
    }

    /// Get the number of cards for a suit
    pub fn suit_count(self, suit: u8) -> (r: i32)
        requires
            suit < 4,
        ensures
            r == suit_counter(self.key, suit as int) - 3,
    {
        let shift = 4 * suit + (SUITS_SHIFT - 32);
        proof {
            lemma_key_fields(self.key);
            lemma_suit_field(self.key, suit as u64);
        }
        (((self.get_counters() >> shift) & 0xf) as i32) - 3
    }
}

impl Default for Hand {
    /// The empty hand: suit counters initialised to 3, as the evaluator needs.
    fn default() -> (h: Self)
        ensures
            h == default_hand(),
    {
        assert(0x3333u64 << 48u8 == 0x3333_0000_0000_0000) by (bit_vector);
        Hand { key: 0x3333u64 << SUITS_SHIFT, mask: 0 }
    }
}

/// The hand that holds card `c` alone.
pub fn card(c: u8) -> (h: Hand)
    requires
        c < 52,
    ensures
        h == card_hand(c as int),
{
    let rank = c / 4;
    let suit = c % 4;
    let x: u64 = 1u64 << (4 * suit + SUITS_SHIFT);
    let y: u64 = 1u64 << CARD_COUNT_SHIFT;
    let z: u64 = RANKS[rank as usize];
    let mask: u64 = 1u64 << ((3 - suit) * 16 + rank);
    proof {
        vstd::arithmetic::power2::lemma2_to64();
        vstd::arithmetic::power2::lemma2_to64_rest();
        vstd::bits::lemma_u64_pow2_no_overflow((4 * suit + SUITS_SHIFT) as nat);
        vstd::bits::lemma_u64_pow2_no_overflow(((3 - suit) * 16 + rank) as nat);
        vstd::bits::lemma_u64_shl_is_mul(1, (4 * suit + SUITS_SHIFT) as u64);
        vstd::bits::lemma_u64_shl_is_mul(1, CARD_COUNT_SHIFT as u64);
        vstd::bits::lemma_u64_shl_is_mul(1, ((3 - suit) * 16 + rank) as u64);
    }
    Hand { key: x + y + z, mask }
}

/// The table of all 52 single-card hands, indexed by card.
pub fn init_card_constants() -> (hands: [Hand; 52])
    ensures
        forall|c: int| 0 <= c < 52 ==> #[trigger] hands@[c] == card_hand(c),
{
    let mut hands: [Hand; 52] = [Hand::default(); 52];
    for c in 0..CARD_COUNT
        invariant
            forall|i: int| 0 <= i < c ==> #[trigger] hands@[i] == card_hand(i),
    {
        hands[c as usize] = card(c);
    }
    hands
}

/// Scalar reference sum: 64-bit key add (wrapping), bitwise-OR mask.
pub fn scalar_add(a: Hand, b: Hand) -> (h: Hand)
    ensures
        h == hand_sum(a, b),
{
    Hand { key: a.key.wrapping_add(b.key), mask: a.mask | b.mask }
}

impl core::ops::Add for Hand {
    type Output = Self;

    fn add(self, other: Self) -> (h: Self::Output) {
        scalar_add(self, other)
    }
}

impl core::ops::AddAssign for Hand {
    fn add_assign(&mut self, rhs: Hand)
        ensures
            *final(self) == hand_sum(*old(self), rhs),
    {
        *self = *self + rhs;
    }
}

impl vstd::std_specs::ops::AddSpecImpl for Hand {
    open spec fn obeys_add_spec() -> bool {
        true
    }

    open spec fn add_req(self, rhs: Hand) -> bool {
        true
    }

    open spec fn add_spec(self, rhs: Hand) -> Hand {
        hand_sum(self, rhs)
    }
}

} // verus!
