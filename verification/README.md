# rust_poker

A poker library, verified with Verus: the hand representation used by a fast
hand evaluator, and an exact showdown tally for equity computation.

- `src/hand.rs`: `Hand`, a 64-bit key (rank key, card counter, suit counters)
  and a 64-bit card mask; single cards, hole cards, hands from a board bit
  mask, and the field readers (`count`, `suit_count`, `has_flush`,
  `get_flush_key`, ...). Each function's contract states the bit fields it reads.
- `src/hand_laws.rs`: what those fields mean for a hand built from distinct
  cards: card count, cards per suit, flush, rank key, card mask, the rank bits
  of a suit; the fold of card keys and masks; setting a board bit adds that card;
  a two-card board is the hole cards plus the empty hand; hand addition is
  commutative and associative, and adding a new card never carries between
  32-bit halves.
- `src/showdown.rs`: the showdown tally; its contract gives every player's
  units and the total playable weight; laws state that the units handed out are
  exactly `D` times that weight and that players are treated alike.
- `src/read_write.rs`, `src/bits.rs`: byte-count checks and bit lemmas.
- `app/`: file and asset I/O (raw byte vectors), and the shared card table.
