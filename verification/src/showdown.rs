//! Exact showdown tally for an all-in equity cache.
//!
//! Equity is accumulated in integer units of `D = lcm(1..=9) = 2520` so split pots
//! divide exactly: a board of weight `w` with `k` tied winners gives each
//! winner `w * 2520 / k` units, and `2520` is divisible by every `k` in `1..=9`.
use vstd::prelude::*;
use crate::bits::{bit_set, lemma_bit_shift};

verus! {

/// Common denominator: lcm(1..=9). Divisible by every tie count k in 1..=9.
pub const D: u64 = 2520;

// ------------------------------------------------------------------------
// Model
// ------------------------------------------------------------------------

/// Board `b` is playable: bit `b % 64` of word `b / 64` of the bitset is set.
pub open spec fn board_valid(valid: Seq<u64>, b: int) -> bool {
    bit_set(valid[b / 64], b % 64)
}

/// Score of player `p` on board `b`.
pub open spec fn score(scores: Seq<&[u16]>, p: int, b: int) -> int {
    scores[p]@[b] as int
}

/// Highest score on board `b` among players `0 .. n` (0 when there is none).
pub open spec fn best_score(scores: Seq<&[u16]>, b: int, n: int) -> int
    decreases n,
{
    if n <= 0 {
        0
    } else {
        let rest = best_score(scores, b, n - 1);
        if score(scores, n - 1, b) > rest {
            score(scores, n - 1, b)
        } else {
            rest
        }
    }
}

/// Player `p` has the best score on board `b`.
pub open spec fn is_winner(scores: Seq<&[u16]>, b: int, p: int) -> bool {
    score(scores, p, b) == best_score(scores, b, scores.len() as int)
}

/// Number of players among `0 .. n` with the best score on board `b`.
pub open spec fn winners_below(scores: Seq<&[u16]>, b: int, n: int) -> int
    decreases n,
{
    if n <= 0 {
        0
    } else {
        winners_below(scores, b, n - 1) + if is_winner(scores, b, n - 1) {
            1int
        } else {
            0
        }
    }
}

/// Number of tied winners on board `b`.
pub open spec fn winners(scores: Seq<&[u16]>, b: int) -> int {
    winners_below(scores, b, scores.len() as int)
}

/// Units each winner of board `b` receives for a board of weight `w`.
pub open spec fn board_share(scores: Seq<&[u16]>, b: int, w: int) -> int {
    w * (D as int) / winners(scores, b)
}

/// Units that player `p` wins over the playable boards among `0 .. nb`.
pub open spec fn player_units(
    scores: Seq<&[u16]>,
    weights: Seq<u32>,
    valid: Seq<u64>,
    p: int,
    nb: int,
) -> int
    decreases nb,
{
    if nb <= 0 {
        0
    } else {
        player_units(scores, weights, valid, p, nb - 1) + if board_valid(valid, nb - 1)
            && is_winner(scores, nb - 1, p) {
            board_share(scores, nb - 1, weights[nb - 1] as int)
        } else {
            0
        }
    }
}

/// Total weight of the playable boards among `0 .. nb`.
pub open spec fn valid_weight(weights: Seq<u32>, valid: Seq<u64>, nb: int) -> int
    decreases nb,
{
    if nb <= 0 {
        0
    } else {
        valid_weight(weights, valid, nb - 1) + if board_valid(valid, nb - 1) {
            weights[nb - 1] as int
        } else {
            0
        }
    }
}

/// Every player has a score for every playable board among `0 .. nb`.
pub open spec fn scores_cover(scores: Seq<&[u16]>, valid: Seq<u64>, nb: int) -> bool {
    forall|b: int, p: int|
        #![trigger board_valid(valid, b), scores[p]]
        0 <= b < nb && board_valid(valid, b) && 0 <= p < scores.len() ==> b < scores[p]@.len()
}

/// Some board among `0 .. nb` is playable.
pub open spec fn some_valid(valid: Seq<u64>, nb: int) -> bool {
    exists|b: int| 0 <= b < nb && #[trigger] board_valid(valid, b)
}

/// Units won by players `0 .. n` over the playable boards among `0 .. nb`.
pub open spec fn units_total(
    scores: Seq<&[u16]>,
    weights: Seq<u32>,
    valid: Seq<u64>,
    nb: int,
    n: int,
) -> int
    decreases n,
{
    if n <= 0 {
        0
    } else {
        units_total(scores, weights, valid, nb, n - 1) + player_units(scores, weights, valid, n - 1, nb)
    }
}

// ------------------------------------------------------------------------
// Lemmas
// ------------------------------------------------------------------------

/// The best score is reached by some player, so a board has at least one winner.
proof fn lemma_best_attained(scores: Seq<&[u16]>, b: int, n: int)
    requires
        1 <= n,
    ensures
        exists|p: int| 0 <= p < n && #[trigger] score(scores, p, b) == best_score(scores, b, n),
        forall|p: int| 0 <= p < n ==> #[trigger] score(scores, p, b) <= best_score(scores, b, n),
    decreases n,
{
    if n == 1 {
        assert(best_score(scores, b, 0) == 0);
        assert(score(scores, 0, b) == best_score(scores, b, 1));
    } else {
        lemma_best_attained(scores, b, n - 1);
        if score(scores, n - 1, b) <= best_score(scores, b, n - 1) {
            let p = choose|p: int|
                0 <= p < n - 1 && #[trigger] score(scores, p, b) == best_score(scores, b, n - 1);
            assert(score(scores, p, b) == best_score(scores, b, n));
        }
    }
}

proof fn lemma_winners_below_bounds(scores: Seq<&[u16]>, b: int, n: int)
    requires
        0 <= n,
    ensures
        0 <= winners_below(scores, b, n) <= n,
        (exists|p: int| 0 <= p < n && #[trigger] is_winner(scores, b, p)) ==> winners_below(
            scores,
            b,
            n,
        ) >= 1,
    decreases n,
{
    if n > 0 {
        lemma_winners_below_bounds(scores, b, n - 1);
        if exists|p: int| 0 <= p < n && #[trigger] is_winner(scores, b, p) {
            let p = choose|p: int| 0 <= p < n && #[trigger] is_winner(scores, b, p);
            if p < n - 1 {
                assert(exists|q: int| 0 <= q < n - 1 && #[trigger] is_winner(scores, b, q));
            }
        }
    }
}

/// A board with at least one player has between 1 and n winners.
proof fn lemma_winners_bounds(scores: Seq<&[u16]>, b: int)
    requires
        scores.len() >= 1,
    ensures
        1 <= winners(scores, b) <= scores.len(),
{
    lemma_best_attained(scores, b, scores.len() as int);
    let p = choose|p: int|
        0 <= p < scores.len() && #[trigger] score(scores, p, b) == best_score(
            scores,
            b,
            scores.len() as int,
        );
    assert(is_winner(scores, b, p));
    lemma_winners_below_bounds(scores, b, scores.len() as int);
}

proof fn lemma_player_units_mono(
    scores: Seq<&[u16]>,
    weights: Seq<u32>,
    valid: Seq<u64>,
    p: int,
    i: int,
    j: int,
)
    requires
        0 <= i <= j,
        scores.len() >= 1,
    ensures
        0 <= player_units(scores, weights, valid, p, i) <= player_units(scores, weights, valid, p, j),
    decreases j,
{
    if j > 0 {
        lemma_player_units_mono(scores, weights, valid, p, if i < j { i } else { j - 1 }, j - 1);
        lemma_winners_bounds(scores, j - 1);
        let w = weights[j - 1] as int;
        let k = winners(scores, j - 1);
        assert(w * (D as int) >= 0) by (nonlinear_arith)
            requires
                w >= 0,
        ;
        vstd::arithmetic::div_mod::lemma_div_pos_is_pos(w * (D as int), k);
    }
}

proof fn lemma_valid_weight_mono(weights: Seq<u32>, valid: Seq<u64>, i: int, j: int)
    requires
        0 <= i <= j,
    ensures
        0 <= valid_weight(weights, valid, i) <= valid_weight(weights, valid, j),
    decreases j,
{
    if j > 0 {
        lemma_valid_weight_mono(weights, valid, if i < j { i } else { j - 1 }, j - 1);
    }
}

/// Adding board `nb - 1` adds its share once per winner among players `0 .. n`.
proof fn lemma_units_total_step(
    scores: Seq<&[u16]>,
    weights: Seq<u32>,
    valid: Seq<u64>,
    nb: int,
    n: int,
)
    requires
        nb >= 1,
    ensures
        units_total(scores, weights, valid, nb, n) == units_total(scores, weights, valid, nb - 1, n)
            + if board_valid(valid, nb - 1) {
            board_share(scores, nb - 1, weights[nb - 1] as int) * winners_below(scores, nb - 1, n)
        } else {
            0
        },
    decreases n,
{
    if n > 0 {
        lemma_units_total_step(scores, weights, valid, nb, n - 1);
        let sh = board_share(scores, nb - 1, weights[nb - 1] as int);
        let wb = winners_below(scores, nb - 1, n - 1);
        assert(sh * (wb + 1) == sh * wb + sh) by (nonlinear_arith);
    }
}

/// A share times the number of winners gives back the whole board, when the
/// number of winners divides `D`.
proof fn lemma_exact_split(w: int, k: int)
    requires
        w >= 0,
        k >= 1,
        (D as int) % k == 0,
    ensures
        (w * (D as int) / k) * k == w * (D as int),
{
    let m = (D as int) / k;
    vstd::arithmetic::div_mod::lemma_fundamental_div_mod(D as int, k);
    assert(D as int == k * m);
    assert(w * (D as int) == k * (w * m)) by (nonlinear_arith)
        requires
            D as int == k * m,
    ;
    vstd::arithmetic::div_mod::lemma_div_multiples_vanish(w * m, k);
    assert((w * m) * k == w * (D as int)) by (nonlinear_arith)
        requires
            D as int == k * m,
    ;
}

proof fn lemma_units_sum(scores: Seq<&[u16]>, weights: Seq<u32>, valid: Seq<u64>, nb: int)
    requires
        0 <= nb,
        scores.len() >= 1,
        forall|b: int|
            0 <= b < nb && #[trigger] board_valid(valid, b) && weights[b] > 0 ==> (D as int)
                % winners(scores, b) == 0,
    ensures
        units_total(scores, weights, valid, nb, scores.len() as int) == (D as int) * valid_weight(
            weights,
            valid,
            nb,
        ),
    decreases nb,
{
    let n = scores.len() as int;
    if nb == 0 {
        assert forall|p: int| 0 <= p <= n implies units_total(scores, weights, valid, 0, p) == 0 by {
            lemma_units_total_zero(scores, weights, valid, p);
        }
    } else {
        lemma_units_sum(scores, weights, valid, nb - 1);
        lemma_units_total_step(scores, weights, valid, nb, n);
        let b = nb - 1;
        let w = weights[b] as int;
        if board_valid(valid, b) {
            lemma_winners_bounds(scores, b);
            if w > 0 {
                lemma_exact_split(w, winners(scores, b));
            } else {
                assert(w == 0 && board_share(scores, b, w) == 0);
                assert(board_share(scores, b, w) * winners(scores, b) == w * (D as int));
            }
        }
    }
}

proof fn lemma_units_total_zero(scores: Seq<&[u16]>, weights: Seq<u32>, valid: Seq<u64>, p: int)
    ensures
        units_total(scores, weights, valid, 0, p) == 0,
    decreases p,
{
    if p > 0 {
        lemma_units_total_zero(scores, weights, valid, p - 1);
    }
}

// ------------------------------------------------------------------------
// Laws
// ------------------------------------------------------------------------

/// Exact accounting: the units handed out over all playable boards sum to `D`
/// times their total weight, whenever every playable board of positive weight
/// has a number of tied winners that divides `D`.
pub proof fn law_units_sum(scores: Seq<&[u16]>, weights: Seq<u32>, valid: Seq<u64>)
    requires
        scores.len() >= 1 || !some_valid(valid, weights.len() as int),
        forall|b: int|
            0 <= b < weights.len() && #[trigger] board_valid(valid, b) && weights[b] > 0 ==> (
            D as int) % winners(scores, b) == 0,
    ensures
        units_total(scores, weights, valid, weights.len() as int, scores.len() as int) == (D as int)
            * valid_weight(weights, valid, weights.len() as int),
{
    if scores.len() >= 1 {
        lemma_units_sum(scores, weights, valid, weights.len() as int);
    } else {
        lemma_no_valid_weight(weights, valid, weights.len() as int);
    }
}

proof fn lemma_no_valid_weight(weights: Seq<u32>, valid: Seq<u64>, nb: int)
    requires
        0 <= nb,
        !some_valid(valid, nb),
    ensures
        valid_weight(weights, valid, nb) == 0,
    decreases nb,
{
    if nb > 0 {
        assert(!board_valid(valid, nb - 1));
        assert(!some_valid(valid, nb - 1)) by {
            if some_valid(valid, nb - 1) {
                let b = choose|b: int| 0 <= b < nb - 1 && #[trigger] board_valid(valid, b);
                assert(0 <= b < nb && board_valid(valid, b));
            }
        }
        lemma_no_valid_weight(weights, valid, nb - 1);
    }
}

/// With one to nine players every tie count divides `D = lcm(1..=9)`, so the
/// units handed out always sum to `D` times the total playable weight.
pub proof fn law_units_sum_up_to_nine(scores: Seq<&[u16]>, weights: Seq<u32>, valid: Seq<u64>)
    requires
        1 <= scores.len() <= 9,
    ensures
        units_total(scores, weights, valid, weights.len() as int, scores.len() as int) == (D as int)
            * valid_weight(weights, valid, weights.len() as int),
{
    assert forall|b: int|
        0 <= b < weights.len() && #[trigger] board_valid(valid, b) && weights[b] > 0 implies (
        D as int) % winners(scores, b) == 0 by {
        lemma_winners_bounds(scores, b);
        let k = winners(scores, b);
        assert(2520int % 1 == 0 && 2520int % 2 == 0 && 2520int % 3 == 0 && 2520int % 4 == 0
            && 2520int % 5 == 0 && 2520int % 6 == 0 && 2520int % 7 == 0 && 2520int % 8 == 0
            && 2520int % 9 == 0);
    }
    law_units_sum(scores, weights, valid);
}

/// `pi` is a permutation of `0 .. n`.
pub open spec fn is_permutation(pi: Seq<int>, n: int) -> bool {
    &&& pi.len() == n
    &&& forall|i: int| 0 <= i < n ==> 0 <= #[trigger] pi[i] < n
    &&& forall|i: int, j: int| 0 <= i < n && 0 <= j < n && i != j ==> #[trigger] pi[i] != #[trigger] pi[j]
    &&& forall|p: int| 0 <= p < n ==> #[trigger] pi.contains(p)
}

/// `scores2` holds the rows of `scores` in the order given by `pi`.
pub open spec fn rows_permuted(scores2: Seq<&[u16]>, scores: Seq<&[u16]>, pi: Seq<int>) -> bool {
    &&& scores2.len() == scores.len()
    &&& is_permutation(pi, scores.len() as int)
    &&& forall|i: int| 0 <= i < scores.len() ==> #[trigger] scores2[i] == scores[pi[i]]
}

proof fn lemma_best_permuted(scores2: Seq<&[u16]>, scores: Seq<&[u16]>, pi: Seq<int>, b: int)
    requires
        rows_permuted(scores2, scores, pi),
    ensures
        best_score(scores2, b, scores2.len() as int) == best_score(scores, b, scores.len() as int),
{
    let n = scores.len() as int;
    if n == 0 {
    } else {
        lemma_best_attained(scores, b, n);
        lemma_best_attained(scores2, b, n);
        let i2 = choose|i: int| 0 <= i < n && #[trigger] score(scores2, i, b) == best_score(scores2, b, n);
        assert(score(scores2, i2, b) == score(scores, pi[i2], b));
        let p1 = choose|p: int| 0 <= p < n && #[trigger] score(scores, p, b) == best_score(scores, b, n);
        assert(pi.contains(p1));
        let j = choose|i: int| 0 <= i < n && #[trigger] pi[i] == p1;
        assert(score(scores2, j, b) == score(scores, p1, b));
    }
}

/// The winners of board `b` among players `0 .. n`, as a set.
spec fn winner_set(scores: Seq<&[u16]>, b: int, n: int) -> Set<int> {
    Set::new(|p: int| 0 <= p < n && is_winner(scores, b, p))
}

proof fn lemma_winner_set(scores: Seq<&[u16]>, b: int, n: int)
    requires
        0 <= n,
    ensures
        winner_set(scores, b, n).finite(),
        winner_set(scores, b, n).len() == winners_below(scores, b, n),
    decreases n,
{
    if n == 0 {
        assert(winner_set(scores, b, 0) =~= Set::<int>::empty());
    } else {
        lemma_winner_set(scores, b, n - 1);
        if is_winner(scores, b, n - 1) {
            assert(winner_set(scores, b, n) =~= winner_set(scores, b, n - 1).insert(n - 1));
        } else {
            assert(winner_set(scores, b, n) =~= winner_set(scores, b, n - 1));
        }
    }
}

proof fn lemma_winners_permuted(scores2: Seq<&[u16]>, scores: Seq<&[u16]>, pi: Seq<int>, b: int)
    requires
        rows_permuted(scores2, scores, pi),
    ensures
        winners(scores2, b) == winners(scores, b),
        forall|i: int|
            0 <= i < scores.len() ==> (#[trigger] is_winner(scores2, b, i) <==> is_winner(
                scores,
                b,
                pi[i],
            )),
{
    let n = scores.len() as int;
    lemma_best_permuted(scores2, scores, pi, b);
    assert forall|i: int| 0 <= i < n implies (#[trigger] is_winner(scores2, b, i) <==> is_winner(
        scores,
        b,
        pi[i],
    )) by {
        assert(score(scores2, i, b) == score(scores, pi[i], b));
    }
    lemma_winner_set(scores2, b, n);
    lemma_winner_set(scores, b, n);
    let w2 = winner_set(scores2, b, n);
    let w1 = winner_set(scores, b, n);
    let f = |i: int| pi[i];
    assert(w2.map(f) =~= w1) by {
        assert forall|p: int| w1.contains(p) implies w2.map(f).contains(p) by {
            assert(pi.contains(p));
            let j = choose|i: int| 0 <= i < n && #[trigger] pi[i] == p;
            assert(w2.contains(j) && f(j) == p);
        }
    }
    assert(vstd::relations::injective_on(f, w2));
    vstd::set_lib::lemma_map_size(w2, w1, f);
}

proof fn lemma_units_permuted(
    scores2: Seq<&[u16]>,
    scores: Seq<&[u16]>,
    pi: Seq<int>,
    weights: Seq<u32>,
    valid: Seq<u64>,
    i: int,
    nb: int,
)
    requires
        rows_permuted(scores2, scores, pi),
        0 <= i < scores.len(),
    ensures
        player_units(scores2, weights, valid, i, nb) == player_units(scores, weights, valid, pi[i], nb),
    decreases nb,
{
    if nb > 0 {
        lemma_units_permuted(scores2, scores, pi, weights, valid, i, nb - 1);
        lemma_winners_permuted(scores2, scores, pi, nb - 1);
        assert(is_winner(scores2, nb - 1, i) == is_winner(scores, nb - 1, pi[i]));
    }
}

/// Players are treated alike: reordering the score rows by a permutation
/// reorders the players' units the same way (the total playable weight does
/// not depend on the scores at all).
pub proof fn law_players_symmetric(
    scores2: Seq<&[u16]>,
    scores: Seq<&[u16]>,
    pi: Seq<int>,
    weights: Seq<u32>,
    valid: Seq<u64>,
)
    requires
        rows_permuted(scores2, scores, pi),
    ensures
        forall|i: int|
            0 <= i < scores.len() ==> #[trigger] player_units(
                scores2,
                weights,
                valid,
                i,
                weights.len() as int,
            ) == player_units(scores, weights, valid, pi[i], weights.len() as int),
{
    assert forall|i: int| 0 <= i < scores.len() implies #[trigger] player_units(
        scores2,
        weights,
        valid,
        i,
        weights.len() as int,
    ) == player_units(scores, weights, valid, pi[i], weights.len() as int) by {
        lemma_units_permuted(scores2, scores, pi, weights, valid, i, weights.len() as int);
    }
}

/// How each board is counted, read straight off the inputs. Nothing is counted
/// before the first board. Board `b` is playable exactly when bit `b % 64` of
/// word `b / 64` of `valid` is set; a playable board adds `weights[b]` to the
/// total weight, and each player whose `u16` score on it is at least every
/// player's score gets `weights[b] * 2520 / k` units, `k` the number of players
/// with that same score; every other player gets nothing for it.
pub proof fn law_board_step(scores: Seq<&[u16]>, weights: Seq<u32>, valid: Seq<u64>, b: int)
    requires
        0 <= b < weights.len(),
    ensures
        valid_weight(weights, valid, 0) == 0,
        forall|p: int| #[trigger] player_units(scores, weights, valid, p, 0) == 0,
        board_valid(valid, b) <==> (valid[b / 64] >> ((b % 64) as u64)) & 1 == 1,
        valid_weight(weights, valid, b + 1) == valid_weight(weights, valid, b) + if (valid[b / 64]
            >> ((b % 64) as u64)) & 1 == 1 {
            weights[b] as int
        } else {
            0
        },
        forall|p: int|
            0 <= p < scores.len() ==> #[trigger] player_units(scores, weights, valid, p, b + 1)
                == player_units(scores, weights, valid, p, b) + if (valid[b / 64] >> ((b
                % 64) as u64)) & 1 == 1 && (forall|q: int|
                0 <= q < scores.len() ==> scores[q]@[b] <= scores[p]@[b]) {
                (weights[b] as int) * 2520 / (Set::new(
                    |q: int| 0 <= q < scores.len() && scores[q]@[b] == scores[p]@[b],
                ).len() as int)
            } else {
                0
            },
{
    lemma_bit_shift(valid[b / 64], b % 64);
    let n = scores.len() as int;
    assert forall|p: int| 0 <= p < n implies #[trigger] player_units(
        scores,
        weights,
        valid,
        p,
        b + 1,
    ) == player_units(scores, weights, valid, p, b) + if (valid[b / 64] >> ((b % 64) as u64)) & 1
        == 1 && (forall|q: int| 0 <= q < n ==> scores[q]@[b] <= scores[p]@[b]) {
        (weights[b] as int) * 2520 / (Set::new(
            |q: int| 0 <= q < n && scores[q]@[b] == scores[p]@[b],
        ).len() as int)
    } else {
        0
    } by {
        lemma_best_attained(scores, b, n);
        let best = best_score(scores, b, n);
        let top = forall|q: int| 0 <= q < n ==> scores[q]@[b] <= scores[p]@[b];
        if is_winner(scores, b, p) {
            assert forall|q: int| 0 <= q < n implies scores[q]@[b] <= scores[p]@[b] by {
                assert(score(scores, q, b) <= best);
            }
            lemma_winner_set(scores, b, n);
            assert(winner_set(scores, b, n) =~= Set::new(
                |q: int| 0 <= q < n && scores[q]@[b] == scores[p]@[b],
            ));
        } else {
            let w = choose|q: int| 0 <= q < n && #[trigger] score(scores, q, b) == best;
            assert(score(scores, w, b) > score(scores, p, b));
            assert(!top);
        }
    }
}

// ------------------------------------------------------------------------
// Executable functions
// ------------------------------------------------------------------------

/// Exact unit accounting for a single board: each player with the best score
/// on board `b` gets `w * D / k` units, `k` the number of such players.
fn board_units(scores: &[&[u16]], b: usize, w: u32, out_units: &mut [u64])
    requires
        scores.len() >= 1,
        forall|p: int| 0 <= p < scores.len() ==> b < #[trigger] scores@[p]@.len(),
        old(out_units)@.len() >= scores.len(),
        forall|p: int|
            0 <= p < scores.len() && #[trigger] is_winner(scores@, b as int, p) ==> old(
                out_units,
            )@[p] + board_share(scores@, b as int, w as int) <= u64::MAX,
    ensures
        final(out_units)@.len() == old(out_units)@.len(),
        forall|p: int|
            0 <= p < old(out_units)@.len() ==> #[trigger] final(out_units)@[p] == old(
                out_units,
            )@[p] + if p < scores.len() && is_winner(scores@, b as int, p) {
                board_share(scores@, b as int, w as int)
            } else {
                0
            },
{
    let n = scores.len();
    let mut max = 0u16;
    for p in 0..n
        invariant
            n == scores.len(),
            forall|q: int| 0 <= q < scores.len() ==> b < #[trigger] scores@[q]@.len(),
            max == best_score(scores@, b as int, p as int),
    {
        let s = scores[p][b];
        if s > max {
            max = s;
        }
    }
    let mut k = 0u64;
    for p in 0..n
        invariant
            n == scores.len(),
            forall|q: int| 0 <= q < scores.len() ==> b < #[trigger] scores@[q]@.len(),
            max == best_score(scores@, b as int, n as int),
            k == winners_below(scores@, b as int, p as int),
    {
        proof {
            lemma_winners_below_bounds(scores@, b as int, p as int);
        }
        if scores[p][b] == max {
            k += 1;
        }
    }
    proof {
        lemma_winners_bounds(scores@, b as int);
        assert((w as int) * (D as int) <= 0xffff_ffff * 2520) by (nonlinear_arith)
            requires
                (w as int) <= 0xffff_ffff,
        ;
    }
    // D is divisible by every k in 1..=9, so this division is exact there.
    let units = (w as u64) * D / k;
    for p in 0..n
        invariant
            n == scores.len(),
            forall|q: int| 0 <= q < scores.len() ==> b < #[trigger] scores@[q]@.len(),
            max == best_score(scores@, b as int, n as int),
            units == board_share(scores@, b as int, w as int),
            out_units@.len() == old(out_units)@.len(),
            old(out_units)@.len() >= n,
            forall|q: int|
                0 <= q < scores.len() && #[trigger] is_winner(scores@, b as int, q) ==> old(
                    out_units,
                )@[q] + board_share(scores@, b as int, w as int) <= u64::MAX,
            forall|q: int|
                0 <= q < p ==> #[trigger] out_units@[q] == old(out_units)@[q] + if is_winner(
                    scores@,
                    b as int,
                    q,
                ) {
                    board_share(scores@, b as int, w as int)
                } else {
                    0
                },
            forall|q: int| p <= q < out_units@.len() ==> #[trigger] out_units@[q] == old(out_units)@[q],
    {
        if scores[p][b] == max {
            assert(is_winner(scores@, b as int, p as int));
            out_units[p] = out_units[p] + units;
        }
    }
}

/// Scalar exact tally over all boards.
///
/// `scores[p][b]` = player p's hand score on board b (higher = better).
/// `weights[b]`   = multiplicity of board b.
/// `valid`        = bitset; bit b set => board b playable here.
/// `out_units[p]` += equity numerator in units of `D`.
///
/// Returns the total valid weight `W`.
pub fn tally_showdown_scalar(
    scores: &[&[u16]],
    weights: &[u32],
    valid: &[u64],
    out_units: &mut [u64],
) -> (w_total: u64)
    requires
        weights@.len() <= 64 * valid@.len(),
        scores_cover(scores@, valid@, weights@.len() as int),
        scores@.len() >= 1 || !some_valid(valid@, weights@.len() as int),
        old(out_units)@.len() >= scores@.len(),
        valid_weight(weights@, valid@, weights@.len() as int) <= u64::MAX,
        forall|p: int|
            0 <= p < scores@.len() ==> old(out_units)@[p] + #[trigger] player_units(
                scores@,
                weights@,
                valid@,
                p,
                weights@.len() as int,
            ) <= u64::MAX,
    ensures
        w_total == valid_weight(weights@, valid@, weights@.len() as int),
        final(out_units)@.len() == old(out_units)@.len(),
        forall|p: int|
            0 <= p < scores@.len() ==> #[trigger] final(out_units)@[p] == old(out_units)@[p]
                + player_units(scores@, weights@, valid@, p, weights@.len() as int),
        forall|p: int|
            scores@.len() <= p < old(out_units)@.len() ==> #[trigger] final(out_units)@[p] == old(
                out_units,
            )@[p],
{
    let b = weights.len();
    let mut w_total: u64 = 0;
    for board in 0..b
        invariant
            b == weights@.len(),
            weights@.len() <= 64 * valid@.len(),
            scores_cover(scores@, valid@, weights@.len() as int),
            scores@.len() >= 1 || !some_valid(valid@, weights@.len() as int),
            old(out_units)@.len() >= scores@.len(),
            valid_weight(weights@, valid@, weights@.len() as int) <= u64::MAX,
            forall|p: int|
                0 <= p < scores@.len() ==> old(out_units)@[p] + #[trigger] player_units(
                    scores@,
                    weights@,
                    valid@,
                    p,
                    weights@.len() as int,
                ) <= u64::MAX,
            w_total == valid_weight(weights@, valid@, board as int),
            out_units@.len() == old(out_units)@.len(),
            forall|p: int|
                0 <= p < scores@.len() ==> #[trigger] out_units@[p] == old(out_units)@[p]
                    + player_units(scores@, weights@, valid@, p, board as int),
            forall|p: int|
                scores@.len() <= p < old(out_units)@.len() ==> #[trigger] out_units@[p] == old(
                    out_units,
                )@[p],
    {
        proof {
            assert(board >> 6 == board / 64) by (bit_vector);
            assert(board & 63 == board % 64) by (bit_vector);
        }
        let word = valid[board >> 6];
        let shift = (board & 63) as u64;
        proof {
            lemma_bit_shift(word, shift as int);
            assert(((word >> shift) & 1 != 0) == ((word >> shift) & 1 == 1)) by (bit_vector);
        }
        if (word >> shift) & 1 != 0 {
            let w = weights[board];
            proof {
                assert(board_valid(valid@, board as int));
                lemma_valid_weight_mono(weights@, valid@, board as int + 1, weights@.len() as int);
            }
            w_total += w as u64;
            proof {
                assert(scores@.len() >= 1) by {
                    if scores@.len() == 0 {
                        assert(some_valid(valid@, weights@.len() as int));
                    }
                }
                assert forall|p: int| 0 <= p < scores@.len() implies board < #[trigger] scores@[p]@.len() by {
                    assert(board_valid(valid@, board as int));
                }
                assert forall|p: int|
                    0 <= p < scores@.len() && #[trigger] is_winner(scores@, board as int, p) implies out_units@[p]
                        + board_share(scores@, board as int, w as int) <= u64::MAX by {
                    lemma_player_units_mono(scores@, weights@, valid@, p, board as int + 1, weights@.len() as int);
                    assert(player_units(scores@, weights@, valid@, p, board as int + 1) == player_units(
                        scores@,
                        weights@,
                        valid@,
                        p,
                        board as int,
                    ) + board_share(scores@, board as int, w as int));
                }
            }
            board_units(scores, board, w, out_units);
        }
    }
    w_total
}

/// Exact showdown tally. Same contract as [`tally_showdown_scalar`].
pub fn tally_showdown(scores: &[&[u16]], weights: &[u32], valid: &[u64], out_units: &mut [u64]) -> (w_total: u64)
    requires
        weights@.len() <= 64 * valid@.len(),
        scores_cover(scores@, valid@, weights@.len() as int),
        scores@.len() >= 1 || !some_valid(valid@, weights@.len() as int),
        old(out_units)@.len() >= scores@.len(),
        valid_weight(weights@, valid@, weights@.len() as int) <= u64::MAX,
        forall|p: int|
            0 <= p < scores@.len() ==> old(out_units)@[p] + #[trigger] player_units(
                scores@,
                weights@,
                valid@,
                p,
                weights@.len() as int,
            ) <= u64::MAX,
    ensures
        w_total == valid_weight(weights@, valid@, weights@.len() as int),
        final(out_units)@.len() == old(out_units)@.len(),
        forall|p: int|
            0 <= p < scores@.len() ==> #[trigger] final(out_units)@[p] == old(out_units)@[p]
                + player_units(scores@, weights@, valid@, p, weights@.len() as int),
        forall|p: int|
            scores@.len() <= p < old(out_units)@.len() ==> #[trigger] final(out_units)@[p] == old(
                out_units,
            )@[p],
{
    tally_showdown_scalar(scores, weights, valid, out_units)
}

} // verus!
