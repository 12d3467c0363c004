//! Sorted hand-strength tables for showdowns, one per runout and player.

use vstd::prelude::*;

use crate::card::{index_to_card_pair, lemma_pair_index_bounds, lemma_pair_index_injective, pair_index, Card, CardConfig, PrivateCards, NUM_PAIRS};
use vstd::multiset::Multiset;

verus! {

/// A hand's strength on a board, with the hand's position in its player's list.
#[derive(Clone, Copy, Debug, PartialEq, Eq, PartialOrd, Ord)]
pub struct StrengthItem {
    pub strength: u16,
    pub index: u16,
}

/// Whether the pair `a` comes no later than `b` in lexicographic order.
pub open spec fn pair_le(a: (u16, u16), b: (u16, u16)) -> bool {
    a.0 < b.0 || (a.0 == b.0 && a.1 <= b.1)
}

/// Whether the pairs are in lexicographic order.
pub open spec fn pairs_sorted(s: Seq<(u16, u16)>) -> bool {
    forall|i: int, j: int| 0 <= i < j < s.len() ==> pair_le(#[trigger] s[i], #[trigger] s[j])
}

/// Relies on slice::sort_unstable: the pairs are rearranged into increasing lexicographic
/// order, which is the order std gives tuples.
#[verifier::external_body]
fn sort_pairs(v: &mut Vec<(u16, u16)>)
    ensures
        final(v)@.to_multiset() == old(v)@.to_multiset(),
        pairs_sorted(final(v)@),
{
    v.sort_unstable()
}

/// The seven cards that a hand makes on a full board: flop, turn, river, then the hole cards.
pub open spec fn seven_cards(flop: [Card; 3], b1: Card, b2: Card, hand: (Card, Card)) -> Seq<Card> {
    seq![flop[0], flop[1], flop[2], b1, b2, hand.0, hand.1]
}

/// Whether the hand evaluator may give strength `s` to the seven cards.
pub open spec fn evaluates_to<F: Fn([Card; 7]) -> u16>(evaluate: F, cards: Seq<Card>, s: u16) -> bool {
    exists|a: [Card; 7]| a@ == cards && evaluate.ensures((a,), s)
}

/// Whether every hand of seven cards can be evaluated, to a strength below `u16::MAX`.
pub open spec fn evaluator_wf<F: Fn([Card; 7]) -> u16>(evaluate: F) -> bool {
    &&& forall|a: [Card; 7]| #[trigger] evaluate.requires((a,))
    &&& forall|a: [Card; 7], s: u16| #[trigger] evaluate.ensures((a,), s) ==> s < u16::MAX
}

/// Whether a hand shares no card with the board.
pub open spec fn clear_of(board: Seq<Card>, hand: (Card, Card)) -> bool {
    !board.contains(hand.0) && !board.contains(hand.1)
}

/// The positions, in increasing order, of the first `n` hands that share no card with the board.
pub open spec fn clear_indices(hands: Seq<(Card, Card)>, board: Seq<Card>, n: int) -> Seq<u16>
    decreases n,
{
    if n <= 0 {
        Seq::empty()
    } else if clear_of(board, hands[n - 1]) {
        clear_indices(hands, board, n - 1).push((n - 1) as u16)
    } else {
        clear_indices(hands, board, n - 1)
    }
}

/// The board of flop, turn and river.
pub open spec fn five_cards(flop: [Card; 3], b1: Card, b2: Card) -> Seq<Card> {
    seq![flop[0], flop[1], flop[2], b1, b2]
}

/// Whether `items` is a strength list of the hands on the board made of `flop`, `b1` and `b2`:
/// the sentinels `(0, 0)` and `(u16::MAX, u16::MAX)` and, for each hand that shares no card with
/// the board, one more than a strength the evaluator gives it with its position, all sorted.
pub open spec fn is_strength_list<F: Fn([Card; 7]) -> u16>(
    evaluate: F,
    flop: [Card; 3],
    b1: Card,
    b2: Card,
    hands: Seq<(Card, Card)>,
    items: Seq<(u16, u16)>,
) -> bool {
    let clear = clear_indices(hands, five_cards(flop, b1, b2), hands.len() as int);
    &&& pairs_sorted(items)
    &&& exists|strengths: Seq<u16>|
        {
            &&& strengths.len() == clear.len()
            &&& forall|k: int|
                0 <= k < clear.len() ==> evaluates_to(
                    evaluate,
                    seven_cards(flop, b1, b2, hands[clear[k] as int]),
                    #[trigger] strengths[k],
                )
            &&& items.to_multiset() == seq![(0u16, 0u16), (u16::MAX, u16::MAX)].add(
                Seq::new(clear.len(), |k: int| ((strengths[k] + 1) as u16, clear[k])),
            ).to_multiset()
        }
}

/// The view of a strength list as pairs of strength and position.
pub open spec fn item_pairs(items: Seq<StrengthItem>) -> Seq<(u16, u16)> {
    items.map_values(|x: StrengthItem| (x.strength, x.index))
}

/// Whether card `c` is among the board cards.
fn on_board(board: &[Card; 5], c: Card) -> (r: bool)
    ensures
        r == board@.contains(c),
{
    let mut i: usize = 0;
    while i < 5
        invariant
            i <= 5,
            forall|j: int| 0 <= j < i ==> board@[j] != c,
        decreases 5 - i,
    {
        if board[i] == c {
            return true;
        }
        i += 1;
    }
    false
}

/// The sorted strength list of one player's hands on the board of `flop`, `b1` and `b2`.
fn strength_list<F: Fn([Card; 7]) -> u16>(
    evaluate: &F,
    flop: [Card; 3],
    b1: Card,
    b2: Card,
    hands: &Vec<(Card, Card)>,
) -> (r: Vec<StrengthItem>)
    requires
        evaluator_wf(*evaluate),
        hands@.len() <= u16::MAX,
    ensures
        is_strength_list(*evaluate, flop, b1, b2, hands@, item_pairs(r@)),
{
    let board: [Card; 5] = [flop[0], flop[1], flop[2], b1, b2];
    proof {
        assert(board@ =~= five_cards(flop, b1, b2));
    }
    let mut pairs: Vec<(u16, u16)> = Vec::with_capacity(hands.len() + 2);
    pairs.push((0, 0));
    pairs.push((u16::MAX, u16::MAX));
    let ghost mut strengths: Seq<u16> = Seq::empty();
    let mut i: usize = 0;
    while i < hands.len()
        invariant
            i <= hands@.len() <= u16::MAX,
            evaluator_wf(*evaluate),
            board@ == five_cards(flop, b1, b2),
            strengths.len() == clear_indices(hands@, board@, i as int).len(),
            forall|k: int|
                0 <= k < strengths.len() ==> evaluates_to(
                    *evaluate,
                    seven_cards(flop, b1, b2, hands@[clear_indices(hands@, board@, i as int)[k] as int]),
                    #[trigger] strengths[k],
                ),
            pairs@ == seq![(0u16, 0u16), (u16::MAX, u16::MAX)].add(
                Seq::new(strengths.len(), |k: int| ((strengths[k] + 1) as u16, clear_indices(hands@, board@, i as int)[k])),
            ),
            forall|k: int| 0 <= k < clear_indices(hands@, board@, i as int).len() ==> #[trigger] clear_indices(hands@, board@, i as int)[k] < i,
        decreases hands@.len() - i,
    {
        let (c1, c2) = hands[i];
        let ghost prev = clear_indices(hands@, board@, i as int);
        if !on_board(&board, c1) && !on_board(&board, c2) {
            let cards: [Card; 7] = [flop[0], flop[1], flop[2], b1, b2, c1, c2];
            let s = evaluate(cards);
            proof {
                assert(cards@ =~= seven_cards(flop, b1, b2, hands@[i as int]));
                assert(evaluates_to(*evaluate, seven_cards(flop, b1, b2, hands@[i as int]), s));
            }
            pairs.push((s + 1, i as u16));
            proof {
                let next = clear_indices(hands@, board@, i as int + 1);
                assert(next == prev.push(i as u16));
                let old_strengths = strengths;
                strengths = strengths.push(s);
                assert forall|k: int| 0 <= k < strengths.len() implies evaluates_to(
                    *evaluate,
                    seven_cards(flop, b1, b2, hands@[next[k] as int]),
                    #[trigger] strengths[k],
                ) by {
                    if k < old_strengths.len() {
                        assert(strengths[k] == old_strengths[k]);
                    }
                }
                assert(pairs@ =~= seq![(0u16, 0u16), (u16::MAX, u16::MAX)].add(
                    Seq::new(strengths.len(), |k: int| ((strengths[k] + 1) as u16, next[k])),
                ));
            }
        }
        i += 1;
    }
    let ghost unsorted = pairs@;
    sort_pairs(&mut pairs);
    let mut items: Vec<StrengthItem> = Vec::with_capacity(pairs.len());
    let mut j: usize = 0;
    while j < pairs.len()
        invariant
            j <= pairs@.len(),
            items@.len() == j,
            item_pairs(items@) == pairs@.subrange(0, j as int),
        decreases pairs@.len() - j,
    {
        let (strength, index) = pairs[j];
        let ghost before = items@;
        items.push(StrengthItem { strength, index });
        j += 1;
        proof {
            assert forall|k: int| 0 <= k < j implies #[trigger] item_pairs(items@)[k] == pairs@.subrange(0, j as int)[k] by {
                if k < j - 1 {
                    assert(items@[k] == before[k]);
                    assert(item_pairs(before)[k] == pairs@.subrange(0, j - 1)[k]);
                }
            }
            assert(item_pairs(items@) =~= pairs@.subrange(0, j as int));
        }
    }
    proof {
        assert(item_pairs(items@) =~= pairs@);
        let clear = clear_indices(hands@, board@, hands@.len() as int);
        assert(is_strength_list(*evaluate, flop, b1, b2, hands@, item_pairs(items@))) by {
            assert(Seq::new(clear.len(), |k: int| ((strengths[k] + 1) as u16, clear[k])) =~= Seq::new(
                strengths.len(),
                |k: int| ((strengths[k] + 1) as u16, clear_indices(hands@, board@, hands@.len() as int)[k]),
            ));
        }
    }
    items
}

impl CardConfig {
    /// For each turn and river that can come, at its `card_pair_to_index` index, each player's
    /// hands that share no card with the board, with their strengths and between two sentinels,
    /// sorted by strength, then position. An entry for a board that cannot come is empty.
    pub fn hand_strength<F: Fn([Card; 7]) -> u16>(&self, private_cards: &PrivateCards, evaluate: F) -> (r: Vec<[Vec<StrengthItem>; 2]>)
        requires
            evaluator_wf(evaluate),
            private_cards[0]@.len() <= u16::MAX,
            private_cards[1]@.len() <= u16::MAX,
        ensures
            r@.len() == NUM_PAIRS,
            forall|b1: int, b2: int, p: int|
                0 <= b1 < b2 < 52 && 0 <= p < 2 ==> if self.river_possible(b1, b2) {
                    is_strength_list(evaluate, self.flop, b1 as Card, b2 as Card, private_cards[p]@, item_pairs(#[trigger] r@[pair_index(b1, b2)][p]@))
                } else {
                    r@[pair_index(b1, b2)][p]@.len() == 0
                },
    {
        let mut ret: Vec<[Vec<StrengthItem>; 2]> = Vec::with_capacity(NUM_PAIRS);
        let mut index: usize = 0;
        while index < NUM_PAIRS
            invariant
                index <= NUM_PAIRS,
                ret@.len() == index,
                evaluator_wf(evaluate),
                private_cards[0]@.len() <= u16::MAX,
                private_cards[1]@.len() <= u16::MAX,
                forall|b1: int, b2: int, p: int|
                    0 <= b1 < b2 < 52 && 0 <= p < 2 && pair_index(b1, b2) < index ==> if self.river_possible(b1, b2) {
                        is_strength_list(evaluate, self.flop, b1 as Card, b2 as Card, private_cards[p]@, item_pairs(#[trigger] ret@[pair_index(b1, b2)][p]@))
                    } else {
                        ret@[pair_index(b1, b2)][p]@.len() == 0
                    },
            decreases NUM_PAIRS - index,
        {
            let (board1, board2) = index_to_card_pair(index);
            if !self.flop_contains(board1) && !self.flop_contains(board2) && (self.turn == crate::card::NOT_DEALT
                || board1 == self.turn || board2 == self.turn) && (self.river == crate::card::NOT_DEALT
                || board1 == self.river || board2 == self.river) {
                ret.push([
                    strength_list(&evaluate, self.flop, board1, board2, &private_cards[0]),
                    strength_list(&evaluate, self.flop, board1, board2, &private_cards[1]),
                ]);
            } else {
                ret.push([Vec::new(), Vec::new()]);
            }
            proof {
                assert forall|b1: int, b2: int, p: int|
                    0 <= b1 < b2 < 52 && 0 <= p < 2 && pair_index(b1, b2) < index + 1 implies if self.river_possible(b1, b2) {
                        is_strength_list(evaluate, self.flop, b1 as Card, b2 as Card, private_cards[p]@, item_pairs(#[trigger] ret@[pair_index(b1, b2)][p]@))
                    } else {
                        ret@[pair_index(b1, b2)][p]@.len() == 0
                    } by {
                    lemma_pair_index_bounds(b1, b2);
                    if pair_index(b1, b2) == index {
                        lemma_pair_index_injective(b1, b2, board1 as int, board2 as int);
                    }
                }
            }
            index += 1;
        }
        proof {
            assert forall|b1: int, b2: int, p: int|
                0 <= b1 < b2 < 52 && 0 <= p < 2 implies if self.river_possible(b1, b2) {
                    is_strength_list(evaluate, self.flop, b1 as Card, b2 as Card, private_cards[p]@, item_pairs(#[trigger] ret@[pair_index(b1, b2)][p]@))
                } else {
                    ret@[pair_index(b1, b2)][p]@.len() == 0
                } by {
                lemma_pair_index_bounds(b1, b2);
            }
        }
        ret
    }
}

} // verus!
