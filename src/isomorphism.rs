//! Suit isomorphism: which turn and river cards stand for others, and the swap lists that
//! carry per-hand values from a representative outcome to the outcomes it stands for.

use vstd::prelude::*;

use crate::card::{
    card_pair_to_index, is_card, lemma_pair_index_bounds, Card, CardConfig, PrivateCards,
    NOT_DEALT, NUM_PAIRS,
};
use crate::range::{lemma_swap_suit, pair_index_unordered, replace_suit, swap_suit, weights_suit_isomorphic};

verus! {

/// For each player, pairs of positions `(i, j)` of hands that trade places when two suits do.
pub type SwapList = [Vec<(u16, u16)>; 2];

/// What `CardConfig::isomorphism` finds, in this order: for the turn, the position among the
/// dealt turn cards of the card that stands for each folded card, the folded cards and the swap
/// lists by folded suit; for the river, the same by turn card (positions), by suit of the turn
/// (folded cards) and by suit of the turn and folded suit (swap lists).
pub type IsomorphismData = (
    Vec<u8>,
    Vec<Card>,
    [SwapList; 4],
    Vec<Vec<u8>>,
    [Vec<Card>; 4],
    [[SwapList; 4]; 4],
);

/// Whether every hand is made of two distinct cards.
pub open spec fn hands_wf(hands: Seq<(Card, Card)>) -> bool {
    forall|i: int|
        0 <= i < hands.len() ==> is_card(#[trigger] hands[i].0 as int) && is_card(hands[i].1 as int)
            && hands[i].0 != hands[i].1
}

/// Whether trading suits `s1` and `s2` maps the board cards onto themselves, so that each suit
/// holds the same ranks as the other did.
#[verifier::opaque]
pub open spec fn board_symmetric(board: Seq<Card>, s1: int, s2: int) -> bool {
    forall|i: int|
        0 <= i < board.len() ==> board.contains(swap_suit(#[trigger] board[i] as int, s1, s2) as Card)
}

/// The index of a hand's pair of cards.
pub open spec fn hand_key(h: (Card, Card)) -> int {
    pair_index_unordered(h.0 as int, h.1 as int)
}

/// The index of the pair that a hand becomes when suits `s1` and `s2` trade places.
pub open spec fn swapped_key(h: (Card, Card), s1: int, s2: int) -> int {
    pair_index_unordered(swap_suit(h.0 as int, s1, s2), swap_suit(h.1 as int, s1, s2))
}

/// The last position below `n` of a hand with pair index `key`, or `-1` if there is none.
pub open spec fn last_with_key(hands: Seq<(Card, Card)>, key: int, n: int) -> int
    decreases n,
{
    if n <= 0 {
        -1
    } else if hand_key(hands[n - 1]) == key {
        n - 1
    } else {
        last_with_key(hands, key, n - 1)
    }
}

/// The swap list of one player for suits `s1` and `s2`, over the first `n` hands: each hand at
/// position `i` whose swapped hand lies at a later position `j` gives the pair `(i, j)`; a hand
/// whose swapped hand is missing gives `(i, u16::MAX)`.
pub open spec fn swap_pairs(hands: Seq<(Card, Card)>, s1: int, s2: int, n: int) -> Seq<(u16, u16)>
    decreases n,
{
    if n <= 0 {
        Seq::empty()
    } else {
        let prev = swap_pairs(hands, s1, s2, n - 1);
        let j = last_with_key(hands, swapped_key(hands[n - 1], s1, s2), hands.len() as int);
        if j < 0 {
            prev.push(((n - 1) as u16, u16::MAX))
        } else if n - 1 < j {
            prev.push(((n - 1) as u16, j as u16))
        } else {
            prev
        }
    }
}

/// The swap list of one player over all of its hands.
pub open spec fn swap_list_of(hands: Seq<(Card, Card)>, s1: int, s2: int) -> Seq<(u16, u16)> {
    swap_pairs(hands, s1, s2, hands.len() as int)
}

/// Whether card `c` is dealt as itself: it is not on the board and its suit is folded onto no
/// other suit.
pub open spec fn is_representative(board: Seq<Card>, folds: Seq<Option<u8>>, c: int) -> bool {
    !board.contains(c as Card) && folds[c % 4] is None
}

/// The number of cards below `n` that are dealt as themselves.
pub open spec fn representatives_below(board: Seq<Card>, folds: Seq<Option<u8>>, n: int) -> int
    decreases n,
{
    if n <= 0 {
        0
    } else {
        representatives_below(board, folds, n - 1) + if is_representative(board, folds, n - 1) {
            1int
        } else {
            0
        }
    }
}

/// Whether card `c` is folded: it is not on the board and its suit is folded onto another.
pub open spec fn is_folded(board: Seq<Card>, folds: Seq<Option<u8>>, c: int) -> bool {
    !board.contains(c as Card) && folds[c % 4] is Some
}

/// The card that stands for a folded card `c`: the same rank in the suit it is folded onto.
pub open spec fn stand_in(folds: Seq<Option<u8>>, c: int) -> int {
    c - c % 4 + folds[c % 4]->0
}

/// For each folded card below `n`, in order, the position of its stand-in among the cards that
/// are dealt as themselves (`0` when the stand-in is not one of them).
pub open spec fn fold_refs(board: Seq<Card>, folds: Seq<Option<u8>>, n: int) -> Seq<u8>
    decreases n,
{
    if n <= 0 {
        Seq::empty()
    } else if is_folded(board, folds, n - 1) {
        let s = stand_in(folds, n - 1);
        fold_refs(board, folds, n - 1).push(
            if is_representative(board, folds, s) {
                representatives_below(board, folds, s) as u8
            } else {
                0u8
            },
        )
    } else {
        fold_refs(board, folds, n - 1)
    }
}

/// The folded cards below `n`, in order.
pub open spec fn fold_cards(board: Seq<Card>, folds: Seq<Option<u8>>, n: int) -> Seq<Card>
    decreases n,
{
    if n <= 0 {
        Seq::empty()
    } else if is_folded(board, folds, n - 1) {
        fold_cards(board, folds, n - 1).push((n - 1) as Card)
    } else {
        fold_cards(board, folds, n - 1)
    }
}

impl CardConfig {
    /// Whether both ranges stay the same when suits `s1` and `s2` trade places.
    pub open spec fn ranges_isomorphic(&self, s1: int, s2: int) -> bool {
        weights_suit_isomorphic(self.range[0]@, s1, s2) && weights_suit_isomorphic(
            self.range[1]@,
            s1,
            s2,
        )
    }

    /// The lowest suit below `k` with which suit `s2` can trade places in both ranges.
    pub open spec fn first_isomorphic_suit(&self, s2: int, k: int) -> Option<int>
        decreases k,
    {
        if k <= 0 {
            None
        } else {
            match self.first_isomorphic_suit(s2, k - 1) {
                Some(s) => Some(s),
                None => if self.ranges_isomorphic(k - 1, s2) {
                    Some(k - 1)
                } else {
                    None
                },
            }
        }
    }

    /// The labels of the suits below `n` (`1 <= n <= 4`), and the next unused label: a suit
    /// takes the label of the lowest suit it can trade places with, else a new one.
    pub open spec fn suit_labels(&self, n: int) -> (Seq<u8>, u8)
        decreases n,
    {
        if n <= 1 {
            (seq![0u8], 1u8)
        } else {
            let (labels, next) = self.suit_labels(n - 1);
            match self.first_isomorphic_suit(n - 1, n - 1) {
                Some(s) => (labels.push(labels[s]), next),
                None => (labels.push(next), (next + 1) as u8),
            }
        }
    }

    /// The flop as a sequence.
    pub open spec fn flop_seq(&self) -> Seq<Card> {
        seq![self.flop[0], self.flop[1], self.flop[2]]
    }

    /// Whether suits `s1` and `s2` are interchangeable on `board`: they have the same label,
    /// trading them maps `board` onto itself, and, unless `flop_waived`, maps the flop onto
    /// itself.
    #[verifier::opaque]
    pub open spec fn interchangeable(
        &self,
        board: Seq<Card>,
        flop_waived: bool,
        s1: int,
        s2: int,
    ) -> bool {
        let labels = self.suit_labels(4).0;
        &&& flop_waived || board_symmetric(self.flop_seq(), s1, s2)
        &&& board_symmetric(board, s1, s2)
        &&& labels[s1] == labels[s2]
    }

    /// The lowest suit below `k` that suit `s1` is interchangeable with on `board`.
    pub open spec fn fold_target(&self, board: Seq<Card>, flop_waived: bool, s1: int, k: int) -> Option<u8>
        decreases k,
    {
        if k <= 0 {
            None
        } else {
            match self.fold_target(board, flop_waived, s1, k - 1) {
                Some(s) => Some(s),
                None => if self.interchangeable(board, flop_waived, s1, k - 1) {
                    Some((k - 1) as u8)
                } else {
                    None
                },
            }
        }
    }

    /// For each suit, the lower suit it is folded onto on `board`, if any.
    pub open spec fn folds(&self, board: Seq<Card>, flop_waived: bool) -> Seq<Option<u8>> {
        Seq::new(4, |s: int| self.fold_target(board, flop_waived, s, s))
    }

    /// Whether card `t` is dealt as the turn in some runout that the river loop visits.
    pub open spec fn river_turn(&self, t: int) -> bool {
        !self.flop_has(t) && (self.turn == NOT_DEALT || self.turn == t)
    }

    /// The label of each suit: suits with the same label can trade places in both ranges.
    fn suit_isomorphism(&self) -> (r: [u8; 4])
        ensures
            r@ == self.suit_labels(4).0,
    {
        let mut labels: [u8; 4] = [0; 4];
        let mut next: u8 = 1;
        let mut suit2: u8 = 1;
        while suit2 < 4
            invariant
                1 <= suit2 <= 4,
                labels@.subrange(0, suit2 as int) == self.suit_labels(suit2 as int).0,
                next == self.suit_labels(suit2 as int).1,
                next <= suit2,
            decreases 4 - suit2,
        {
            let mut suit1: u8 = 0;
            let mut found = false;
            while !found && suit1 < suit2
                invariant
                    suit1 <= suit2 < 4,
                    labels@.subrange(0, suit2 as int) == self.suit_labels(suit2 as int).0,
                    !found ==> self.first_isomorphic_suit(suit2 as int, suit1 as int) is None,
                    found ==> self.first_isomorphic_suit(suit2 as int, suit2 as int) == Some(
                        suit1 as int,
                    ) && labels@[suit2 as int] == labels@[suit1 as int],
                    found ==> suit1 < suit2,
                    found ==> labels@.subrange(0, suit2 as int) == self.suit_labels(
                        suit2 as int,
                    ).0,
                decreases suit2 - suit1 + if found { 0int } else { 1 },
            {
                if self.range[0].is_suit_isomorphic(suit1, suit2) && self.range[1].is_suit_isomorphic(suit1, suit2) {
                    let l = labels[suit1 as usize];
                    let ghost before = labels@;
                    labels[suit2 as usize] = l;
                    found = true;
                    proof {
                        lemma_first_isomorphic_suit_stays(self, suit2 as int, suit1 as int + 1, suit2 as int);
                        assert(labels@.subrange(0, suit2 as int) =~= before.subrange(0, suit2 as int));
                    }
                } else {
                    suit1 += 1;
                }
            }
            if !found {
                let ghost before = labels@;
                labels[suit2 as usize] = next;
                next += 1;
                proof {
                    assert(labels@.subrange(0, suit2 as int) =~= before.subrange(0, suit2 as int));
                }
            }
            proof {
                lemma_suit_labels_len(self, suit2 as int);
                let prev = self.suit_labels(suit2 as int);
                let n = suit2 as int + 1;
                if found {
                    assert(labels@.subrange(0, suit2 as int)[suit1 as int] == labels@[suit1 as int]);
                    assert(self.first_isomorphic_suit(n - 1, n - 1) == Some(suit1 as int));
                } else {
                    assert(suit1 == suit2);
                    assert(self.first_isomorphic_suit(n - 1, n - 1) is None);
                }
                assert(self.suit_labels(suit2 as int + 1).0 == prev.0.push(labels@[suit2 as int]));
                assert(labels@.subrange(0, suit2 as int + 1) =~= prev.0.push(labels@[suit2 as int]));
            }
            suit2 += 1;
        }
        proof {
            assert(labels@ =~= labels@.subrange(0, 4));
        }
        labels
    }
}

/// There is one label for each suit, and the next label is at most the number of suits.
pub proof fn lemma_suit_labels_len(c: &CardConfig, n: int)
    requires
        1 <= n,
    ensures
        c.suit_labels(n).0.len() == n,
        c.suit_labels(n).1 <= n,
    decreases n,
{
    if n > 1 {
        lemma_suit_labels_len(c, n - 1);
    }
}

/// Once the lowest isomorphic suit is found below `k`, it stays the lowest below any larger bound.
proof fn lemma_first_isomorphic_suit_stays(c: &CardConfig, s2: int, k: int, m: int)
    requires
        c.first_isomorphic_suit(s2, k) is Some,
        k <= m,
    ensures
        c.first_isomorphic_suit(s2, m) == c.first_isomorphic_suit(s2, k),
    decreases m - k,
{
    if k < m {
        lemma_first_isomorphic_suit_stays(c, s2, k, m - 1);
    }
}

/// The suit that `fold_target` picks lies below its bound.
pub proof fn lemma_fold_target_below(c: &CardConfig, board: Seq<Card>, flop_waived: bool, s1: int, k: int)
    ensures
        c.fold_target(board, flop_waived, s1, k) matches Some(t) ==> 0 <= t < k,
    decreases k,
{
    if k > 0 {
        lemma_fold_target_below(c, board, flop_waived, s1, k - 1);
    }
}

/// Whether `c` is among the board cards.
fn contains_card(board: &Vec<Card>, c: Card) -> (r: bool)
    ensures
        r == board@.contains(c),
{
    let mut i: usize = 0;
    while i < board.len()
        invariant
            i <= board@.len(),
            forall|j: int| 0 <= j < i ==> board@[j] != c,
        decreases board@.len() - i,
    {
        if board[i] == c {
            return true;
        }
        i += 1;
    }
    false
}

/// Whether trading suits `s1` and `s2` maps the board cards onto themselves.
fn is_board_symmetric(board: &Vec<Card>, s1: u8, s2: u8) -> (r: bool)
    requires
        forall|i: int| 0 <= i < board@.len() ==> is_card(#[trigger] board@[i] as int),
        s1 < 4,
        s2 < 4,
    ensures
        r == board_symmetric(board@, s1 as int, s2 as int),
{
    let mut i: usize = 0;
    while i < board.len()
        invariant
            i <= board@.len(),
            s1 < 4,
            s2 < 4,
            forall|j: int| 0 <= j < board@.len() ==> is_card(#[trigger] board@[j] as int),
            forall|j: int|
                0 <= j < i ==> board@.contains(swap_suit(#[trigger] board@[j] as int, s1 as int, s2 as int) as Card),
        decreases board@.len() - i,
    {
        let swapped = replace_suit(board[i], s1, s2);
        if !contains_card(board, swapped) {
            proof {
                reveal(board_symmetric);
            }
            return false;
        }
        i += 1;
    }
    proof {
        reveal(board_symmetric);
    }
    true
}

impl CardConfig {
    /// The flop as a list.
    fn flop_vec(&self) -> (r: Vec<Card>)
        ensures
            r@ == self.flop_seq(),
    {
        let mut v: Vec<Card> = Vec::with_capacity(4);
        v.push(self.flop[0]);
        v.push(self.flop[1]);
        v.push(self.flop[2]);
        proof {
            assert(v@ =~= self.flop_seq());
        }
        v
    }

    /// The lowest suit below `suit1` that `suit1` is interchangeable with on `board`.
    fn fold_target_of(
        &self,
        labels: &[u8; 4],
        flop: &Vec<Card>,
        board: &Vec<Card>,
        flop_waived: bool,
        suit1: u8,
    ) -> (r: Option<u8>)
        requires
            suit1 < 4,
            labels@ == self.suit_labels(4).0,
            flop@ == self.flop_seq(),
            forall|i: int| 0 <= i < flop@.len() ==> is_card(#[trigger] flop@[i] as int),
            forall|i: int| 0 <= i < board@.len() ==> is_card(#[trigger] board@[i] as int),
        ensures
            r == self.fold_target(board@, flop_waived, suit1 as int, suit1 as int),
    {
        let mut suit2: u8 = 0;
        while suit2 < suit1
            invariant
                suit2 <= suit1 < 4,
                labels@ == self.suit_labels(4).0,
                flop@ == self.flop_seq(),
                forall|i: int| 0 <= i < flop@.len() ==> is_card(#[trigger] flop@[i] as int),
                forall|i: int| 0 <= i < board@.len() ==> is_card(#[trigger] board@[i] as int),
                self.fold_target(board@, flop_waived, suit1 as int, suit2 as int) is None,
            decreases suit1 - suit2,
        {
            let c = (flop_waived || is_board_symmetric(flop, suit1, suit2)) && is_board_symmetric(board, suit1, suit2)
                && labels[suit1 as usize] == labels[suit2 as usize];
            proof {
                reveal(CardConfig::interchangeable);
                assert(c == self.interchangeable(board@, flop_waived, suit1 as int, suit2 as int));
            }
            if c {
                proof {
                    assert(self.fold_target(board@, flop_waived, suit1 as int, suit2 as int + 1) == Some(suit2));
                    lemma_fold_target_stays(self, board@, flop_waived, suit1 as int, suit2 as int + 1, suit1 as int);
                }
                return Some(suit2);
            }
            suit2 += 1;
        }
        None
    }

    /// For each suit, the lower suit it is folded onto on `board`, if any.
    fn fold_suits(&self, labels: &[u8; 4], flop: &Vec<Card>, board: &Vec<Card>, flop_waived: bool) -> (r: [Option<u8>; 4])
        requires
            labels@ == self.suit_labels(4).0,
            flop@ == self.flop_seq(),
            forall|i: int| 0 <= i < flop@.len() ==> is_card(#[trigger] flop@[i] as int),
            forall|i: int| 0 <= i < board@.len() ==> is_card(#[trigger] board@[i] as int),
        ensures
            r@ == self.folds(board@, flop_waived),
    {
        let f1 = self.fold_target_of(labels, flop, board, flop_waived, 1);
        let f2 = self.fold_target_of(labels, flop, board, flop_waived, 2);
        let f3 = self.fold_target_of(labels, flop, board, flop_waived, 3);
        let folds: [Option<u8>; 4] = [None, f1, f2, f3];
        proof {
            assert(self.fold_target(board@, flop_waived, 0, 0) is None);
            assert(folds@ =~= self.folds(board@, flop_waived));
        }
        folds
    }
}

/// Once `fold_target` finds a suit below `k`, it finds the same one below any larger bound.
proof fn lemma_fold_target_stays(c: &CardConfig, board: Seq<Card>, flop_waived: bool, s1: int, k: int, m: int)
    requires
        c.fold_target(board, flop_waived, s1, k) is Some,
        k <= m,
    ensures
        c.fold_target(board, flop_waived, s1, m) == c.fold_target(board, flop_waived, s1, k),
    decreases m - k,
{
    if k < m {
        lemma_fold_target_stays(c, board, flop_waived, s1, k, m - 1);
    }
}

/// For the cards that are not on `board`, in order: the positions of the stand-ins of the folded
/// cards among the cards dealt as themselves, and the folded cards.
fn isomorphism_internal(board: &Vec<Card>, folds: &[Option<u8>; 4]) -> (r: (Vec<u8>, Vec<Card>))
    requires
        forall|s: int| 0 <= s < 4 ==> (#[trigger] folds@[s] matches Some(t) ==> t < s),
    ensures
        r.0@ == fold_refs(board@, folds@, 52),
        r.1@ == fold_cards(board@, folds@, 52),
{
    let mut refs: Vec<u8> = Vec::new();
    let mut cards: Vec<Card> = Vec::new();
    let mut counter: u8 = 0;
    let mut indices: [u8; 52] = [0; 52];
    let mut card: u8 = 0;
    while card < 52
        invariant
            card <= 52,
            forall|s: int| 0 <= s < 4 ==> (#[trigger] folds@[s] matches Some(t) ==> t < s),
            counter == representatives_below(board@, folds@, card as int),
            counter <= card,
            forall|c: int|
                0 <= c < card ==> #[trigger] indices@[c] == if is_representative(board@, folds@, c) {
                    representatives_below(board@, folds@, c) as u8
                } else {
                    0u8
                },
            forall|c: int| card <= c < 52 ==> #[trigger] indices@[c] == 0,
            refs@ == fold_refs(board@, folds@, card as int),
            cards@ == fold_cards(board@, folds@, card as int),
        decreases 52 - card,
    {
        if !contains_card(board, card) {
            let suit = card % 4;
            match folds[suit as usize] {
                Some(replace_suit) => {
                    let replace_card = card - suit + replace_suit;
                    refs.push(indices[replace_card as usize]);
                    cards.push(card);
                },
                None => {
                    indices[card as usize] = counter;
                    counter += 1;
                },
            }
        }
        card += 1;
    }
    (refs, cards)
}

/// The positions of the hands, by pair index: for each index, the last position of a hand with
/// that pair, or `usize::MAX`.
fn fill_reverse_table(reverse_table: &mut Vec<usize>, hands: &Vec<(Card, Card)>)
    requires
        old(reverse_table)@.len() == NUM_PAIRS,
        hands_wf(hands@),
    ensures
        final(reverse_table)@.len() == NUM_PAIRS,
        forall|k: int|
            0 <= k < NUM_PAIRS ==> #[trigger] final(reverse_table)@[k] == if last_with_key(hands@, k, hands@.len() as int) < 0 {
                usize::MAX as int
            } else {
                last_with_key(hands@, k, hands@.len() as int)
            },
{
    let mut k: usize = 0;
    while k < NUM_PAIRS
        invariant
            k <= NUM_PAIRS,
            reverse_table@.len() == NUM_PAIRS,
            forall|j: int| 0 <= j < k ==> #[trigger] reverse_table@[j] == usize::MAX,
        decreases NUM_PAIRS - k,
    {
        reverse_table.set(k, usize::MAX);
        k += 1;
    }
    let mut i: usize = 0;
    while i < hands.len()
        invariant
            i <= hands@.len(),
            hands_wf(hands@),
            reverse_table@.len() == NUM_PAIRS,
            forall|k: int|
                0 <= k < NUM_PAIRS ==> #[trigger] reverse_table@[k] == if last_with_key(hands@, k, i as int) < 0 {
                    usize::MAX as int
                } else {
                    last_with_key(hands@, k, i as int)
                },
        decreases hands@.len() - i,
    {
        let (c1, c2) = hands[i];
        let key = card_pair_to_index(c1, c2);
        reverse_table.set(key, i);
        i += 1;
        proof {
            assert forall|k: int| 0 <= k < NUM_PAIRS implies #[trigger] reverse_table@[k] == if last_with_key(hands@, k, i as int) < 0 {
                usize::MAX as int
            } else {
                last_with_key(hands@, k, i as int)
            } by {
                assert(hand_key(hands@[i - 1]) == key);
                lemma_last_with_key_bounds(hands@, k, i as int - 1);
            }
        }
    }
}

/// The last position with a key lies below the bound.
pub proof fn lemma_last_with_key_bounds(hands: Seq<(Card, Card)>, key: int, n: int)
    ensures
        -1 <= last_with_key(hands, key, n) < if n > 0 { n } else { 0 },
        last_with_key(hands, key, n) >= 0 ==> hand_key(hands[last_with_key(hands, key, n)]) == key,
    decreases n,
{
    if n > 0 {
        lemma_last_with_key_bounds(hands, key, n - 1);
    }
}

/// The swap list of one player's hands for suits `suit1` and `suit2`.
fn swap_list_for(reverse_table: &mut Vec<usize>, hands: &Vec<(Card, Card)>, suit1: u8, suit2: u8) -> (r: Vec<(u16, u16)>)
    requires
        old(reverse_table)@.len() == NUM_PAIRS,
        hands_wf(hands@),
        hands@.len() <= u16::MAX,
        suit1 < 4,
        suit2 < 4,
    ensures
        final(reverse_table)@.len() == NUM_PAIRS,
        r@ == swap_list_of(hands@, suit1 as int, suit2 as int),
{
    fill_reverse_table(reverse_table, hands);
    let mut list: Vec<(u16, u16)> = Vec::new();
    let mut i: usize = 0;
    while i < hands.len()
        invariant
            i <= hands@.len() <= u16::MAX,
            hands_wf(hands@),
            suit1 < 4,
            suit2 < 4,
            reverse_table@.len() == NUM_PAIRS,
            forall|k: int|
                0 <= k < NUM_PAIRS ==> #[trigger] reverse_table@[k] == if last_with_key(hands@, k, hands@.len() as int) < 0 {
                    usize::MAX as int
                } else {
                    last_with_key(hands@, k, hands@.len() as int)
                },
            list@ == swap_pairs(hands@, suit1 as int, suit2 as int, i as int),
        decreases hands@.len() - i,
    {
        let (c1, c2) = hands[i];
        proof {
            assert(is_card(hands@[i as int].0 as int));
            lemma_swap_suit(c1 as int, c2 as int, suit1 as int, suit2 as int);
        }
        let d1 = replace_suit(c1, suit1, suit2);
        let d2 = replace_suit(c2, suit1, suit2);
        let key = card_pair_to_index(d1, d2);
        let index = reverse_table[key];
        proof {
            lemma_last_with_key_bounds(hands@, key as int, hands@.len() as int);
        }
        if i < index {
            let partner: u16 = if index == usize::MAX { u16::MAX } else { index as u16 };
            list.push((i as u16, partner));
        }
        i += 1;
    }
    list
}

/// A copy of a list of pairs of positions.
fn copy_pairs(v: &Vec<(u16, u16)>) -> (r: Vec<(u16, u16)>)
    ensures
        r@ == v@,
{
    let mut r: Vec<(u16, u16)> = Vec::with_capacity(v.len());
    let mut i: usize = 0;
    while i < v.len()
        invariant
            i <= v@.len(),
            r@ == v@.subrange(0, i as int),
        decreases v@.len() - i,
    {
        r.push(v[i]);
        i += 1;
        proof {
            assert(r@ =~= v@.subrange(0, i as int));
        }
    }
    proof {
        assert(r@ =~= v@);
    }
    r
}

/// The swap lists after suit `suit1` is folded onto `suit2`: each player's list for `suit1` that
/// is still empty becomes that player's swap list for the two suits; the rest stay as they were.
fn isomorphism_swap_internal(
    swap_list: &[SwapList; 4],
    reverse_table: &mut Vec<usize>,
    suit1: u8,
    suit2: u8,
    private_cards: &PrivateCards,
) -> (r: [SwapList; 4])
    requires
        old(reverse_table)@.len() == NUM_PAIRS,
        hands_wf(private_cards[0]@),
        hands_wf(private_cards[1]@),
        private_cards[0]@.len() <= u16::MAX,
        private_cards[1]@.len() <= u16::MAX,
        suit1 < 4,
        suit2 < 4,
    ensures
        final(reverse_table)@.len() == NUM_PAIRS,
        forall|s: int, p: int|
            0 <= s < 4 && 0 <= p < 2 ==> #[trigger] r[s][p]@ == if s == suit1 && swap_list[s][p]@.len() == 0 {
                swap_list_of(private_cards[p]@, suit1 as int, suit2 as int)
            } else {
                swap_list[s][p]@
            },
{
    let mut lists: [SwapList; 4] = [
        [copy_pairs(&swap_list[0][0]), copy_pairs(&swap_list[0][1])],
        [copy_pairs(&swap_list[1][0]), copy_pairs(&swap_list[1][1])],
        [copy_pairs(&swap_list[2][0]), copy_pairs(&swap_list[2][1])],
        [copy_pairs(&swap_list[3][0]), copy_pairs(&swap_list[3][1])],
    ];
    let s = suit1 as usize;
    let first = if swap_list[s][0].len() > 0 {
        copy_pairs(&swap_list[s][0])
    } else {
        swap_list_for(reverse_table, &private_cards[0], suit1, suit2)
    };
    let second = if swap_list[s][1].len() > 0 {
        copy_pairs(&swap_list[s][1])
    } else {
        swap_list_for(reverse_table, &private_cards[1], suit1, suit2)
    };
    lists[s] = [first, second];
    proof {
        assert forall|t: int, p: int| 0 <= t < 4 && 0 <= p < 2 implies #[trigger] lists[t][p]@ == if t == suit1 && swap_list[t][p]@.len() == 0 {
            swap_list_of(private_cards[p]@, suit1 as int, suit2 as int)
        } else {
            swap_list[t][p]@
        } by {
            assert(lists[t][p]@ =~= if t == suit1 && swap_list[t][p]@.len() == 0 {
                swap_list_of(private_cards[p]@, suit1 as int, suit2 as int)
            } else {
                swap_list[t][p]@
            });
        }
    }
    lists
}

/// Empty swap lists for every suit.
fn empty_swap_lists() -> (r: [SwapList; 4])
    ensures
        forall|s: int, p: int| 0 <= s < 4 && 0 <= p < 2 ==> (#[trigger] r[s][p])@.len() == 0,
{
    [[Vec::new(), Vec::new()], [Vec::new(), Vec::new()], [Vec::new(), Vec::new()], [Vec::new(), Vec::new()]]
}

impl CardConfig {
    /// How suits fold once card `t` is the turn.
    pub open spec fn river_folds(&self, t: int) -> Seq<Option<u8>> {
        self.folds(self.flop_seq().push(t as Card), self.turn != NOT_DEALT)
    }

    /// Whether the river loop visits card `t` as the turn.
    pub open spec fn river_visits(&self, t: int) -> bool {
        self.river == NOT_DEALT && self.river_turn(t)
    }

    /// The folded cards kept for turn suit `ts` once the turn cards below `n` are visited: those
    /// of the first visited turn card of that suit that folds any card, else none.
    pub open spec fn river_cards_upto(&self, ts: int, n: int) -> Seq<Card>
        decreases n,
    {
        if n <= 0 {
            Seq::empty()
        } else {
            let prev = self.river_cards_upto(ts, n - 1);
            if prev.len() == 0 && (n - 1) % 4 == ts && self.river_visits(n - 1) {
                fold_cards(self.flop_seq().push((n - 1) as Card), self.river_folds(n - 1), 52)
            } else {
                prev
            }
        }
    }

    /// Player `p`'s swap list kept for turn suit `ts` and suit `s` once the turn cards below `n`
    /// are visited: the one of the first visited turn card of that suit on which `s` folds and
    /// the list is not empty, else none.
    pub open spec fn river_swaps_upto(
        &self,
        private_cards: &PrivateCards,
        ts: int,
        s: int,
        p: int,
        n: int,
    ) -> Seq<(u16, u16)>
        decreases n,
    {
        if n <= 0 {
            Seq::empty()
        } else {
            let prev = self.river_swaps_upto(private_cards, ts, s, p, n - 1);
            if prev.len() == 0 && (n - 1) % 4 == ts && self.river_visits(n - 1) && self.river_folds(
                n - 1,
            )[s] is Some {
                swap_list_of(private_cards[p]@, s, self.river_folds(n - 1)[s]->0 as int)
            } else {
                prev
            }
        }
    }

    /// Finds which chance outcomes stand for others by suit isomorphism. Two suits can trade
    /// places when both ranges stay the same under the swap and the board holds the same ranks
    /// in each; a higher suit is then folded onto the lowest such suit.
    ///
    /// When the turn is not dealt: the folded turn cards, the position of the stand-in of each
    /// among the cards dealt as themselves, and each player's swap list for each folded suit.
    /// When the river is not dealt, for each possible turn card: the same positions; and by suit
    /// of the turn, the folded cards and swap lists of the first turn card of that suit that has
    /// any.
    pub fn isomorphism(&self, private_cards: &PrivateCards) -> (r: IsomorphismData)
        requires
            self.board_wf(),
            hands_wf(private_cards[0]@),
            hands_wf(private_cards[1]@),
            private_cards[0]@.len() <= u16::MAX,
            private_cards[1]@.len() <= u16::MAX,
        ensures
            self.turn == NOT_DEALT ==> r.0@ == fold_refs(self.flop_seq(), self.folds(self.flop_seq(), false), 52),
            self.turn == NOT_DEALT ==> r.1@ == fold_cards(self.flop_seq(), self.folds(self.flop_seq(), false), 52),
            forall|s: int, p: int|
                0 <= s < 4 && 0 <= p < 2 ==> #[trigger] r.2[s][p]@ == if self.turn == NOT_DEALT && self.folds(self.flop_seq(), false)[s] is Some {
                    swap_list_of(private_cards[p]@, s, self.folds(self.flop_seq(), false)[s]->0 as int)
                } else {
                    Seq::<(u16, u16)>::empty()
                },
            self.turn != NOT_DEALT ==> r.0@.len() == 0 && r.1@.len() == 0,
            r.3@.len() == 52,
            forall|t: int|
                0 <= t < 52 ==> #[trigger] r.3@[t]@ == if self.river == NOT_DEALT && self.river_turn(t) {
                    fold_refs(self.flop_seq().push(t as Card), self.river_folds(t), 52)
                } else {
                    Seq::<u8>::empty()
                },
            forall|ts: int| 0 <= ts < 4 ==> #[trigger] r.4[ts]@ == self.river_cards_upto(ts, 52),
            forall|ts: int, s: int, p: int|
                0 <= ts < 4 && 0 <= s < 4 && 0 <= p < 2 ==> #[trigger] r.5[ts][s][p]@ == self.river_swaps_upto(private_cards, ts, s, p, 52),
    {
        let labels = self.suit_isomorphism();
        let flop = self.flop_vec();
        let mut reverse_table: Vec<usize> = Vec::with_capacity(NUM_PAIRS);
        let mut k: usize = 0;
        while k < NUM_PAIRS
            invariant
                k <= NUM_PAIRS,
                reverse_table@.len() == k,
            decreases NUM_PAIRS - k,
        {
            reverse_table.push(usize::MAX);
            k += 1;
        }

        // turn isomorphism
        let mut isomorphism_ref_turn: Vec<u8> = Vec::new();
        let mut isomorphism_card_turn: Vec<Card> = Vec::new();
        let mut isomorphism_swap_turn = empty_swap_lists();
        if self.turn == NOT_DEALT {
            let folds = self.fold_suits(&labels, &flop, &flop, false);
            let mut suit1: u8 = 1;
            while suit1 < 4
                invariant
                    1 <= suit1 <= 4,
                    self.turn == NOT_DEALT,
                    folds@ == self.folds(self.flop_seq(), false),
                    reverse_table@.len() == NUM_PAIRS,
                    hands_wf(private_cards[0]@),
                    hands_wf(private_cards[1]@),
                    private_cards[0]@.len() <= u16::MAX,
                    private_cards[1]@.len() <= u16::MAX,
                    forall|s: int, p: int|
                        0 <= s < 4 && 0 <= p < 2 ==> #[trigger] isomorphism_swap_turn[s][p]@ == if s < suit1 && folds@[s] is Some {
                            swap_list_of(private_cards[p]@, s, folds@[s]->0 as int)
                        } else {
                            Seq::<(u16, u16)>::empty()
                        },
                decreases 4 - suit1,
            {
                proof {
                    lemma_fold_target_below(self, self.flop_seq(), false, suit1 as int, suit1 as int);
                }
                if let Some(suit2) = folds[suit1 as usize] {
                    isomorphism_swap_turn = isomorphism_swap_internal(
                        &isomorphism_swap_turn,
                        &mut reverse_table,
                        suit1,
                        suit2,
                        private_cards,
                    );
                }
                suit1 += 1;
            }
            proof {
                assert forall|s: int| 0 <= s < 4 implies (#[trigger] folds@[s] matches Some(t) ==> t < s) by {
                    lemma_fold_target_below(self, self.flop_seq(), false, s, s);
                }
            }
            let (refs, cards) = isomorphism_internal(&flop, &folds);
            isomorphism_ref_turn = refs;
            isomorphism_card_turn = cards;
        }

        // river isomorphism
        let mut isomorphism_ref_river: Vec<Vec<u8>> = Vec::with_capacity(52);
        let mut isomorphism_card_river: [Vec<Card>; 4] = [Vec::new(), Vec::new(), Vec::new(), Vec::new()];
        let mut isomorphism_swap_river: [[SwapList; 4]; 4] = [
            empty_swap_lists(),
            empty_swap_lists(),
            empty_swap_lists(),
            empty_swap_lists(),
        ];
        let mut turn: u8 = 0;
        while turn < 52
            invariant
                turn <= 52,
                self.board_wf(),
                labels@ == self.suit_labels(4).0,
                flop@ == self.flop_seq(),
                reverse_table@.len() == NUM_PAIRS,
                hands_wf(private_cards[0]@),
                hands_wf(private_cards[1]@),
                private_cards[0]@.len() <= u16::MAX,
                private_cards[1]@.len() <= u16::MAX,
                isomorphism_ref_river@.len() == turn,
                forall|t: int|
                    0 <= t < turn ==> #[trigger] isomorphism_ref_river@[t]@ == if self.river == NOT_DEALT && self.river_turn(t) {
                        fold_refs(self.flop_seq().push(t as Card), self.river_folds(t), 52)
                    } else {
                        Seq::<u8>::empty()
                    },
                forall|ts: int| 0 <= ts < 4 ==> #[trigger] isomorphism_card_river[ts]@ == self.river_cards_upto(ts, turn as int),
                forall|ts: int, s: int, p: int|
                    0 <= ts < 4 && 0 <= s < 4 && 0 <= p < 2 ==> #[trigger] isomorphism_swap_river[ts][s][p]@
                        == self.river_swaps_upto(private_cards, ts, s, p, turn as int),
            decreases 52 - turn,
        {
            if self.river != NOT_DEALT || self.flop_contains(turn) || (self.turn != NOT_DEALT && self.turn != turn) {
                isomorphism_ref_river.push(Vec::new());
                proof {
                    assert forall|u: int| 0 <= u < 4 implies #[trigger] isomorphism_card_river[u]@
                        == self.river_cards_upto(u, turn as int + 1) by {
                        assert(self.river_cards_upto(u, turn as int + 1) == self.river_cards_upto(u, turn as int));
                    }
                    assert forall|u: int, s: int, p: int| 0 <= u < 4 && 0 <= s < 4 && 0 <= p < 2 implies
                        #[trigger] isomorphism_swap_river[u][s][p]@ == self.river_swaps_upto(private_cards, u, s, p, turn as int + 1) by {
                        assert(self.river_swaps_upto(private_cards, u, s, p, turn as int + 1)
                            == self.river_swaps_upto(private_cards, u, s, p, turn as int));
                    }
                }
            } else {
                let mut board = self.flop_vec();
                board.push(turn);
                let flop_waived = self.turn != NOT_DEALT;
                proof {
                    assert(board@ == self.flop_seq().push(turn as Card));
                }
                let folds = self.fold_suits(&labels, &flop, &board, flop_waived);
                let ts = (turn % 4) as usize;
                let mut suit1: u8 = 1;
                while suit1 < 4
                    invariant
                        1 <= suit1 <= 4,
                        turn < 52,
                        ts == turn % 4,
                        self.river_visits(turn as int),
                        folds@ == self.river_folds(turn as int),
                        board@ == self.flop_seq().push(turn as Card),
                        flop_waived == (self.turn != NOT_DEALT),
                        reverse_table@.len() == NUM_PAIRS,
                        hands_wf(private_cards[0]@),
                        hands_wf(private_cards[1]@),
                        private_cards[0]@.len() <= u16::MAX,
                        private_cards[1]@.len() <= u16::MAX,
                        forall|u: int, s: int, p: int|
                            0 <= u < 4 && 0 <= s < 4 && 0 <= p < 2 ==> #[trigger] isomorphism_swap_river[u][s][p]@
                                == if u == ts && 1 <= s < suit1 {
                                self.river_swaps_upto(private_cards, u, s, p, turn as int + 1)
                            } else {
                                self.river_swaps_upto(private_cards, u, s, p, turn as int)
                            },
                    decreases 4 - suit1,
                {
                    let ghost before = isomorphism_swap_river;
                    if let Some(suit2) = folds[suit1 as usize] {
                        proof {
                            lemma_fold_target_below(self, board@, flop_waived, suit1 as int, suit1 as int);
                        }
                        let updated = isomorphism_swap_internal(
                            &isomorphism_swap_river[ts],
                            &mut reverse_table,
                            suit1,
                            suit2,
                            private_cards,
                        );
                        isomorphism_swap_river[ts] = updated;
                    }
                    proof {
                        assert forall|u: int, s: int, p: int|
                            0 <= u < 4 && 0 <= s < 4 && 0 <= p < 2 implies #[trigger] isomorphism_swap_river[u][s][p]@
                                == if u == ts && 1 <= s < suit1 + 1 {
                                self.river_swaps_upto(private_cards, u, s, p, turn as int + 1)
                            } else {
                                self.river_swaps_upto(private_cards, u, s, p, turn as int)
                            } by {
                            if u == ts && s == suit1 {
                                assert(before[u][s][p]@ == self.river_swaps_upto(private_cards, u, s, p, turn as int));
                            } else {
                                assert(before[u][s][p]@ == isomorphism_swap_river[u][s][p]@);
                            }
                        }
                    }
                    suit1 += 1;
                }
                proof {
                    assert forall|u: int, s: int, p: int| 0 <= u < 4 && 0 <= s < 4 && 0 <= p < 2 implies
                        #[trigger] isomorphism_swap_river[u][s][p]@ == self.river_swaps_upto(private_cards, u, s, p, turn as int + 1) by {
                        if !(u == ts && 1 <= s) {
                            assert(self.fold_target(board@, flop_waived, 0, 0) is None);
                            assert(self.river_swaps_upto(private_cards, u, s, p, turn as int + 1)
                                == self.river_swaps_upto(private_cards, u, s, p, turn as int));
                        }
                    }
                    assert forall|s: int| 0 <= s < 4 implies (#[trigger] folds@[s] matches Some(t) ==> t < s) by {
                        lemma_fold_target_below(self, board@, flop_waived, s, s);
                    }
                }
                let (refs, cards) = isomorphism_internal(&board, &folds);
                isomorphism_ref_river.push(refs);
                let ghost before = isomorphism_card_river;
                if isomorphism_card_river[ts].len() == 0 {
                    isomorphism_card_river[ts] = cards;
                }
                proof {
                    assert forall|u: int| 0 <= u < 4 implies #[trigger] isomorphism_card_river[u]@
                        == self.river_cards_upto(u, turn as int + 1) by {
                        assert(before[u]@ == self.river_cards_upto(u, turn as int));
                    }
                }
            }
            turn += 1;
        }

        (
            isomorphism_ref_turn,
            isomorphism_card_turn,
            isomorphism_swap_turn,
            isomorphism_ref_river,
            isomorphism_card_river,
            isomorphism_swap_river,
        )
    }
}

/// `fold_target` picks a suit it is interchangeable with, and none lower is.
pub proof fn lemma_fold_target_is_lowest(c: &CardConfig, board: Seq<Card>, flop_waived: bool, s1: int, k: int)
    requires
        0 <= k <= 4,
    ensures
        c.fold_target(board, flop_waived, s1, k) matches Some(t) ==> c.interchangeable(board, flop_waived, s1, t as int),
        c.fold_target(board, flop_waived, s1, k) matches Some(t) ==> forall|u: int|
            0 <= u < t ==> !c.interchangeable(board, flop_waived, s1, u),
        c.fold_target(board, flop_waived, s1, k) is None ==> forall|u: int|
            0 <= u < k ==> !c.interchangeable(board, flop_waived, s1, u),
    decreases k,
{
    if k > 0 {
        lemma_fold_target_is_lowest(c, board, flop_waived, s1, k - 1);
    }
}

/// Trading suits `s` and `u` is trading `s` and `t`, then `t` and `u`, then `s` and `t` again.
pub proof fn lemma_swap_suit_compose(x: int, s: int, t: int, u: int)
    requires
        0 <= x,
        0 <= s < 4,
        0 <= t < 4,
        0 <= u < 4,
        s != t,
        t != u,
        s != u,
    ensures
        swap_suit(x, s, u) == swap_suit(swap_suit(swap_suit(x, s, t), t, u), s, t),
{
    let y1 = swap_suit(x, s, t);
    lemma_swap_suit_parts(x, s, t);
    let y2 = swap_suit(y1, t, u);
    lemma_swap_suit_parts(y1, t, u);
    lemma_swap_suit_parts(y2, s, t);
    lemma_swap_suit_parts(x, s, u);
    let y3 = swap_suit(y2, s, t);
    let z = swap_suit(x, s, u);
    assert(y3 / 4 == z / 4);
    assert(y3 % 4 == z % 4);
}

/// Trading two suits keeps the rank and moves the suit.
proof fn lemma_swap_suit_parts(x: int, s: int, t: int)
    requires
        0 <= x,
        0 <= s < 4,
        0 <= t < 4,
    ensures
        swap_suit(x, s, t) >= 0,
        swap_suit(x, s, t) / 4 == x / 4,
        swap_suit(x, s, t) % 4 == if x % 4 == s {
            t
        } else if x % 4 == t {
            s
        } else {
            x % 4
        },
{
}

/// What board symmetry says of one board card.
proof fn lemma_symmetric_at(board: Seq<Card>, s: int, t: int, i: int)
    requires
        board_symmetric(board, s, t),
        0 <= i < board.len(),
    ensures
        board.contains(swap_suit(board[i] as int, s, t) as Card),
{
    reveal(board_symmetric);
}

/// A board card stays on the board when two suits trade places.
proof fn lemma_symmetric_card(board: Seq<Card>, s: int, t: int, x: int) -> (j: int)
    requires
        forall|i: int| 0 <= i < board.len() ==> is_card(#[trigger] board[i] as int),
        board_symmetric(board, s, t),
        board.contains(x as Card),
        is_card(x),
        0 <= s < 4,
        0 <= t < 4,
    ensures
        0 <= j < board.len(),
        board[j] as int == swap_suit(x, s, t),
        is_card(swap_suit(x, s, t)),
{
    let i = choose|i: int| 0 <= i < board.len() && board[i] == x as Card;
    lemma_symmetric_at(board, s, t, i);
    lemma_swap_suit_parts(x, s, t);
    let y = swap_suit(x, s, t);
    let j = choose|j: int| 0 <= j < board.len() && board[j] == y as Card;
    j
}

/// Symmetry of the board under two overlapping suit swaps gives symmetry under the third.
#[verifier::rlimit(30)]
proof fn lemma_board_symmetric_compose(board: Seq<Card>, s: int, t: int, u: int)
    requires
        forall|i: int| 0 <= i < board.len() ==> is_card(#[trigger] board[i] as int),
        0 <= s < 4,
        0 <= t < 4,
        0 <= u < 4,
        s != t,
        t != u,
        s != u,
        board_symmetric(board, s, t),
        board_symmetric(board, t, u),
    ensures
        board_symmetric(board, s, u),
{
    assert forall|i: int| 0 <= i < board.len() implies board.contains(swap_suit(#[trigger] board[i] as int, s, u) as Card) by {
        let x = board[i] as int;
        assert(board.contains(x as Card));
        let j1 = lemma_symmetric_card(board, s, t, x);
        let j2 = lemma_symmetric_card(board, t, u, board[j1] as int);
        let j3 = lemma_symmetric_card(board, s, t, board[j2] as int);
        lemma_swap_suit_compose(x, s, t, u);
        assert(board[j3] == swap_suit(x, s, u) as Card);
    }
    reveal(board_symmetric);
}

/// Collapsing chance outcomes is sound: the stand-in of every folded card is a lower card that is
/// itself dealt as a chance outcome, neither on the board nor folded.
pub proof fn lemma_stand_in_is_representative(c: &CardConfig, board: Seq<Card>, flop_waived: bool, card: int)
    requires
        forall|i: int| 0 <= i < board.len() ==> is_card(#[trigger] board[i] as int),
        forall|i: int| 0 <= i < 3 ==> is_card(#[trigger] c.flop_seq()[i] as int),
        is_card(card),
        is_folded(board, c.folds(board, flop_waived), card),
    ensures
        stand_in(c.folds(board, flop_waived), card) < card,
        is_representative(board, c.folds(board, flop_waived), stand_in(c.folds(board, flop_waived), card)),
{
    reveal(CardConfig::interchangeable);
    let f = c.folds(board, flop_waived);
    let s = card % 4;
    let t = f[s]->0 as int;
    lemma_fold_target_below(c, board, flop_waived, s, s);
    lemma_fold_target_is_lowest(c, board, flop_waived, s, s);
    let x = stand_in(f, card);
    assert(x == card - s + t);
    lemma_swap_suit(card, card, s, t);
    assert(swap_suit(x, s, t) == card);
    if board.contains(x as Card) {
        let j = lemma_symmetric_card(board, s, t, x);
        assert(board[j] as int == card);
        assert(false);
    }
    if f[t] is Some {
        let u = f[t]->0 as int;
        lemma_fold_target_below(c, board, flop_waived, t, t);
        lemma_fold_target_is_lowest(c, board, flop_waived, t, t);
        lemma_board_symmetric_compose(board, s, t, u);
        if !flop_waived {
            lemma_board_symmetric_compose(c.flop_seq(), s, t, u);
        }
        assert(c.interchangeable(board, flop_waived, s, u));
        assert(false);
    }
}

} // verus!
