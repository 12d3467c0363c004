//! Ranges: a weight for each pair of hole cards, and whether it stays the same when two suits
//! trade places.

use vstd::prelude::*;

use crate::card::{card_pair_to_index, index_to_card_pair, is_card, lemma_pair_index_bounds, pair_index, Card, NUM_PAIRS};

verus! {

impl Clone for Range {
    /// A range with the same weights.
    fn clone(&self) -> (r: Range)
        ensures
            r@ == self@,
    {
        self.duplicate()
    }
}

impl PartialEq for Range {
    /// Whether the two ranges give every hand the same weight.
    fn eq(&self, o: &Range) -> (r: bool) {
        proof {
            use_type_invariant(self);
            use_type_invariant(o);
        }
        let mut i: usize = 0;
        while i < NUM_PAIRS
            invariant
                i <= NUM_PAIRS,
                self.data@.len() == NUM_PAIRS,
                o.data@.len() == NUM_PAIRS,
                forall|k: int| 0 <= k < i ==> self.data@[k] == o.data@[k],
            decreases NUM_PAIRS - i,
        {
            if self.data[i] != o.data[i] {
                return false;
            }
            i += 1;
        }
        proof {
            assert(self.data@ =~= o.data@);
        }
        true
    }
}

impl vstd::std_specs::cmp::PartialEqSpecImpl for Range {
    open spec fn obeys_eq_spec() -> bool {
        true
    }

    open spec fn eq_spec(&self, o: &Range) -> bool {
        self@ == o@
    }
}

impl Eq for Range {
}

impl Default for Range {
    /// The empty range.
    fn default() -> (r: Range)
        ensures
            r@ == Seq::new(NUM_PAIRS as nat, |i: int| 0u32),
    {
        Range::new()
    }
}

/// The card that `card` becomes when suits `s1` and `s2` trade places.
pub open spec fn swap_suit(card: int, s1: int, s2: int) -> int {
    if card % 4 == s1 {
        card - s1 + s2
    } else if card % 4 == s2 {
        card + s1 - s2
    } else {
        card
    }
}

/// The index of a pair of distinct cards given in either order.
pub open spec fn pair_index_unordered(c1: int, c2: int) -> int {
    if c1 < c2 {
        pair_index(c1, c2)
    } else {
        pair_index(c2, c1)
    }
}

/// Whether the weights are unchanged when suits `s1` and `s2` trade places.
pub open spec fn weights_suit_isomorphic(w: Seq<u32>, s1: int, s2: int) -> bool {
    forall|c1: int, c2: int|
        #![trigger w[pair_index(c1, c2)], swap_suit(c1, s1, s2), swap_suit(c2, s1, s2)]
        0 <= c1 < c2 < 52 ==> w[pair_index(c1, c2)] == w[pair_index_unordered(
            swap_suit(c1, s1, s2),
            swap_suit(c2, s1, s2),
        )]
}

/// Trading two suits keeps a card a card, and keeps distinct cards distinct.
pub proof fn lemma_swap_suit(c1: int, c2: int, s1: int, s2: int)
    requires
        is_card(c1),
        is_card(c2),
        0 <= s1 < 4,
        0 <= s2 < 4,
    ensures
        is_card(swap_suit(c1, s1, s2)),
        swap_suit(c1, s1, s2) / 4 == c1 / 4,
        swap_suit(swap_suit(c1, s1, s2), s1, s2) == c1,
        c1 != c2 ==> swap_suit(c1, s1, s2) != swap_suit(c2, s1, s2),
{
}

/// The hands a player may hold, with a weight for each of the 1326 pairs of hole cards.
///
/// Each weight is held as the bit pattern of a single-precision number in `[0, 1]`; weights
/// are only ever compared for equality.
#[derive(Debug)]
pub struct Range {
    data: Vec<u32>,
}

impl View for Range {
    type V = Seq<u32>;

    closed spec fn view(&self) -> Seq<u32> {
        self.data@
    }
}

impl Range {
    #[verifier::type_invariant]
    spec fn wf(self) -> bool {
        self.data@.len() == NUM_PAIRS
    }

    /// The empty range: every weight is zero.
    pub fn new() -> (r: Range)
        ensures
            r@ == Seq::new(NUM_PAIRS as nat, |i: int| 0u32),
    {
        let mut data: Vec<u32> = Vec::new();
        let mut i: usize = 0;
        while i < NUM_PAIRS
            invariant
                i <= NUM_PAIRS,
                data@ == Seq::new(i as nat, |j: int| 0u32),
            decreases NUM_PAIRS - i,
        {
            data.push(0);
            i += 1;
            proof {
                assert(data@ =~= Seq::new(i as nat, |j: int| 0u32));
            }
        }
        Range { data }
    }

    /// A range from its 1326 weights, indexed as `card_pair_to_index` numbers the pairs.
    pub fn from_raw_data(data: Vec<u32>) -> (r: Result<Range, String>)
        ensures
            r is Ok <==> data@.len() == NUM_PAIRS,
            r matches Ok(range) ==> range@ == data@,
    {
        if data.len() == NUM_PAIRS {
            Ok(Range { data })
        } else {
            Err(crate::card::invalid_value_message("number of weights", data.len() as u64))
        }
    }

    /// The weights, indexed as `card_pair_to_index` numbers the pairs.
    pub fn raw_data(&self) -> (r: &[u32])
        ensures
            r@ == self@,
    {
        self.data.as_slice()
    }

    /// A range with the same weights.
    pub fn duplicate(&self) -> (r: Range)
        ensures
            r@ == self@,
    {
        proof {
            use_type_invariant(self);
        }
        let data = self.data.clone();
        proof {
            assert(data@ =~= self.data@);
        }
        Range { data }
    }

    /// The weight of the hand made of two distinct cards.
    pub fn get_weight_by_cards(&self, card1: Card, card2: Card) -> (r: u32)
        requires
            is_card(card1 as int),
            is_card(card2 as int),
            card1 != card2,
        ensures
            r == self@[pair_index_unordered(card1 as int, card2 as int)],
    {
        proof {
            use_type_invariant(self);
        }
        self.data[card_pair_to_index(card1, card2)]
    }

    /// Sets the weight of the hand made of two distinct cards.
    pub fn set_weight_by_cards(&mut self, card1: Card, card2: Card, weight: u32)
        requires
            is_card(card1 as int),
            is_card(card2 as int),
            card1 != card2,
        ensures
            final(self)@ == old(self)@.update(pair_index_unordered(card1 as int, card2 as int), weight),
    {
        proof {
            use_type_invariant(&*self);
        }
        let index = card_pair_to_index(card1, card2);
        let mut data = self.data.clone();
        data.set(index, weight);
        proof {
            assert(data@ =~= old(self)@.update(index as int, weight));
        }
        *self = Range { data };
    }

    /// Whether the weights stay the same when suits `suit1` and `suit2` trade places.
    pub fn is_suit_isomorphic(&self, suit1: u8, suit2: u8) -> (r: bool)
        requires
            suit1 < 4,
            suit2 < 4,
        ensures
            r == weights_suit_isomorphic(self@, suit1 as int, suit2 as int),
    {
        proof {
            use_type_invariant(self);
        }
        let mut index: usize = 0;
        while index < NUM_PAIRS
            invariant
                index <= NUM_PAIRS,
                self@.len() == NUM_PAIRS,
                suit1 < 4,
                suit2 < 4,
                forall|c1: int, c2: int|
                    0 <= c1 < c2 < 52 && pair_index(c1, c2) < index ==> #[trigger] self@[pair_index(c1, c2)]
                        == self@[pair_index_unordered(
                        swap_suit(c1, suit1 as int, suit2 as int),
                        swap_suit(c2, suit1 as int, suit2 as int),
                    )],
            decreases NUM_PAIRS - index,
        {
            let (card1, card2) = index_to_card_pair(index);
            let swapped1 = replace_suit(card1, suit1, suit2);
            let swapped2 = replace_suit(card2, suit1, suit2);
            proof {
                lemma_swap_suit(card1 as int, card2 as int, suit1 as int, suit2 as int);
            }
            let other = card_pair_to_index(swapped1, swapped2);
            if self.data[index] != self.data[other] {
                proof {
                    lemma_pair_index_bounds(card1 as int, card2 as int);
                    assert(self@[pair_index(card1 as int, card2 as int)] != self@[pair_index_unordered(
                        swap_suit(card1 as int, suit1 as int, suit2 as int),
                        swap_suit(card2 as int, suit1 as int, suit2 as int),
                    )]);
                }
                return false;
            }
            proof {
                assert forall|c1: int, c2: int|
                    0 <= c1 < c2 < 52 && pair_index(c1, c2) < index + 1 implies #[trigger] self@[pair_index(c1, c2)]
                        == self@[pair_index_unordered(
                        swap_suit(c1, suit1 as int, suit2 as int),
                        swap_suit(c2, suit1 as int, suit2 as int),
                    )] by {
                    if pair_index(c1, c2) == index {
                        crate::card::lemma_pair_index_injective(c1, c2, card1 as int, card2 as int);
                    }
                }
            }
            index += 1;
        }
        proof {
            assert forall|c1: int, c2: int|
                #![trigger self@[pair_index(c1, c2)], swap_suit(c1, suit1 as int, suit2 as int), swap_suit(c2, suit1 as int, suit2 as int)]
                0 <= c1 < c2 < 52 implies self@[pair_index(c1, c2)] == self@[pair_index_unordered(
                    swap_suit(c1, suit1 as int, suit2 as int),
                    swap_suit(c2, suit1 as int, suit2 as int),
                )] by {
                lemma_pair_index_bounds(c1, c2);
            }
        }
        true
    }
}

/// The card that `card` becomes when suits `suit1` and `suit2` trade places.
pub fn replace_suit(card: Card, suit1: u8, suit2: u8) -> (r: Card)
    requires
        is_card(card as int),
        suit1 < 4,
        suit2 < 4,
    ensures
        r as int == swap_suit(card as int, suit1 as int, suit2 as int),
        is_card(r as int),
{
    if card % 4 == suit1 {
        card - suit1 + suit2
    } else if card % 4 == suit2 {
        card + suit1 - suit2
    } else {
        card
    }
}

} // verus!
