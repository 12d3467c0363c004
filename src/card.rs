//! Cards, their names, pairs of hole cards and the card configuration of a hand: the ranges
//! and the board, with the hands that each board leaves possible.

use vstd::prelude::*;

use crate::range::Range;
use vstd::multiset::Multiset;

verus! {

/// A card, `4 * rank + suit` with `rank` 0 (deuce) to 12 (ace) and `suit` 0 (club),
/// 1 (diamond), 2 (heart), 3 (spade). `NOT_DEALT` stands for a card that is not dealt yet.
pub type Card = u8;

/// The value that marks a card that has not been dealt yet.
pub const NOT_DEALT: Card = 255;

/// Whether `c` names one of the 52 cards.
pub open spec fn is_card(c: int) -> bool {
    0 <= c < 52
}

/// The characters of the ranks, deuce first.
pub open spec fn rank_chars() -> Seq<char> {
    seq!['2', '3', '4', '5', '6', '7', '8', '9', 'T', 'J', 'Q', 'K', 'A']
}

/// The characters of the suits: club, diamond, heart, spade.
pub open spec fn suit_chars() -> Seq<char> {
    seq!['c', 'd', 'h', 's']
}

/// The two-character name of card `c`, such as `Td` or `2c`.
pub open spec fn card_text(c: int) -> Seq<char> {
    seq![rank_chars()[c / 4], suit_chars()[c % 4]]
}

/// The rank that a character names; ranks above nine are read in either case.
pub open spec fn rank_of_char(ch: char) -> Option<int> {
    if '2' <= ch <= '9' {
        Some(ch as int - '2' as int)
    } else if ch == 'T' || ch == 't' {
        Some(8)
    } else if ch == 'J' || ch == 'j' {
        Some(9)
    } else if ch == 'Q' || ch == 'q' {
        Some(10)
    } else if ch == 'K' || ch == 'k' {
        Some(11)
    } else if ch == 'A' || ch == 'a' {
        Some(12)
    } else {
        None
    }
}

/// The suit that a character names.
pub open spec fn suit_of_char(ch: char) -> Option<int> {
    if ch == 'c' {
        Some(0)
    } else if ch == 'd' {
        Some(1)
    } else if ch == 'h' {
        Some(2)
    } else if ch == 's' {
        Some(3)
    } else {
        None
    }
}

/// The card that a two-character text names, if any.
pub open spec fn card_of_text(s: Seq<char>) -> Option<int> {
    if s.len() == 2 && rank_of_char(s[0]) is Some && suit_of_char(s[1]) is Some {
        Some(4 * rank_of_char(s[0])->0 + suit_of_char(s[1])->0)
    } else {
        None
    }
}

/// Relies on String::push: the character is appended at the end.
#[verifier::external_body]
pub(crate) fn push_char(s: &mut String, c: char)
    ensures
        final(s)@ == old(s)@.push(c),
{
    s.push(c)
}

/// Relies on the format macro: a message that names the rejected value.
#[verifier::external_body]
pub(crate) fn invalid_value_message(what: &str, value: u64) -> (r: String)
    ensures
        r@.len() > 0,
{
    format!("Invalid {what}: {value}")
}

/// Checks that `card` names one of the 52 cards.
pub fn check_card(card: Card) -> (r: Result<(), String>)
    ensures
        r is Ok <==> is_card(card as int),
{
    if card < 52 {
        Ok(())
    } else {
        Err(invalid_value_message("card", card as u64))
    }
}

/// The character of a rank: `12` gives `A`, `11` gives `K`, ..., `0` gives `2`.
pub fn rank_to_char(rank: u8) -> (r: Result<char, String>)
    ensures
        r is Ok <==> rank < 13,
        r matches Ok(ch) ==> ch == rank_chars()[rank as int],
{
    match rank {
        12 => Ok('A'),
        11 => Ok('K'),
        10 => Ok('Q'),
        9 => Ok('J'),
        8 => Ok('T'),
        7 => Ok('9'),
        6 => Ok('8'),
        5 => Ok('7'),
        4 => Ok('6'),
        3 => Ok('5'),
        2 => Ok('4'),
        1 => Ok('3'),
        0 => Ok('2'),
        _ => Err(invalid_value_message("input", rank as u64)),
    }
}

/// The character of a suit: `0` gives `c`, `1` `d`, `2` `h`, `3` `s`.
pub fn suit_to_char(suit: u8) -> (r: Result<char, String>)
    ensures
        r is Ok <==> suit < 4,
        r matches Ok(ch) ==> ch == suit_chars()[suit as int],
{
    match suit {
        0 => Ok('c'),
        1 => Ok('d'),
        2 => Ok('h'),
        3 => Ok('s'),
        _ => Err(invalid_value_message("input", suit as u64)),
    }
}

/// The two-character name of a card, such as `As` for 51; an error for an undealt card.
pub fn card_to_string(card: Card) -> (r: Result<String, String>)
    ensures
        r is Ok <==> is_card(card as int),
        r matches Ok(s) ==> s@ == card_text(card as int),
{
    check_card(card)?;
    let rank = card / 4;
    let suit = card % 4;
    let rank_char = rank_to_char(rank)?;
    let suit_char = suit_to_char(suit)?;
    let mut s = String::new();
    push_char(&mut s, rank_char);
    push_char(&mut s, suit_char);
    proof {
        assert(s@ =~= card_text(card as int));
    }
    Ok(s)
}

/// The value that a card takes when none is given.
pub fn not_dealt() -> (r: Card)
    ensures
        r == NOT_DEALT,
{
    NOT_DEALT
}

/// The rank that a character names.
fn char_to_rank(c: char) -> (r: Result<u8, String>)
    ensures
        r is Ok <==> rank_of_char(c) is Some,
        r matches Ok(v) ==> v as int == rank_of_char(c)->0 && v < 13,
{
    match c {
        'A' | 'a' => Ok(12),
        'K' | 'k' => Ok(11),
        'Q' | 'q' => Ok(10),
        'J' | 'j' => Ok(9),
        'T' | 't' => Ok(8),
        '9' => Ok(7),
        '8' => Ok(6),
        '7' => Ok(5),
        '6' => Ok(4),
        '5' => Ok(3),
        '4' => Ok(2),
        '3' => Ok(1),
        '2' => Ok(0),
        _ => Err(invalid_value_message("rank", c as u64)),
    }
}

/// The suit that a character names.
fn char_to_suit(c: char) -> (r: Result<u8, String>)
    ensures
        r is Ok <==> suit_of_char(c) is Some,
        r matches Ok(v) ==> v as int == suit_of_char(c)->0 && v < 4,
{
    match c {
        'c' => Ok(0),
        'd' => Ok(1),
        'h' => Ok(2),
        's' => Ok(3),
        _ => Err(invalid_value_message("suit", c as u64)),
    }
}

/// Reads a card from its two-character name (`Td`, `2c`, `As`); the rank may be lower case.
pub fn card_from_str(s: &str) -> (r: Result<Card, String>)
    ensures
        r is Ok <==> card_of_text(s@) is Some,
        r matches Ok(c) ==> c as int == card_of_text(s@)->0 && is_card(c as int),
{
    let n = s.unicode_len();
    if n != 2 {
        return Err(invalid_value_message("card length", n as u64));
    }
    let rank = char_to_rank(s.get_char(0))?;
    let suit = char_to_suit(s.get_char(1))?;
    Ok(4 * rank + suit)
}

/// Reading the name of a card gives the card back.
pub proof fn lemma_card_text_round_trip(c: int)
    requires
        is_card(c),
    ensures
        card_of_text(card_text(c)) == Some(c),
{
    let t = card_text(c);
    assert(t.len() == 2);
    assert(rank_of_char(t[0]) == Some(c / 4));
    assert(suit_of_char(t[1]) == Some(c % 4));
}

/// The index of the pair of distinct cards `c1 < c2`: pairs are numbered by their lower card,
/// then their higher one, so that 2d2c is `0`, 2h2c is `1`, ..., AsAh is `1325`.
pub open spec fn pair_index(c1: int, c2: int) -> int {
    c1 * (101 - c1) / 2 + c2 - 1
}

/// The number of unordered pairs of distinct cards.
pub const NUM_PAIRS: usize = 1326;

/// Where pair indices fall: the pairs with lower card `c1` take the indices from
/// `pair_index(c1, c1 + 1)` to `pair_index(c1, 51)`, and the next lower card goes on from there.
pub proof fn lemma_pair_index_bounds(c1: int, c2: int)
    requires
        0 <= c1 < c2 < 52,
    ensures
        0 <= pair_index(c1, c2) < NUM_PAIRS,
        pair_index(c1, c2) >= pair_index(c1, c1 + 1),
        c1 < 50 ==> pair_index(c1 + 1, c1 + 2) == pair_index(c1, 51) + 1,
{
    assert(0 <= c1 * (101 - c1) <= 2550) by (nonlinear_arith)
        requires
            0 <= c1 <= 50,
    ;
    assert((c1 + 1) * (100 - c1) == c1 * (101 - c1) + 100 - 2 * c1) by (nonlinear_arith);
    assert(c1 * (101 - c1) / 2 <= 1275);
    if c1 < 50 {
        assert((c1 * (101 - c1) + 100 - 2 * c1) / 2 == c1 * (101 - c1) / 2 + 50 - c1);
    }
}

/// Two pairs of cards have the same index only if they are the same pair.
pub proof fn lemma_pair_index_injective(a1: int, a2: int, b1: int, b2: int)
    requires
        0 <= a1 < a2 < 52,
        0 <= b1 < b2 < 52,
        pair_index(a1, a2) == pair_index(b1, b2),
    ensures
        a1 == b1 && a2 == b2,
{
    if a1 < b1 {
        lemma_pair_index_first_below(a1, a2, b1, b2);
    } else if b1 < a1 {
        lemma_pair_index_first_below(b1, b2, a1, a2);
    }
}

/// A pair with a lower first card comes first.
proof fn lemma_pair_index_first_below(a1: int, a2: int, b1: int, b2: int)
    requires
        0 <= a1 < a2 < 52,
        0 <= b1 < b2 < 52,
        a1 < b1,
    ensures
        pair_index(a1, a2) < pair_index(b1, b2),
    decreases b1 - a1,
{
    lemma_pair_index_bounds(a1, a2);
    lemma_pair_index_bounds(b1, b2);
    lemma_pair_index_bounds(a1, 51);
    if a1 + 1 < b1 {
        lemma_pair_index_first_below(a1 + 1, a1 + 2, b1, b2);
    }
}

/// The index of a pair of distinct cards, given in either order.
pub fn card_pair_to_index(card1: Card, card2: Card) -> (r: usize)
    requires
        is_card(card1 as int),
        is_card(card2 as int),
        card1 != card2,
    ensures
        card1 < card2 ==> r == pair_index(card1 as int, card2 as int),
        card2 < card1 ==> r == pair_index(card2 as int, card1 as int),
        r < NUM_PAIRS,
{
    let (lo, hi) = if card1 > card2 {
        (card2, card1)
    } else {
        (card1, card2)
    };
    proof {
        lemma_pair_index_bounds(lo as int, hi as int);
        assert(lo as int * (101 - lo as int) <= 2550) by (nonlinear_arith)
            requires
                0 <= lo <= 50,
        ;
    }
    let lo = lo as usize;
    lo * (101 - lo) / 2 + hi as usize - 1
}

/// The pair of cards with the given index, lower card first.
pub fn index_to_card_pair(index: usize) -> (r: (Card, Card))
    requires
        index < NUM_PAIRS,
    ensures
        r.0 < r.1 < 52,
        pair_index(r.0 as int, r.1 as int) == index,
{
    let mut card1: usize = 0;
    proof {
        lemma_pair_index_bounds(0, 1);
    }
    loop
        invariant
            card1 <= 50,
            index < NUM_PAIRS,
            index >= pair_index(card1 as int, card1 as int + 1),
        ensures
            card1 <= 50,
            pair_index(card1 as int, card1 as int + 1) <= index <= pair_index(card1 as int, 51),
        decreases 50 - card1,
    {
        proof {
            lemma_pair_index_bounds(card1 as int, 51);
        }
        if card1 == 50 {
            assert(50 * (101 - 50int) / 2 == 1275) by (nonlinear_arith);
            assert(pair_index(50, 51) == 1325);
            break;
        }
        proof {
            assert((card1 as int + 1) * (100 - card1 as int) <= 2550) by (nonlinear_arith)
                requires
                    0 <= card1 < 50,
            ;
        }
        let next = (card1 + 1) * (100 - card1) / 2 + card1 + 1;
        if index < next {
            break;
        }
        card1 += 1;
    }
    proof {
        assert(card1 as int * (101 - card1 as int) <= 2550) by (nonlinear_arith)
            requires
                0 <= card1 <= 50,
        ;
    }
    let card2 = index + 1 - card1 * (101 - card1) / 2;
    (card1 as Card, card2 as Card)
}

/// The hole cards that each player may hold, as pairs of cards.
pub type PrivateCards = [Vec<(Card, Card)>; 2];

/// For each player, positions in that player's list of hole cards.
pub type Indices = [Vec<u16>; 2];

/// Whether a hand of hole cards leaves the board card `b` free; an undealt card conflicts with
/// nothing.
pub open spec fn avoids(hand: (Card, Card), b: Card) -> bool {
    b == NOT_DEALT || (hand.0 != b && hand.1 != b)
}

/// The positions, in increasing order, of the first `n` hands that share no card with the
/// board cards `b1` and `b2`.
pub open spec fn live_indices(hands: Seq<(Card, Card)>, b1: Card, b2: Card, n: int) -> Seq<u16>
    decreases n,
{
    if n <= 0 {
        Seq::empty()
    } else if avoids(hands[n - 1], b1) && avoids(hands[n - 1], b2) {
        live_indices(hands, b1, b2, n - 1).push((n - 1) as u16)
    } else {
        live_indices(hands, b1, b2, n - 1)
    }
}

/// The positions of all the hands that share no card with the board cards `b1` and `b2`.
pub open spec fn live(hands: Seq<(Card, Card)>, b1: Card, b2: Card) -> Seq<u16> {
    live_indices(hands, b1, b2, hands.len() as int)
}

/// The positions `0, 1, ..., n - 1`.
pub open spec fn all_indices(n: int) -> Seq<u16> {
    Seq::new(n as nat, |i: int| i as u16)
}

/// The positions of the hands that share no card with the board cards `board1` and `board2`.
fn live_hand_indices(hands: &Vec<(Card, Card)>, board1: Card, board2: Card) -> (r: Vec<u16>)
    requires
        hands@.len() <= u16::MAX,
    ensures
        r@ == live(hands@, board1, board2),
{
    let mut ret: Vec<u16> = Vec::with_capacity(hands.len());
    let mut i: usize = 0;
    while i < hands.len()
        invariant
            i <= hands@.len() <= u16::MAX,
            ret@ == live_indices(hands@, board1, board2, i as int),
        decreases hands@.len() - i,
    {
        let (c1, c2) = hands[i];
        if (board1 == NOT_DEALT || (c1 != board1 && c2 != board1)) && (board2 == NOT_DEALT || (
        c1 != board2 && c2 != board2)) {
            ret.push(i as u16);
        }
        i += 1;
    }
    ret
}

/// The card configuration: the range of each player and the board.
///
/// The flop holds three distinct cards. The turn and the river are each a card or
/// `NOT_DEALT`, the river only when the turn is dealt, and no card appears twice.
#[derive(Clone, Debug)]
pub struct CardConfig {
    /// The initial range of each player, out of position first.
    pub range: [Range; 2],
    /// The flop cards.
    pub flop: [Card; 3],
    /// The turn card, or `NOT_DEALT`.
    pub turn: Card,
    /// The river card, or `NOT_DEALT`.
    pub river: Card,
}

impl Default for CardConfig {
    /// Empty ranges and no card dealt.
    fn default() -> (r: CardConfig)
        ensures
            r.range[0]@ == Seq::new(NUM_PAIRS as nat, |i: int| 0u32),
            r.range[1]@ == Seq::new(NUM_PAIRS as nat, |i: int| 0u32),
            r.flop@ == seq![NOT_DEALT, NOT_DEALT, NOT_DEALT],
            r.turn == NOT_DEALT,
            r.river == NOT_DEALT,
    {
        let r = CardConfig {
            range: [Range::new(), Range::new()],
            flop: [NOT_DEALT; 3],
            turn: NOT_DEALT,
            river: NOT_DEALT,
        };
        proof {
            assert(r.flop@ =~= seq![NOT_DEALT, NOT_DEALT, NOT_DEALT]);
        }
        r
    }
}

impl CardConfig {
    /// The number of board cards dealt.
    pub open spec fn num_cards(&self) -> int {
        3 + (if self.turn != NOT_DEALT { 1int } else { 0 }) + (if self.river != NOT_DEALT {
            1int
        } else {
            0
        })
    }

    /// Whether card `c` lies on the flop.
    pub open spec fn flop_has(&self, c: int) -> bool {
        self.flop[0] == c || self.flop[1] == c || self.flop[2] == c
    }

    /// Whether the board is well formed: three distinct flop cards, and a turn and a river
    /// that are each a new card or undealt, the river only after the turn.
    pub open spec fn board_wf(&self) -> bool {
        &&& is_card(self.flop[0] as int) && is_card(self.flop[1] as int) && is_card(self.flop[2] as int)
        &&& self.flop[0] != self.flop[1] && self.flop[0] != self.flop[2] && self.flop[1] != self.flop[2]
        &&& self.turn == NOT_DEALT || (is_card(self.turn as int) && !self.flop_has(self.turn as int))
        &&& self.river == NOT_DEALT || (self.turn != NOT_DEALT && is_card(self.river as int)
            && !self.flop_has(self.river as int) && self.river != self.turn)
    }

    /// Whether `b` can come as the turn: it is not on the flop, it is the turn if that is
    /// dealt, and the river is not dealt.
    pub open spec fn turn_possible(&self, b: int) -> bool {
        !self.flop_has(b) && (self.turn == NOT_DEALT || self.turn == b) && self.river == NOT_DEALT
    }

    /// Whether `b1` and `b2` can come as turn and river, in some order: neither is on the
    /// flop, and each dealt card among turn and river is one of them.
    pub open spec fn river_possible(&self, b1: int, b2: int) -> bool {
        &&& !self.flop_has(b1) && !self.flop_has(b2)
        &&& self.turn == NOT_DEALT || b1 == self.turn || b2 == self.turn
        &&& self.river == NOT_DEALT || b1 == self.river || b2 == self.river
    }

    /// Whether card `c` lies on the flop.
    pub(crate) fn flop_contains(&self, c: Card) -> (r: bool)
        ensures
            r == self.flop_has(c as int),
    {
        self.flop[0] == c || self.flop[1] == c || self.flop[2] == c
    }

    /// For each state of the board, the positions of each player's hands that share no card
    /// with it: on the flop (all hands, when the turn is not dealt), for each turn card, and for
    /// each pair of turn and river cards at its `card_pair_to_index` index. An entry for a
    /// board that cannot come is empty.
    pub fn valid_indices(&self, private_cards: &PrivateCards) -> (r: (Indices, Vec<Indices>, Vec<Indices>))
        requires
            private_cards[0]@.len() <= u16::MAX,
            private_cards[1]@.len() <= u16::MAX,
        ensures
            forall|p: int|
                0 <= p < 2 ==> #[trigger] r.0[p]@ == (if self.turn == NOT_DEALT {
                    all_indices(private_cards[p]@.len() as int)
                } else {
                    Seq::<u16>::empty()
                }),
            r.1@.len() == 52,
            forall|b: int, p: int|
                0 <= b < 52 && 0 <= p < 2 ==> #[trigger] r.1@[b][p]@ == (if self.turn_possible(b) {
                    live(private_cards[p]@, b as u8, NOT_DEALT)
                } else {
                    Seq::<u16>::empty()
                }),
            r.2@.len() == NUM_PAIRS,
            forall|b1: int, b2: int, p: int|
                0 <= b1 < b2 < 52 && 0 <= p < 2 ==> #[trigger] r.2@[pair_index(b1, b2)][p]@ == (
                if self.river_possible(b1, b2) {
                    live(private_cards[p]@, b1 as u8, b2 as u8)
                } else {
                    Seq::<u16>::empty()
                }),
    {
        let ret_flop: Indices = if self.turn == NOT_DEALT {
            [index_range(private_cards[0].len()), index_range(private_cards[1].len())]
        } else {
            [Vec::new(), Vec::new()]
        };
        proof {
            assert forall|p: int| 0 <= p < 2 implies #[trigger] ret_flop[p]@ == (if self.turn == NOT_DEALT {
                all_indices(private_cards[p]@.len() as int)
            } else {
                Seq::<u16>::empty()
            }) by {
                if p == 0 {
                } else {
                }
            }
        }

        let mut ret_turn: Vec<Indices> = Vec::with_capacity(52);
        let mut board: u8 = 0;
        while board < 52
            invariant
                board <= 52,
                ret_turn@.len() == board,
                private_cards[0]@.len() <= u16::MAX,
                private_cards[1]@.len() <= u16::MAX,
                forall|b: int, p: int|
                    0 <= b < board && 0 <= p < 2 ==> #[trigger] ret_turn@[b][p]@ == (if self.turn_possible(b) {
                        live(private_cards[p]@, b as u8, NOT_DEALT)
                    } else {
                        Seq::<u16>::empty()
                    }),
            decreases 52 - board,
        {
            if !self.flop_contains(board) && (self.turn == NOT_DEALT || self.turn == board)
                && self.river == NOT_DEALT {
                ret_turn.push(Self::valid_indices_internal(private_cards, board, NOT_DEALT));
            } else {
                ret_turn.push([Vec::new(), Vec::new()]);
            }
            proof {
                assert forall|b: int, p: int|
                    0 <= b < board + 1 && 0 <= p < 2 implies #[trigger] ret_turn@[b][p]@ == (if self.turn_possible(b) {
                        live(private_cards[p]@, b as u8, NOT_DEALT)
                    } else {
                        Seq::<u16>::empty()
                    }) by {
                    if b == board && p == 1 {
                    }
                }
            }
            board += 1;
        }

        let mut ret_river: Vec<Indices> = Vec::with_capacity(NUM_PAIRS);
        let mut index: usize = 0;
        while index < NUM_PAIRS
            invariant
                index <= NUM_PAIRS,
                ret_river@.len() == index,
                private_cards[0]@.len() <= u16::MAX,
                private_cards[1]@.len() <= u16::MAX,
                forall|b1: int, b2: int, p: int|
                    0 <= b1 < b2 < 52 && 0 <= p < 2 && pair_index(b1, b2) < index
                        ==> #[trigger] ret_river@[pair_index(b1, b2)][p]@ == (
                    if self.river_possible(b1, b2) {
                        live(private_cards[p]@, b1 as u8, b2 as u8)
                    } else {
                        Seq::<u16>::empty()
                    }),
            decreases NUM_PAIRS - index,
        {
            let (board1, board2) = index_to_card_pair(index);
            if !self.flop_contains(board1) && !self.flop_contains(board2) && (self.turn == NOT_DEALT
                || board1 == self.turn || board2 == self.turn) && (self.river == NOT_DEALT
                || board1 == self.river || board2 == self.river) {
                ret_river.push(Self::valid_indices_internal(private_cards, board1, board2));
            } else {
                ret_river.push([Vec::new(), Vec::new()]);
            }
            proof {
                assert forall|b1: int, b2: int, p: int|
                    0 <= b1 < b2 < 52 && 0 <= p < 2 && pair_index(b1, b2) < index + 1
                        implies #[trigger] ret_river@[pair_index(b1, b2)][p]@ == (
                    if self.river_possible(b1, b2) {
                        live(private_cards[p]@, b1 as u8, b2 as u8)
                    } else {
                        Seq::<u16>::empty()
                    }) by {
                    lemma_pair_index_bounds(b1, b2);
                    if pair_index(b1, b2) == index {
                        lemma_pair_index_injective(b1, b2, board1 as int, board2 as int);
                    }
                }
            }
            index += 1;
        }
        proof {
            assert forall|b1: int, b2: int, p: int|
                0 <= b1 < b2 < 52 && 0 <= p < 2 implies #[trigger] ret_river@[pair_index(b1, b2)][p]@ == (
                if self.river_possible(b1, b2) {
                    live(private_cards[p]@, b1 as u8, b2 as u8)
                } else {
                    Seq::<u16>::empty()
                }) by {
                lemma_pair_index_bounds(b1, b2);
            }
        }
        (ret_flop, ret_turn, ret_river)
    }

    /// The same configuration on another board of as many cards: the first three cards become
    /// the flop, highest first, and the next ones the turn and the river. The cards must be
    /// distinct cards below 52.
    pub fn with_cards(&self, cards: Vec<Card>) -> (r: Result<CardConfig, String>)
        ensures
            r is Ok <==> cards@.len() == self.num_cards() && cards_valid(cards@),
            r matches Ok(c) ==> {
                &&& c.board_wf()
                &&& c.range[0]@ == self.range[0]@
                &&& c.range[1]@ == self.range[1]@
                &&& c.flop[0] >= c.flop[1] >= c.flop[2]
                &&& c.flop@.to_multiset() == cards@.subrange(0, 3).to_multiset()
                &&& c.turn == (if cards@.len() > 3 { cards@[3] } else { NOT_DEALT })
                &&& c.river == (if cards@.len() > 4 { cards@[4] } else { NOT_DEALT })
            },
    {
        let num_cards: usize = 3 + (if self.turn != NOT_DEALT { 1 } else { 0 }) + (if self.river
            != NOT_DEALT {
            1
        } else {
            0
        });
        if cards.len() != num_cards {
            return Err(invalid_value_message("number of board cards", cards.len() as u64));
        }
        if !distinct_cards(&cards) {
            return Err(invalid_value_message("board cards, repeated or undealt; count", cards.len() as u64));
        }
        let turn = if cards.len() > 3 { cards[3] } else { NOT_DEALT };
        let river = if cards.len() > 4 { cards[4] } else { NOT_DEALT };
        let flop = sort_three_descending(cards[0], cards[1], cards[2]);
        proof {
            assert(cards@.subrange(0, 3) =~= seq![cards@[0], cards@[1], cards@[2]]);
        }
        Ok(CardConfig {
            range: [self.range[0].duplicate(), self.range[1].duplicate()],
            flop,
            turn,
            river,
        })
    }

    /// For each player, the positions of the hands that share no card with `board1` and
    /// `board2`.
    fn valid_indices_internal(private_cards: &PrivateCards, board1: Card, board2: Card) -> (r: Indices)
        requires
            private_cards[0]@.len() <= u16::MAX,
            private_cards[1]@.len() <= u16::MAX,
        ensures
            r[0]@ == live(private_cards[0]@, board1, board2),
            r[1]@ == live(private_cards[1]@, board1, board2),
    {
        [
            live_hand_indices(&private_cards[0], board1, board2),
            live_hand_indices(&private_cards[1], board1, board2),
        ]
    }
}

/// The positions `0, 1, ..., n - 1` of a list of `n` hands.
fn index_range(n: usize) -> (r: Vec<u16>)
    requires
        n <= u16::MAX,
    ensures
        r@ == all_indices(n as int),
{
    let mut ret: Vec<u16> = Vec::with_capacity(n);
    let mut i: usize = 0;
    while i < n
        invariant
            i <= n <= u16::MAX,
            ret@ == all_indices(i as int),
        decreases n - i,
    {
        ret.push(i as u16);
        i += 1;
        proof {
            assert(ret@ =~= all_indices(i as int));
        }
    }
    ret
}

/// The card named at positions `2 * i` and `2 * i + 1` of a text.
pub open spec fn nth_card_of_text(s: Seq<char>, i: int) -> Option<int> {
    card_of_text(s.subrange(2 * i, 2 * i + 2))
}

/// Reads the card named at positions `2 * i` and `2 * i + 1`.
fn card_at(s: &str, i: usize) -> (r: Result<Card, String>)
    requires
        s@.len() == 6,
        i < 3,
    ensures
        r is Ok <==> nth_card_of_text(s@, i as int) is Some,
        r matches Ok(c) ==> c as int == nth_card_of_text(s@, i as int)->0 && is_card(c as int),
{
    let ghost sub = s@.subrange(2 * i as int, 2 * i as int + 2);
    let rank = char_to_rank(s.get_char(2 * i))?;
    let suit = char_to_suit(s.get_char(2 * i + 1))?;
    proof {
        assert(sub[0] == s@[2 * i as int]);
        assert(sub[1] == s@[2 * i as int + 1]);
    }
    Ok(4 * rank + suit)
}

/// Reads a flop from the names of its three cards, written one after another (`Td9d6h`); the
/// cards must be distinct, and come back highest first.
pub fn flop_from_str(s: &str) -> (r: Result<[Card; 3], String>)
    ensures
        r is Ok <==> s@.len() == 6 && nth_card_of_text(s@, 0) is Some && nth_card_of_text(s@, 1) is Some
            && nth_card_of_text(s@, 2) is Some && nth_card_of_text(s@, 0) != nth_card_of_text(s@, 1)
            && nth_card_of_text(s@, 0) != nth_card_of_text(s@, 2) && nth_card_of_text(s@, 1)
            != nth_card_of_text(s@, 2),
        r matches Ok(flop) ==> flop[0] > flop[1] > flop[2] && flop@.to_multiset() == seq![
            nth_card_of_text(s@, 0)->0 as Card,
            nth_card_of_text(s@, 1)->0 as Card,
            nth_card_of_text(s@, 2)->0 as Card,
        ].to_multiset(),
{
    let n = s.unicode_len();
    if n != 6 {
        return Err(invalid_value_message("flop length", n as u64));
    }
    let c0 = card_at(s, 0)?;
    let c1 = card_at(s, 1)?;
    let c2 = card_at(s, 2)?;
    if c0 == c1 || c0 == c2 || c1 == c2 {
        return Err(invalid_value_message("repeated flop card", c0 as u64));
    }
    let flop = sort_three_descending(c0, c1, c2);
    proof {
        broadcast use vstd::seq_lib::group_to_multiset_ensures;
        let m = flop@.to_multiset();
        assert(m.count(flop[0]) > 0 && m.count(flop[1]) > 0 && m.count(flop[2]) > 0) by {
            assert(flop@.contains(flop[0]) && flop@.contains(flop[1]) && flop@.contains(flop[2])) by {
                assert(flop@[0] == flop[0] && flop@[1] == flop[1] && flop@[2] == flop[2]);
            }
        }
        assert(seq![c0, c1, c2].to_multiset().count(flop[0]) > 0);
        if flop[0] == flop[1] || flop[1] == flop[2] {
            assert(seq![c0, c1, c2] =~= Seq::<Card>::empty().push(c0).push(c1).push(c2));
            assert(flop@ =~= Seq::<Card>::empty().push(flop[0]).push(flop[1]).push(flop[2]));
            assert(false);
        }
    }
    Ok(flop)
}

/// Whether every one of the cards is one of the 52 and no card appears twice.
pub open spec fn cards_valid(cards: Seq<Card>) -> bool {
    &&& forall|i: int| 0 <= i < cards.len() ==> is_card(#[trigger] cards[i] as int)
    &&& forall|i: int, j: int| 0 <= i < j < cards.len() ==> #[trigger] cards[i] != #[trigger] cards[j]
}

/// Whether the cards are distinct cards below 52.
fn distinct_cards(cards: &Vec<Card>) -> (r: bool)
    ensures
        r == cards_valid(cards@),
{
    let mut i: usize = 0;
    while i < cards.len()
        invariant
            i <= cards@.len(),
            forall|k: int| 0 <= k < i ==> is_card(#[trigger] cards@[k] as int),
            forall|k: int, m: int| 0 <= k < m < cards@.len() && k < i ==> #[trigger] cards@[k] != #[trigger] cards@[m],
        decreases cards@.len() - i,
    {
        if cards[i] >= 52 {
            return false;
        }
        let mut j: usize = i + 1;
        while j < cards.len()
            invariant
                i < j <= cards@.len(),
                forall|m: int| i < m < j ==> cards@[i as int] != #[trigger] cards@[m],
            decreases cards@.len() - j,
        {
            if cards[i] == cards[j] {
                return false;
            }
            j += 1;
        }
        i += 1;
    }
    true
}

/// The three cards in non-increasing order.
fn sort_three_descending(a: Card, b: Card, c: Card) -> (r: [Card; 3])
    ensures
        r[0] >= r[1] >= r[2],
        r@.to_multiset() == seq![a, b, c].to_multiset(),
        (r[0] == a && r[1] == b && r[2] == c) || (r[0] == a && r[1] == c && r[2] == b) || (r[0] == b
            && r[1] == a && r[2] == c) || (r[0] == b && r[1] == c && r[2] == a) || (r[0] == c && r[1]
            == a && r[2] == b) || (r[0] == c && r[1] == b && r[2] == a),
{
    let (x, y) = if a >= b { (a, b) } else { (b, a) };
    let (y, z) = if y >= c { (y, c) } else { (c, y) };
    let (x, y) = if x >= y { (x, y) } else { (y, x) };
    let r = [x, y, z];
    proof {
        broadcast use vstd::seq_lib::group_to_multiset_ensures;
        assert(r@ =~= seq![x, y, z]);
        let m = Multiset::<Card>::empty();
        assert(seq![a, b, c] =~= Seq::<Card>::empty().push(a).push(b).push(c));
        assert(seq![x, y, z] =~= Seq::<Card>::empty().push(x).push(y).push(z));
        assert(seq![a, b, c].to_multiset() =~= m.insert(a).insert(b).insert(c));
        assert(seq![x, y, z].to_multiset() =~= m.insert(x).insert(y).insert(z));
    }
    r
}

} // verus!
