use postflop_solver::card::{card_pair_to_index, CardConfig, NOT_DEALT};
use postflop_solver::range::Range;
use postflop_solver::strength::StrengthItem;

fn high_card(cards: [u8; 7]) -> u16 {
    (cards[5].max(cards[6]) / 4) as u16
}

#[test]
fn strengths_are_sorted_between_sentinels() {
    let c = CardConfig {
        range: [Range::new(), Range::new()],
        flop: [33, 29, 18],
        turn: 4,
        river: 0,
    };
    let hands = [vec![(51u8, 50u8), (47, 46), (1, 2), (0, 3)], vec![(43u8, 42u8)]];
    let table = c.hand_strength(&hands, high_card);
    assert_eq!(table.len(), 1326);
    let entry = &table[card_pair_to_index(0, 4)];
    let item = |strength, index| StrengthItem { strength, index };
    assert_eq!(
        entry[0],
        vec![item(0, 0), item(1, 2), item(12, 1), item(13, 0), item(u16::MAX, u16::MAX)]
    );
    assert_eq!(entry[1], vec![item(0, 0), item(11, 0), item(u16::MAX, u16::MAX)]);
    assert!(table[card_pair_to_index(0, 5)][0].is_empty());
}

#[test]
fn ties_are_ordered_by_position() {
    let c = CardConfig {
        range: [Range::new(), Range::new()],
        flop: [33, 29, 18],
        turn: NOT_DEALT,
        river: NOT_DEALT,
    };
    let hands = [vec![(51u8, 0u8), (50, 1)], vec![]];
    let table = c.hand_strength(&hands, high_card);
    let entry = &table[card_pair_to_index(2, 3)];
    assert_eq!(entry[0][1], StrengthItem { strength: 13, index: 0 });
    assert_eq!(entry[0][2], StrengthItem { strength: 13, index: 1 });
    assert!(entry[1].len() == 2);
}
