use postflop_solver::card::{
    card_from_str, card_pair_to_index, card_to_string, flop_from_str, index_to_card_pair,
    CardConfig, NOT_DEALT,
};
use postflop_solver::range::Range;

fn config(flop: [u8; 3], turn: u8, river: u8) -> CardConfig {
    CardConfig {
        range: [Range::new(), Range::new()],
        flop,
        turn,
        river,
    }
}

#[test]
fn test_card_pair_index() {
    let mut k = 0;
    for i in 0..52 {
        for j in (i + 1)..52 {
            assert_eq!(card_pair_to_index(i, j), k);
            assert_eq!(card_pair_to_index(j, i), k);
            assert_eq!(index_to_card_pair(k), (i, j));
            k += 1;
        }
    }
}

#[test]
fn test_serialize_deserialize_card_config() {}

#[test]
fn card_names() {
    assert_eq!(card_to_string(0), Ok("2c".to_string()));
    assert_eq!(card_to_string(5), Ok("3d".to_string()));
    assert_eq!(card_to_string(10), Ok("4h".to_string()));
    assert_eq!(card_to_string(51), Ok("As".to_string()));
    assert!(card_to_string(52).is_err());
    assert!(card_to_string(NOT_DEALT).is_err());
}

#[test]
fn card_name_round_trip() {
    for c in 0..52u8 {
        let name = card_to_string(c).unwrap();
        assert_eq!(card_from_str(&name), Ok(c));
    }
}

#[test]
fn card_parsing() {
    assert_eq!(card_from_str("Td"), Ok(33));
    assert_eq!(card_from_str("td"), Ok(33));
    assert_eq!(card_from_str("2c"), Ok(0));
    assert_eq!(card_from_str("As"), Ok(51));
    assert!(card_from_str("AS").is_err());
    assert!(card_from_str("1c").is_err());
    assert!(card_from_str("Tdx").is_err());
    assert!(card_from_str("").is_err());
}

#[test]
fn flop_parsing() {
    assert_eq!(flop_from_str("Td9d6h"), Ok([33, 29, 18]));
    assert_eq!(flop_from_str("6h9dTd"), Ok([33, 29, 18]));
    assert!(flop_from_str("TdTd6h").is_err());
    assert!(flop_from_str("Td9d").is_err());
    assert!(flop_from_str("Td9d6x").is_err());
}

#[test]
fn with_cards_replaces_board() {
    let mut range = Range::new();
    range.set_weight_by_cards(51, 47, 0x3f80_0000);
    let card_config = CardConfig {
        range: [range.duplicate(), Range::new()],
        flop: flop_from_str("Td9d6h").unwrap(),
        turn: card_from_str("Qc").unwrap(),
        river: NOT_DEALT,
    };
    let card_config2 = card_config.with_cards(vec![34, 29, 4, 10]).unwrap();
    assert_eq!(card_config2.range[0].raw_data(), range.raw_data());
    assert_eq!(card_config2.range[1].raw_data(), Range::new().raw_data());
    assert_eq!(card_config2.flop, [34, 29, 4]);
    assert_eq!(card_config2.turn, 10);
    assert_eq!(card_config2.river, NOT_DEALT);
    assert!(card_config.with_cards(vec![34, 29, 4]).is_err());
    assert!(card_config.with_cards(vec![34, 29, 4, 10, 11]).is_err());
}

#[test]
fn with_cards_on_flop_and_river() {
    let flop_only = config([33, 29, 18], NOT_DEALT, NOT_DEALT);
    let c = flop_only.with_cards(vec![0, 51, 7]).unwrap();
    assert_eq!(c.flop, [51, 7, 0]);
    assert_eq!((c.turn, c.river), (NOT_DEALT, NOT_DEALT));
    let river = config([33, 29, 18], 40, 0);
    let c = river.with_cards(vec![1, 2, 3, 4, 5]).unwrap();
    assert_eq!(c.flop, [3, 2, 1]);
    assert_eq!((c.turn, c.river), (4, 5));
}

#[test]
fn valid_indices_on_turn_board() {
    // 2c2d, 3c3d, AsAh
    let hands = [vec![(0u8, 1u8), (4, 5), (51, 50)], vec![(0u8, 4u8)]];
    let c = config([33, 29, 18], 4, NOT_DEALT);
    let (flop, turn, river) = c.valid_indices(&hands);
    assert!(flop[0].is_empty() && flop[1].is_empty());
    assert_eq!(turn.len(), 52);
    assert_eq!(turn[4][0], vec![0, 2]);
    assert_eq!(turn[4][1], Vec::<u16>::new());
    assert!(turn[0][0].is_empty());
    assert_eq!(river.len(), 1326);
    let k = card_pair_to_index(4, 51);
    assert_eq!(river[k][0], vec![0]);
    assert!(river[k][1].is_empty());
    let k = card_pair_to_index(7, 8);
    assert!(river[k][0].is_empty());
}

#[test]
fn valid_indices_on_flop() {
    let hands = [vec![(0u8, 1u8), (4, 5)], vec![(0u8, 4u8), (50, 51), (8, 9)]];
    let c = config([33, 29, 18], NOT_DEALT, NOT_DEALT);
    let (flop, turn, river) = c.valid_indices(&hands);
    assert_eq!(flop[0], vec![0, 1]);
    assert_eq!(flop[1], vec![0, 1, 2]);
    assert_eq!(turn[0][0], vec![1]);
    assert_eq!(turn[0][1], vec![1, 2]);
    assert!(turn[33][0].is_empty());
    let k = card_pair_to_index(0, 9);
    assert_eq!(river[k][0], vec![1]);
    assert_eq!(river[k][1], vec![1]);
}

#[test]
fn default_config_deals_nothing() {
    let c = CardConfig::default();
    assert_eq!(c.flop, [NOT_DEALT; 3]);
    assert_eq!((c.turn, c.river), (NOT_DEALT, NOT_DEALT));
    assert!(c.range[0].raw_data().iter().all(|&w| w == 0));
    assert_eq!(Range::default().raw_data(), Range::new().raw_data());
}

#[test]
fn with_cards_rejects_repeated_or_undealt_cards() {
    let flop_only = config([33, 29, 18], NOT_DEALT, NOT_DEALT);
    assert!(flop_only.with_cards(vec![0, 0, 7]).is_err());
    assert!(flop_only.with_cards(vec![0, 52, 7]).is_err());
    assert!(flop_only.with_cards(vec![0, NOT_DEALT, 7]).is_err());
    let turn = config([33, 29, 18], 40, NOT_DEALT);
    assert!(turn.with_cards(vec![1, 2, 3, 2]).is_err());
    assert!(turn.with_cards(vec![1, 2, 3, 4]).is_ok());
    let river = config([33, 29, 18], 40, 0);
    assert!(river.with_cards(vec![1, 2, 3, 4, 1]).is_err());
}

#[test]
fn configs_clone_and_compare() {
    let mut range = Range::new();
    range.set_weight_by_cards(0, 1, 5);
    let c = CardConfig {
        range: [range.clone(), Range::new()],
        flop: [33, 29, 18],
        turn: NOT_DEALT,
        river: NOT_DEALT,
    };
    let d = c.clone();
    assert!(d.range[0] == range);
    assert!(d.range[1] != range);
    assert_eq!(d.flop, c.flop);
}
