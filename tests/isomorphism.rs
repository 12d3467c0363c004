use postflop_solver::card::{CardConfig, NOT_DEALT};
use postflop_solver::range::Range;
use postflop_solver::swap_list::apply_swap_list;

fn config(flop: [u8; 3], turn: u8, river: u8) -> CardConfig {
    CardConfig {
        range: [Range::new(), Range::new()],
        flop,
        turn,
        river,
    }
}

#[test]
fn turn_isomorphism_folds_spades_onto_clubs() {
    // Td9d6h: clubs and spades are both empty on the flop
    let c = config([33, 29, 18], NOT_DEALT, NOT_DEALT);
    let hands = [vec![(0u8, 1u8), (3, 1)], vec![(20u8, 21u8)]];
    let (ref_turn, card_turn, swap_turn, ref_river, card_river, _swap_river) = c.isomorphism(&hands);
    let spades: Vec<u8> = (0..13).map(|r| 4 * r + 3).collect();
    assert_eq!(card_turn, spades);
    assert_eq!(ref_turn.len(), 13);
    assert_eq!(ref_turn[0], 0);
    assert_eq!(ref_turn[1], 3);
    assert_eq!(swap_turn[3][0], vec![(0, 1)]);
    // 7c7d has no partner among the hands when clubs and spades trade places
    assert_eq!(swap_turn[3][1], vec![(0, u16::MAX)]);
    assert!(swap_turn[1][0].is_empty() && swap_turn[2][0].is_empty());
    assert_eq!(ref_river.len(), 52);
    assert!(ref_river[33].is_empty());
    // a club turn breaks the symmetry of clubs and spades; a diamond turn keeps it
    assert!(card_river[0].is_empty());
    assert_eq!(card_river[1], spades);
    assert_eq!(ref_river[1].len(), 13);
}

#[test]
fn paired_flop_folds_three_suits() {
    // 2c2d2h: clubs, diamonds and hearts each hold a deuce, spades hold nothing
    let c = config([8, 4, 1], NOT_DEALT, NOT_DEALT);
    let c = c.with_cards(vec![0, 1, 2]).unwrap();
    assert_eq!(c.flop, [2, 1, 0]);
    let hands = [vec![(51u8, 50u8)], vec![(51u8, 50u8)]];
    let (ref_turn, card_turn, swap_turn, _, _, _) = c.isomorphism(&hands);
    assert_eq!(card_turn.len(), 24);
    assert_eq!(card_turn[0], 5);
    assert_eq!(ref_turn[0], 1);
    assert!(swap_turn[1][0].is_empty());
    assert!(swap_turn[3][0].is_empty());
}

#[test]
fn asymmetric_range_blocks_isomorphism() {
    let mut range = Range::new();
    // 2s3s gets a weight that 2c3c does not have
    range.set_weight_by_cards(3, 7, 0x3f80_0000);
    let c = CardConfig {
        range: [range, Range::new()],
        flop: [33, 29, 18],
        turn: NOT_DEALT,
        river: NOT_DEALT,
    };
    let hands = [vec![(3u8, 7u8)], vec![(0u8, 1u8)]];
    let (ref_turn, card_turn, _, _, _, _) = c.isomorphism(&hands);
    assert!(ref_turn.is_empty());
    assert!(card_turn.is_empty());
}

#[test]
fn dealt_river_has_no_river_isomorphism() {
    let c = config([33, 29, 18], 4, 0);
    let hands = [vec![(51u8, 50u8)], vec![(47u8, 46u8)]];
    let (ref_turn, _, _, ref_river, card_river, _) = c.isomorphism(&hands);
    assert!(ref_turn.is_empty());
    assert!(ref_river.iter().all(|r| r.is_empty()));
    assert!(card_river.iter().all(|r| r.is_empty()));
}

#[test]
fn swap_pairs_join_isomorphic_hands() {
    // clubs and spades trade places on a flop without either suit
    let c = config([33, 29, 18], NOT_DEALT, NOT_DEALT);
    // AcKc, 2h2d, AsKs, 3c3d, 3s3d
    let hands = vec![(48u8, 44u8), (2, 1), (51, 47), (4, 5), (7, 5)];
    let (_, _, swap_turn, _, _, _) = c.isomorphism(&[hands.clone(), hands.clone()]);
    assert_eq!(swap_turn[3][0], vec![(0, 2), (3, 4)]);
    for &(i, j) in &swap_turn[3][0] {
        let (a1, a2) = hands[i as usize];
        let (b1, b2) = hands[j as usize];
        let swap = |x: u8| match x % 4 {
            0 => x + 3,
            3 => x - 3,
            _ => x,
        };
        let mut swapped = [swap(a1), swap(a2)];
        swapped.sort();
        let mut partner = [b1, b2];
        partner.sort();
        assert_eq!(swapped, partner);
    }
}

#[test]
fn swap_list_applied_twice_restores_values() {
    let mut v = vec![10, 20, 30, 40, 50];
    let swaps = vec![(0u16, 2u16), (3, 4)];
    apply_swap_list(&mut v, &swaps);
    assert_eq!(v, vec![30, 20, 10, 50, 40]);
    apply_swap_list(&mut v, &swaps);
    assert_eq!(v, vec![10, 20, 30, 40, 50]);
}

#[test]
fn isomorphic_swap_list_round_trip() {
    let c = config([33, 29, 18], NOT_DEALT, NOT_DEALT);
    // AcKc, 2h2d, AsKs, 3c3d, 3s3d: closed under trading clubs and spades
    let hands = vec![(48u8, 44u8), (2, 1), (51, 47), (4, 5), (7, 5)];
    let (_, _, swap_turn, _, _, _) = c.isomorphism(&[hands.clone(), hands.clone()]);
    let values = vec![1.5f32, -2.0, 0.25, 7.0, 3.0];
    let mut v = values.clone();
    apply_swap_list(&mut v, &swap_turn[3][0]);
    assert_eq!(v, vec![0.25, -2.0, 1.5, 3.0, 7.0]);
    apply_swap_list(&mut v, &swap_turn[3][0]);
    assert_eq!(v, values);
}

#[test]
fn isomorphic_flops_fold_corresponding_cards() {
    // 2c2d2h and 2c2d2s differ by trading hearts and spades
    let hearts = config([2, 1, 0], NOT_DEALT, NOT_DEALT);
    let spades = config([3, 1, 0], NOT_DEALT, NOT_DEALT);
    let hands = [vec![(51u8, 50u8), (48, 44)], vec![(47u8, 46u8)]];
    let (ref_h, card_h, _, _, _, _) = hearts.isomorphism(&hands);
    let (ref_s, card_s, _, _, _, _) = spades.isomorphism(&hands);
    let trade = |c: u8| match c % 4 {
        2 => c + 1,
        3 => c - 1,
        _ => c,
    };
    let mut mapped: Vec<u8> = card_h.iter().map(|&c| trade(c)).collect();
    mapped.sort();
    assert_eq!(mapped, card_s);
    assert_eq!(card_h.len(), 24);
    assert_eq!(ref_h.len(), ref_s.len());
}

#[test]
fn swap_lists_of_weighted_hands_round_trip() {
    // a range holding AcKc and AsKs only, the same in both suits
    let mut range = Range::new();
    range.set_weight_by_cards(48, 44, 0x3f80_0000);
    range.set_weight_by_cards(51, 47, 0x3f80_0000);
    let c = CardConfig {
        range: [range.clone(), range],
        flop: [33, 29, 18],
        turn: NOT_DEALT,
        river: NOT_DEALT,
    };
    let hands = vec![(48u8, 44u8), (51, 47)];
    let (_, card_turn, swap_turn, _, _, _) = c.isomorphism(&[hands.clone(), hands.clone()]);
    assert_eq!(card_turn.len(), 13);
    assert_eq!(swap_turn[3][0], vec![(0, 1)]);
    let mut v = vec![0.75f32, 0.25];
    apply_swap_list(&mut v, &swap_turn[3][0]);
    assert_eq!(v, vec![0.25, 0.75]);
    apply_swap_list(&mut v, &swap_turn[3][0]);
    assert_eq!(v, vec![0.75, 0.25]);
}
