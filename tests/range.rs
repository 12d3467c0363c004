use postflop_solver::card::card_pair_to_index;
use postflop_solver::range::{replace_suit, Range};

#[test]
fn empty_range_is_suit_isomorphic() {
    let r = Range::new();
    assert_eq!(r.raw_data().len(), 1326);
    assert!(r.is_suit_isomorphic(0, 1));
    assert!(r.is_suit_isomorphic(2, 3));
}

#[test]
fn single_weight_breaks_isomorphism() {
    let mut r = Range::new();
    r.set_weight_by_cards(0, 4, 7);
    assert_eq!(r.get_weight_by_cards(4, 0), 7);
    assert_eq!(r.raw_data()[card_pair_to_index(0, 4)], 7);
    assert!(!r.is_suit_isomorphic(0, 1));
    assert!(r.is_suit_isomorphic(2, 3));
    r.set_weight_by_cards(1, 5, 7);
    assert!(r.is_suit_isomorphic(0, 1));
}

#[test]
fn raw_data_must_have_every_pair() {
    assert!(Range::from_raw_data(vec![0; 1325]).is_err());
    let r = Range::from_raw_data(vec![3; 1326]).unwrap();
    assert_eq!(r.get_weight_by_cards(50, 51), 3);
}

#[test]
fn suits_trade_places() {
    assert_eq!(replace_suit(0, 0, 3), 3);
    assert_eq!(replace_suit(3, 0, 3), 0);
    assert_eq!(replace_suit(5, 0, 3), 5);
    assert_eq!(replace_suit(51, 3, 1), 49);
}
