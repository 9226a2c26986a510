use poker::card::suit::Suit;
use poker::card::value::Value;
use poker::card::Card;
use poker::hand::hand_type::HandType;
use poker::hand::Hand;

fn c(suit: Suit, value: Value) -> Card {
    Card::new(suit, value)
}

#[test]
fn from_empty_vec_has_no_hand_type() {
    let h = Hand::from(vec![]);
    assert_eq!(h.hand_type, None);
}

#[test]
fn from_nonempty_vec_computes_hand_type_immediately() {
    let h = Hand::from(vec![
        c(Suit::Spade, Value::Ace),
        c(Suit::Spade, Value::King),
        c(Suit::Spade, Value::Queen),
        c(Suit::Spade, Value::Jack),
        c(Suit::Spade, Value::Ten),
    ]);
    assert!(h.hand_type.is_some());
}

#[test]
fn default_hand_is_empty_with_max_five() {
    let h = Hand::default();
    assert_eq!(h.get_hand().len(), 0);
    assert_eq!(h.hand_type, None);
}

// -----------------------------
// is_flush / is_straight UNITS
// -----------------------------

#[test]
fn is_flush_true_for_same_suit() {
    let h = Hand::from(vec![
        c(Suit::Heart, Value::Two),
        c(Suit::Heart, Value::Five),
        c(Suit::Heart, Value::Nine),
        c(Suit::Heart, Value::Jack),
        c(Suit::Heart, Value::Ace),
    ]);
    assert!(h.is_flush());
}

#[test]
fn is_flush_false_for_mixed_suits() {
    let h = Hand::from(vec![
        c(Suit::Heart, Value::Two),
        c(Suit::Club, Value::Five),
        c(Suit::Heart, Value::Nine),
        c(Suit::Heart, Value::Jack),
        c(Suit::Heart, Value::Ace),
    ]);
    assert!(!h.is_flush());
}

#[test]
fn is_flush_false_on_empty_hand() {
    let h = Hand::from(vec![]);
    // is_flush is called on a mutable-borrowed method elsewhere but is &self-only here
    let empty_hand = Hand::default();
    assert!(!empty_hand.is_flush());
    let _ = h; // keep h alive to avoid unused warning if from() short-circuits
}

#[test]
fn is_straight_true_for_sequential_run() {
    let mut h = Hand::from(vec![
        c(Suit::Club, Value::Nine),
        c(Suit::Spade, Value::Eight),
        c(Suit::Heart, Value::Seven),
        c(Suit::Diamond, Value::Six),
        c(Suit::Club, Value::Five),
    ]);
    assert!(h.is_straight());
}

#[test]
fn is_straight_true_for_wheel_ace_low() {
    let mut h = Hand::from(vec![
        c(Suit::Club, Value::Ace),
        c(Suit::Spade, Value::Two),
        c(Suit::Heart, Value::Three),
        c(Suit::Diamond, Value::Four),
        c(Suit::Club, Value::Five),
    ]);
    assert!(h.is_straight());
}

#[test]
fn is_straight_false_for_broken_sequence() {
    let mut h = Hand::from(vec![
        c(Suit::Club, Value::Nine),
        c(Suit::Spade, Value::Eight),
        c(Suit::Heart, Value::Six), // gap here, no Seven
        c(Suit::Diamond, Value::Five),
        c(Suit::Club, Value::Four),
    ]);
    assert!(!h.is_straight());
}

#[test]
fn is_straight_false_for_pair_plus_random() {
    let mut h = Hand::from(vec![
        c(Suit::Club, Value::King),
        c(Suit::Spade, Value::King),
        c(Suit::Heart, Value::Nine),
        c(Suit::Diamond, Value::Five),
        c(Suit::Club, Value::Two),
    ]);
    assert!(!h.is_straight());
}

// ----------------------------------------------------
// FULL determine_hand() COVERAGE, ONE PER HAND CATEGORY
// ----------------------------------------------------

#[test]
fn royal_flush() {
    let mut h = Hand::from(vec![
        c(Suit::Spade, Value::Ace),
        c(Suit::Spade, Value::King),
        c(Suit::Spade, Value::Queen),
        c(Suit::Spade, Value::Jack),
        c(Suit::Spade, Value::Ten),
    ]);
    assert_eq!(h.determine_hand(), HandType::RoyalFlush);
}

#[test]
fn straight_flush_not_ace_high() {
    let mut h = Hand::from(vec![
        c(Suit::Club, Value::Nine),
        c(Suit::Club, Value::Eight),
        c(Suit::Club, Value::Seven),
        c(Suit::Club, Value::Six),
        c(Suit::Club, Value::Five),
    ]);
    match h.determine_hand() {
        HandType::StraightFlush { kicker } => assert_eq!(kicker, Value::Nine),
        other => panic!("expected StraightFlush, got {:?}", other),
    }
}

#[test]
fn straight_flush_wheel() {
    // NOTE: current implementation reports the sorted-first card as the
    // kicker, which for a wheel straight is the Ace (numeric 14), not
    // the Five. This test documents actual behavior, not "correct"
    // poker ranking — flag this as a known quirk if you fix it later.
    let mut h = Hand::from(vec![
        c(Suit::Diamond, Value::Ace),
        c(Suit::Diamond, Value::Two),
        c(Suit::Diamond, Value::Three),
        c(Suit::Diamond, Value::Four),
        c(Suit::Diamond, Value::Five),
    ]);
    match h.determine_hand() {
        HandType::StraightFlush { kicker } => assert_eq!(kicker, Value::Ace),
        other => panic!("expected StraightFlush, got {:?}", other),
    }
}

#[test]
fn four_of_a_kind_with_kicker() {
    let mut h = Hand::from(vec![
        c(Suit::Club, Value::King),
        c(Suit::Diamond, Value::King),
        c(Suit::Heart, Value::King),
        c(Suit::Spade, Value::King),
        c(Suit::Club, Value::Two),
    ]);
    match h.determine_hand() {
        HandType::FourKind { kind_value, kicker } => {
            assert_eq!(kind_value, Value::King);
            assert_eq!(kicker, Value::Two);
        }
        other => panic!("expected FourKind, got {:?}", other),
    }
}

#[test]
fn full_house_three_over_two() {
    let mut h = Hand::from(vec![
        c(Suit::Club, Value::Queen),
        c(Suit::Diamond, Value::Queen),
        c(Suit::Heart, Value::Queen),
        c(Suit::Spade, Value::Four),
        c(Suit::Club, Value::Four),
    ]);
    match h.determine_hand() {
        HandType::FullHouse { three_value, two_value } => {
            assert_eq!(three_value, Value::Queen);
            assert_eq!(two_value, Value::Four);
        }
        other => panic!("expected FullHouse, got {:?}", other),
    }
}

#[test]
fn flush_non_sequential() {
    let mut h = Hand::from(vec![
        c(Suit::Diamond, Value::Ace),
        c(Suit::Diamond, Value::Jack),
        c(Suit::Diamond, Value::Eight),
        c(Suit::Diamond, Value::Five),
        c(Suit::Diamond, Value::Three),
    ]);
    match h.determine_hand() {
        HandType::Flush { cards } => {
            assert_eq!(
                cards,
                vec![Value::Ace, Value::Jack, Value::Eight, Value::Five, Value::Three]
            );
        }
        other => panic!("expected Flush, got {:?}", other),
    }
}

#[test]
fn straight_mixed_suits() {
    let mut h = Hand::from(vec![
        c(Suit::Club, Value::Ten),
        c(Suit::Diamond, Value::Nine),
        c(Suit::Heart, Value::Eight),
        c(Suit::Spade, Value::Seven),
        c(Suit::Club, Value::Six),
    ]);
    match h.determine_hand() {
        HandType::Straight { kicker } => assert_eq!(kicker, Value::Ten),
        other => panic!("expected Straight, got {:?}", other),
    }
}

#[test]
fn three_of_a_kind_no_pair_among_rest() {
    let mut h = Hand::from(vec![
        c(Suit::Club, Value::Nine),
        c(Suit::Diamond, Value::Nine),
        c(Suit::Heart, Value::Nine),
        c(Suit::Spade, Value::King),
        c(Suit::Club, Value::Two),
    ]);
    match h.determine_hand() {
        HandType::ThreeKind { three_value, mut other_cards } => {
            assert_eq!(three_value, Value::Nine);
            other_cards.sort();
            assert_eq!(other_cards, vec![Value::Two, Value::King]);
        }
        other => panic!("expected ThreeKind, got {:?}", other),
    }
}

#[test]
fn two_pair_with_kicker() {
    let mut h = Hand::from(vec![
        c(Suit::Club, Value::King),
        c(Suit::Diamond, Value::King),
        c(Suit::Heart, Value::Four),
        c(Suit::Spade, Value::Four),
        c(Suit::Club, Value::Two),
    ]);
    match h.determine_hand() {
        HandType::TwoPair { pair_one, pair_two, kicker } => {
            let mut pairs = vec![pair_one, pair_two];
            pairs.sort();
            assert_eq!(pairs, vec![Value::Four, Value::King]);
            assert_eq!(kicker, Value::Two);
        }
        other => panic!("expected TwoPair, got {:?}", other),
    }
}

#[test]
fn one_pair_with_three_kickers() {
    let mut h = Hand::from(vec![
        c(Suit::Club, Value::Seven),
        c(Suit::Diamond, Value::Seven),
        c(Suit::Heart, Value::King),
        c(Suit::Spade, Value::Queen),
        c(Suit::Club, Value::Three),
    ]);
    match h.determine_hand() {
        HandType::Pair { pair, mut other_cards } => {
            assert_eq!(pair, Value::Seven);
            other_cards.sort();
            assert_eq!(other_cards, vec![Value::Three, Value::Queen, Value::King]);
        }
        other => panic!("expected Pair, got {:?}", other),
    }
}

#[test]
fn high_card_no_matches() {
    let mut h = Hand::from(vec![
        c(Suit::Club, Value::Ace),
        c(Suit::Diamond, Value::Jack),
        c(Suit::Heart, Value::Eight),
        c(Suit::Spade, Value::Five),
        c(Suit::Club, Value::Two),
    ]);
    match h.determine_hand() {
        HandType::HighCard { cards } => {
            assert_eq!(
                cards,
                vec![Value::Ace, Value::Jack, Value::Eight, Value::Five, Value::Two]
            );
        }
        other => panic!("expected HighCard, got {:?}", other),
    }
}

// -----------------------------------------
// HandType RANK ORDERING (hand_value + Ord)
// -----------------------------------------

#[test]
fn hand_value_ranks_ascend_correctly() {
    assert!(HandType::HighCard { cards: vec![] }.hand_value() < HandType::Pair { pair: Value::Two, other_cards: vec![] }.hand_value());
    assert!(HandType::Pair { pair: Value::Two, other_cards: vec![] }.hand_value() < HandType::TwoPair { pair_one: Value::Two, pair_two: Value::Three, kicker: Value::Four }.hand_value());
    assert!(HandType::TwoPair { pair_one: Value::Two, pair_two: Value::Three, kicker: Value::Four }.hand_value() < HandType::ThreeKind { three_value: Value::Two, other_cards: vec![] }.hand_value());
    assert!(HandType::ThreeKind { three_value: Value::Two, other_cards: vec![] }.hand_value() < HandType::Straight { kicker: Value::Two }.hand_value());
    assert!(HandType::Straight { kicker: Value::Two }.hand_value() < HandType::Flush { cards: vec![] }.hand_value());
    assert!(HandType::Flush { cards: vec![] }.hand_value() < HandType::FullHouse { three_value: Value::Two, two_value: Value::Three }.hand_value());
    assert!(HandType::FullHouse { three_value: Value::Two, two_value: Value::Three }.hand_value() < HandType::FourKind { kind_value: Value::Two, kicker: Value::Three }.hand_value());
    assert!(HandType::FourKind { kind_value: Value::Two, kicker: Value::Three }.hand_value() < HandType::StraightFlush { kicker: Value::Two }.hand_value());
    assert!(HandType::StraightFlush { kicker: Value::Two }.hand_value() < HandType::RoyalFlush.hand_value());
}

#[test]
fn different_tiers_compare_by_hand_value_even_with_weak_kicker() {
    // A pair with a low kicker still beats high card with an ace kicker.
    let pair = HandType::Pair { pair: Value::Two, other_cards: vec![Value::Three] };
    let high_card = HandType::HighCard { cards: vec![Value::Ace] };
    assert!(pair > high_card);
}

#[test]
fn same_tier_breaks_tie_on_primary_value() {
    let low_pair = HandType::Pair { pair: Value::Three, other_cards: vec![Value::King] };
    let high_pair = HandType::Pair { pair: Value::Jack, other_cards: vec![Value::Two] };
    assert!(high_pair > low_pair);
}

#[test]
fn same_tier_and_primary_value_breaks_tie_on_kickers() {
    let weak_kicker = HandType::Pair { pair: Value::Seven, other_cards: vec![Value::Two, Value::Three, Value::Four] };
    let strong_kicker = HandType::Pair { pair: Value::Seven, other_cards: vec![Value::Two, Value::Three, Value::King] };
    assert!(strong_kicker > weak_kicker);
}

#[test]
fn full_house_ties_break_on_three_value_first() {
    let lower = HandType::FullHouse { three_value: Value::Four, two_value: Value::King };
    let higher = HandType::FullHouse { three_value: Value::Five, two_value: Value::Two };
    // Higher three-of-a-kind wins even though its pair is weaker.
    assert!(higher > lower);
}

// ---------------------------------
// Hand-level Ord (used by Table for
// determine_hand_order/showdown)
// ---------------------------------

#[test]
fn hand_ordering_flush_beats_straight() {
    let flush = Hand::from(vec![
        c(Suit::Heart, Value::Two),
        c(Suit::Heart, Value::Five),
        c(Suit::Heart, Value::Nine),
        c(Suit::Heart, Value::Jack),
        c(Suit::Heart, Value::King),
    ]);
    let straight = Hand::from(vec![
        c(Suit::Club, Value::Ten),
        c(Suit::Diamond, Value::Nine),
        c(Suit::Heart, Value::Eight),
        c(Suit::Spade, Value::Seven),
        c(Suit::Club, Value::Six),
    ]);
    assert!(flush > straight);
}

#[test]
fn hand_equality_is_by_tier_only_not_exact_hand() {
    // Documenting the existing PartialEq behavior: two Hands with the
    // same HandType tier are "equal" even if their actual cards differ,
    // because Hand::eq delegates to HandType::eq, which only compares
    // hand_value(). This is worth knowing before relying on `==`
    // anywhere in showdown/winner logic.
    let pair_low = Hand::from(vec![
        c(Suit::Club, Value::Three),
        c(Suit::Diamond, Value::Three),
        c(Suit::Heart, Value::King),
        c(Suit::Spade, Value::Queen),
        c(Suit::Club, Value::Two),
    ]);
    let pair_high = Hand::from(vec![
        c(Suit::Club, Value::Jack),
        c(Suit::Diamond, Value::Jack),
        c(Suit::Heart, Value::Nine),
        c(Suit::Spade, Value::Eight),
        c(Suit::Club, Value::Seven),
    ]);
    assert_eq!(pair_low, pair_high); // true today; see note above
}

// -----------------
// draw_card BEHAVIOR
// -----------------

#[test]
fn draw_card_respects_hand_max() { 
    let mut h = Hand {
        hand: vec![],
        hand_type: None,
        hand_max: 2,
    };
    h.draw_card(c(Suit::Club, Value::Two));
    h.draw_card(c(Suit::Diamond, Value::Three));
    h.draw_card(c(Suit::Heart, Value::Four)); // should be dropped, hand is full
    assert_eq!(h.get_hand().len(), 2);
}

#[test]
fn draw_card_does_not_score_single_card_hand() {
    let mut h = Hand::default();
    h.draw_card(c(Suit::Club, Value::Ace));
    // hand_type only updates once hand.len() > 1
    assert_eq!(h.hand_type, None);
}

#[test]
fn draw_card_scores_once_second_card_is_added() {
    let mut h = Hand::default();
    h.draw_card(c(Suit::Club, Value::Ace));
    h.draw_card(c(Suit::Diamond, Value::King));
    assert!(h.hand_type.is_some());
}
