use poker::card::suit::Suit;
use poker::card::value::Value;
use poker::card::Card;
use poker::hand::hand_type::HandType;
use poker::hand::Hand;

#[test]
fn constructor_test() {
    let mut _h: Hand = Hand::from(vec![Card::default(); 4]);
    let mut _h: Hand = Hand::default();
    let mut _h: Hand = Hand::from(vec![]);
}

#[test]
fn hand_draw_test() {
    let mut h = Hand::default();
    h.draw_card(Card::default());
}

#[test]
fn hand_discard_test() {
    let mut _h: Hand = Hand::from(vec![Card::default(); 4]);
}

#[test]
fn is_straight_test() {
    let c1 = Card::new(Suit::Club, Value::Five);
    let c2 = Card::new(Suit::Spade, Value::Four);
    let c3 = Card::new(Suit::Club, Value::Three);
    let c4 = Card::new(Suit::Diamond, Value::Two);
    let c5 = Card::new(Suit::Heart, Value::Ace);
    assert!(Hand::from(vec![c1, c2, c3, c4, c5]).is_straight());

    let c6 = Card::new(Suit::Diamond, Value::Ace);
    let c7 = Card::new(Suit::Heart, Value::King);
    let c8 = Card::new(Suit::Club, Value::Queen);
    let c9 = Card::new(Suit::Spade, Value::Jack);
    let c10 = Card::new(Suit::Spade, Value::Ten);
    assert!(Hand::from(vec![c6, c7, c8, c9, c10]).is_straight());
}

#[test]
fn is_flush_test() {
    let c1 = Card::new(Suit::Heart, Value::Ace);
    assert!(Hand::from(vec![c1, c1, c1, c1, c1]).is_flush());
}

#[test]
fn determine_hand_test() {
    let c1 = Card::new(Suit::Spade, Value::Ace);
    let c2 = Card::new(Suit::Spade, Value::King);
    let c3 = Card::new(Suit::Spade, Value::Queen);
    let c4 = Card::new(Suit::Spade, Value::Jack);
    let c5 = Card::new(Suit::Spade, Value::Ten);
    let c6 = Card::new(Suit::Spade, Value::Nine);
    let c7 = Card::new(Suit::Diamond, Value::Nine);
    // ROYAL FLUSH
    assert_eq!(
        Hand::from(vec![c1, c2, c3, c4, c5]).determine_hand(),
        HandType::RoyalFlush
    );
    // STRAIGHT FLUSH
    assert_eq!(
        Hand::from(vec![c2, c3, c4, c5, c6]).determine_hand(),
        HandType::StraightFlush {
            kicker: Value::King
        }
    );
    // FOUR KIND
    assert_eq!(
        Hand::from(vec![c2, c2, c2, c2, c7]).determine_hand(),
        HandType::FourKind {
            kind_value: c2.value,
            kicker: c7.value
        }
    );
    // FULL HOUSE
    assert_eq!(
        Hand::from(vec![c2, c2, c2, c7, c7]).determine_hand(),
        HandType::FullHouse {
            three_value: c2.value,
            two_value: c7.value
        }
    );

    // FLUSH
    assert_eq!(
        Hand::from(vec![c1, c2, c3, c2, c4]).determine_hand(),
        HandType::Flush {
            cards: vec![c2.value, c2.value, c2.value, c2.value, c7.value]
        }
    );

    // STRAIGHT
    assert_eq!(
        Hand::from(vec![c2, c3, c4, c5, c7]).determine_hand(),
        HandType::Straight { kicker: c2.value }
    );

    // THREE KIND
    assert_eq!(
        Hand::from(vec![c2, c2, c2, c5, c7]).determine_hand(),
        HandType::ThreeKind {
            three_value: c2.value,
            other_cards: vec![c5.value, c6.value]
        }
    );
    // TWO PAIR
    assert_eq!(
        Hand::from(vec![c2, c2, c3, c3, c7]).determine_hand(),
        HandType::TwoPair {
            pair_one: c2.value,
            pair_two: c3.value,
            kicker: c6.value
        }
    );
    // PAIR
    assert_eq!(
        Hand::from(vec![c1, c2, c3, c7, c7]).determine_hand(),
        HandType::Pair {
            pair: c6.value,
            other_cards: vec![c1.value, c2.value, c3.value]
        }
    );
    // HIGH CARD
    assert_eq!(
        Hand::from(vec![c1, c2, c3, c4, c7]).determine_hand(),
        HandType::HighCard {
            cards: vec![c1.value, c2.value, c3.value, c4.value, c7.value]
        }
    );
}
