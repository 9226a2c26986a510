use poker::card::suit::Suit;
use poker::card::value::Value;
use poker::card::Card;
use poker::hand::hand_type::HandType;
use poker::hand::Hand;
use std::cmp::Ordering;

fn c(suit: Suit, value: Value) -> Card {
    Card::new(suit, value)
}

fn kind(cards: Vec<Card>) -> HandType {
    Hand::from(cards).hand_type.unwrap()
}

#[test]
fn classification_ignores_card_order() {
    let cards = vec![
        c(Suit::Club, Value::Queen),
        c(Suit::Diamond, Value::Four),
        c(Suit::Heart, Value::Queen),
        c(Suit::Spade, Value::Four),
        c(Suit::Club, Value::Nine),
    ];
    let mut reordered = cards.clone();
    reordered.reverse();
    reordered.swap(0, 2);
    let a = kind(cards);
    let b = kind(reordered);
    assert_eq!(a.hand_value(), 3);
    assert_eq!(a.compare(&b), Ordering::Equal);
    match (a, b) {
        (
            HandType::TwoPair { pair_one: p1, pair_two: q1, kicker: k1 },
            HandType::TwoPair { pair_one: p2, pair_two: q2, kicker: k2 },
        ) => {
            assert_eq!((p1, q1, k1), (p2, q2, k2));
            assert_eq!((p1, q1, k1), (Value::Queen, Value::Four, Value::Nine));
        }
        other => panic!("expected two pairs, got {:?}", other),
    }
}

#[test]
fn high_card_lists_values_from_the_highest() {
    let h = kind(vec![
        c(Suit::Club, Value::Three),
        c(Suit::Diamond, Value::King),
        c(Suit::Heart, Value::Seven),
        c(Suit::Spade, Value::Ten),
        c(Suit::Club, Value::Two),
    ]);
    match h {
        HandType::HighCard { cards } => assert_eq!(
            cards,
            vec![Value::King, Value::Ten, Value::Seven, Value::Three, Value::Two]
        ),
        other => panic!("expected a high card, got {:?}", other),
    }
}

#[test]
fn comparison_is_antisymmetric_and_transitive() {
    let hands = vec![
        HandType::HighCard { cards: vec![Value::Ace, Value::Two] },
        HandType::HighCard { cards: vec![Value::Ace, Value::Three] },
        HandType::Pair { pair: Value::Two, other_cards: vec![Value::Ace] },
        HandType::Pair { pair: Value::Two, other_cards: vec![Value::King] },
        HandType::TwoPair { pair_one: Value::Two, pair_two: Value::Three, kicker: Value::Four },
        HandType::TwoPair { pair_one: Value::Ace, pair_two: Value::King, kicker: Value::Queen },
        HandType::Flush { cards: vec![Value::King, Value::Nine] },
        HandType::FullHouse { three_value: Value::Four, two_value: Value::King },
        HandType::RoyalFlush,
    ];
    for a in hands.iter() {
        assert_eq!(a.compare(a), Ordering::Equal);
        for b in hands.iter() {
            assert_eq!(a.compare(b), b.compare(a).reverse());
            for x in hands.iter() {
                if a.compare(b) != Ordering::Greater && b.compare(x) != Ordering::Greater {
                    assert_ne!(a.compare(x), Ordering::Greater);
                }
            }
        }
    }
}

#[test]
fn two_pairs_compare_equal_whatever_their_values() {
    let low = HandType::TwoPair { pair_one: Value::Two, pair_two: Value::Three, kicker: Value::Four };
    let high = HandType::TwoPair { pair_one: Value::Ace, pair_two: Value::King, kicker: Value::Queen };
    assert_eq!(low.compare(&high), Ordering::Equal);
    assert!(low == high);
}

#[test]
fn wheel_flush_is_no_royal_flush_but_ace_high_is() {
    let wheel = kind(vec![
        c(Suit::Heart, Value::Five),
        c(Suit::Heart, Value::Ace),
        c(Suit::Heart, Value::Three),
        c(Suit::Heart, Value::Two),
        c(Suit::Heart, Value::Four),
    ]);
    assert_eq!(wheel.hand_value(), 9);
    let royal = kind(vec![
        c(Suit::Club, Value::Jack),
        c(Suit::Club, Value::Ace),
        c(Suit::Club, Value::Ten),
        c(Suit::Club, Value::King),
        c(Suit::Club, Value::Queen),
    ]);
    assert_eq!(royal.hand_value(), 10);
}

#[test]
fn drawing_stops_at_the_limit() {
    let mut h = Hand::default();
    for v in [Value::Two, Value::Five, Value::Nine, Value::Jack, Value::King, Value::Ace].iter() {
        h.draw_card(c(Suit::Spade, *v));
        assert!(h.get_hand().len() <= 5);
    }
    assert_eq!(h.get_hand().len(), 5);
    assert_eq!(h.hand_type.unwrap().hand_value(), 6);
}

#[test]
fn classified_hand_is_left_sorted_high_to_low() {
    let h = Hand::from(vec![
        c(Suit::Club, Value::Three),
        c(Suit::Diamond, Value::King),
        c(Suit::Heart, Value::Seven),
    ]);
    let values: Vec<Value> = h.get_hand().iter().map(|c| c.value).collect();
    assert_eq!(values, vec![Value::King, Value::Seven, Value::Three]);
}
