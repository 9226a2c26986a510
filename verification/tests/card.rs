use poker::card::suit::Suit;
use poker::card::value::Value;
use poker::card::Card;

#[test]
fn card_basics() {
    let _card = Card::default();
    let _card = Card::new(Suit::Diamond, Value::Ace);
}

#[test]
fn numeric_value_test() {
    assert_eq!(Value::Ace.numeric_value(), 14);
    assert_eq!(Value::King.numeric_value(), 13);
    assert_eq!(Value::Queen.numeric_value(), 12);
    assert_eq!(Value::Jack.numeric_value(), 11);
    assert_eq!(Value::Ten.numeric_value(), 10);
    assert_eq!(Value::Two.numeric_value(), 2);
    assert_eq!(Card::new(Suit::Club, Value::Seven).numeric_value(), 7);
}

#[test]
fn display_test() {
    assert_eq!(Value::Ace.symbol(), "A");
    assert_eq!(Value::King.symbol(), "K");
    assert_eq!(Value::Queen.symbol(), "Q");
    assert_eq!(Value::Jack.symbol(), "J");
    assert_eq!(Value::Ten.symbol(), "10");
    assert_eq!(Value::Two.symbol(), "2");
}

#[test]
fn default_card_is_ace_of_diamonds() {
    let c = Card::default();
    assert_eq!(c.suit, Suit::Diamond);
    assert_eq!(c.value, Value::Ace);
}

#[test]
fn cards_compare_by_value_only() {
    let a = Card::new(Suit::Club, Value::Nine);
    let b = Card::new(Suit::Heart, Value::Nine);
    let c = Card::new(Suit::Club, Value::Ten);
    assert!(a == b);
    assert!(a != c);
    assert!(c > a);
    assert!(a < c);
    assert_eq!(a.partial_cmp(&b), Some(std::cmp::Ordering::Equal));
}

#[test]
fn value_order_follows_numeric_value() {
    let mut values = vec![Value::Ace, Value::Two, Value::King, Value::Ten];
    values.sort();
    assert_eq!(values, vec![Value::Two, Value::Ten, Value::King, Value::Ace]);
}
