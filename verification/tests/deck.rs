use poker::card::suit::Suit;
use poker::card::value::Value;
use poker::deck::Deck;

#[test]
fn deck_test() {
    let deck = Deck::new();
    println!("{:?}", deck);
}

#[test]
fn deck_holds_every_card_once() {
    let deck = Deck::new();
    assert_eq!(deck.cards.len(), 52);
    let suits = [Suit::Club, Suit::Spade, Suit::Heart, Suit::Diamond];
    let values = [
        Value::Ace,
        Value::King,
        Value::Queen,
        Value::Jack,
        Value::Ten,
        Value::Nine,
        Value::Eight,
        Value::Seven,
        Value::Six,
        Value::Five,
        Value::Four,
        Value::Three,
        Value::Two,
    ];
    for s in suits.iter() {
        for v in values.iter() {
            let n = deck.cards.iter().filter(|c| c.suit == *s && c.value == *v).count();
            assert_eq!(n, 1);
        }
    }
}

#[test]
fn new_deck_is_shuffled() {
    let deck = Deck::new();
    let suits = [Suit::Club, Suit::Spade, Suit::Heart, Suit::Diamond];
    let values = [
        Value::Ace,
        Value::King,
        Value::Queen,
        Value::Jack,
        Value::Ten,
        Value::Nine,
        Value::Eight,
        Value::Seven,
        Value::Six,
        Value::Five,
        Value::Four,
        Value::Three,
        Value::Two,
    ];
    let mut in_build_order = true;
    let mut i = 0;
    for s in suits.iter() {
        for v in values.iter() {
            let c = deck.cards[i];
            if c.suit != *s || c.value != *v {
                in_build_order = false;
            }
            i += 1;
        }
    }
    assert!(!in_build_order);
}
