use vstd::prelude::*;
use rand::seq::SliceRandom;

use crate::card::Card;
use crate::card::suit::Suit;
use crate::card::value::Value;

verus! {

/// A deck of cards; the next card dealt is the last one.
#[derive(Debug, Clone)]
pub struct Deck {
    pub cards: Vec<Card>,
}

/// The suits in the order the deck is built: clubs, spades, hearts, diamonds.
pub open spec fn suit_at(k: int) -> Suit {
    if k == 0 {
        Suit::Club
    } else if k == 1 {
        Suit::Spade
    } else if k == 2 {
        Suit::Heart
    } else {
        Suit::Diamond
    }
}

/// The values in the order the deck is built: from the ace down to the two.
pub open spec fn value_at(k: int) -> Value {
    if k == 0 {
        Value::Ace
    } else if k == 1 {
        Value::King
    } else if k == 2 {
        Value::Queen
    } else if k == 3 {
        Value::Jack
    } else if k == 4 {
        Value::Ten
    } else if k == 5 {
        Value::Nine
    } else if k == 6 {
        Value::Eight
    } else if k == 7 {
        Value::Seven
    } else if k == 8 {
        Value::Six
    } else if k == 9 {
        Value::Five
    } else if k == 10 {
        Value::Four
    } else if k == 11 {
        Value::Three
    } else {
        Value::Two
    }
}

/// The 52 cards before shuffling: suit by suit, and within a suit from the
/// ace down.
pub open spec fn ordered_deck() -> Seq<Card> {
    Seq::new(52, |i: int| Card { suit: suit_at(i / 13), value: value_at(i % 13) })
}

fn suit_for(k: usize) -> (s: Suit)
    requires
        k < 4,
    ensures
        s == suit_at(k as int),
{
    if k == 0 {
        Suit::Club
    } else if k == 1 {
        Suit::Spade
    } else if k == 2 {
        Suit::Heart
    } else {
        Suit::Diamond
    }
}

fn value_for(k: usize) -> (v: Value)
    requires
        k < 13,
    ensures
        v == value_at(k as int),
{
    if k == 0 {
        Value::Ace
    } else if k == 1 {
        Value::King
    } else if k == 2 {
        Value::Queen
    } else if k == 3 {
        Value::Jack
    } else if k == 4 {
        Value::Ten
    } else if k == 5 {
        Value::Nine
    } else if k == 6 {
        Value::Eight
    } else if k == 7 {
        Value::Seven
    } else if k == 8 {
        Value::Six
    } else if k == 9 {
        Value::Five
    } else if k == 10 {
        Value::Four
    } else if k == 11 {
        Value::Three
    } else {
        Value::Two
    }
}

/// Shuffles the cards in place with `rand`'s `SliceRandom::shuffle` and the
/// thread's random generator. Stated: the cards after are a rearrangement
/// of the cards before. The order that comes out rests on chance and is not
/// stated.
#[verifier::external_body]
fn shuffle_cards(cards: &mut Vec<Card>)
    ensures
        final(cards)@.to_multiset() == old(cards)@.to_multiset(),
{
    cards.shuffle(&mut rand::rng());
}

impl Deck {
    /// A shuffled deck of the 52 cards.
    pub fn new() -> (deck: Deck)
        ensures
            deck.cards@.to_multiset() == ordered_deck().to_multiset(),
            deck.cards@.len() == 52,
    {
        let mut cards: Vec<Card> = Vec::new();
        let mut i: usize = 0;
        while i < 52
            invariant
                i <= 52,
                cards@ == ordered_deck().take(i as int),
            decreases 52 - i,
        {
            cards.push(Card::new(suit_for(i / 13), value_for(i % 13)));
            i = i + 1;
            assert(cards@ =~= ordered_deck().take(i as int));
        }
        assert(ordered_deck().take(52) =~= ordered_deck());
        let ghost before = cards@;
        shuffle_cards(&mut cards);
        proof {
            before.to_multiset_ensures();
            cards@.to_multiset_ensures();
        }
        Deck { cards }
    }
}

/// The position of a suit in the order the deck is built.
pub open spec fn suit_index(s: Suit) -> int {
    match s {
        Suit::Club => 0,
        Suit::Spade => 1,
        Suit::Heart => 2,
        Suit::Diamond => 3,
    }
}

/// The position of a value in the order the deck is built.
pub open spec fn value_index(v: Value) -> int {
    14 - v.rank()
}

/// The unshuffled deck holds each of the 52 cards once.
pub proof fn lemma_ordered_deck_complete()
    ensures
        ordered_deck().no_duplicates(),
        forall|c: Card| ordered_deck().contains(c),
        forall|c: Card| ordered_deck().to_multiset().count(c) == 1,
{
    let d = ordered_deck();
    assert forall|i: int, j: int| 0 <= i < d.len() && 0 <= j < d.len() && i != j implies d[i]
        != d[j] by {
        if d[i] == d[j] {
            assert(i / 13 == j / 13);
            assert(i % 13 == j % 13);
        }
    }
    assert forall|c: Card| d.contains(c) by {
        let i = 13 * suit_index(c.suit) + value_index(c.value);
        assert(i / 13 == suit_index(c.suit));
        assert(i % 13 == value_index(c.value));
        assert(d[i] == c);
    }
    d.lemma_multiset_has_no_duplicates();
    assert forall|c: Card| d.to_multiset().count(c) == 1 by {
        vstd::seq_lib::to_multiset_contains(d, c);
    }
}

/// A deck that is a rearrangement of the 52 cards, as `Deck::new` gives,
/// holds every card exactly once.
pub proof fn lemma_deck_cards_once(cards: Seq<Card>)
    requires
        cards.to_multiset() == ordered_deck().to_multiset(),
    ensures
        forall|c: Card| cards.to_multiset().count(c) == 1,
{
    lemma_ordered_deck_complete();
}

} // verus!
