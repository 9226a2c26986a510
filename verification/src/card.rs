pub mod suit;
pub mod value;

use vstd::prelude::*;
use vstd::std_specs::cmp::PartialEqSpecImpl;
use vstd::std_specs::cmp::PartialOrdSpecImpl;
use core::cmp::Ordering;

use suit::Suit;
use value::Value;

verus! {

/// A playing card: a suit and a value.
#[derive(Debug, Clone, Copy)]
pub struct Card {
    pub suit: Suit,
    pub value: Value,
}

impl Card {
    /// The card with the given suit and value.
    pub fn new(suit: Suit, value: Value) -> (card: Card)
        ensures
            card == (Card { suit, value }),
    {
        Card { suit, value }
    }

    /// The numeric value of the card (2 to 10, 11 for a jack, up to 14 for an ace).
    pub fn numeric_value(&self) -> (n: u32)
        ensures
            n == self.value.rank(),
    {
        self.value.numeric_value()
    }
}

impl Default for Card {
    /// The ace of diamonds.
    fn default() -> (card: Card)
        ensures
            card == (Card { suit: Suit::Diamond, value: Value::Ace }),
    {
        Card { suit: Suit::Diamond, value: Value::Ace }
    }
}

/// Two cards are equal when their values are equal, whatever their suits.
impl PartialEq for Card {
    fn eq(&self, other: &Self) -> (same: bool) {
        self.value.numeric_value() == other.value.numeric_value()
    }
}

impl PartialEqSpecImpl for Card {
    open spec fn obeys_eq_spec() -> bool {
        true
    }

    open spec fn eq_spec(&self, other: &Card) -> bool {
        self.value.rank() == other.value.rank()
    }
}

impl Eq for Card {}

/// The order of the ranks, as `u32`'s comparison gives it.
pub open spec fn rank_order(a: u32, b: u32) -> Ordering {
    if a < b {
        Ordering::Less
    } else if a > b {
        Ordering::Greater
    } else {
        Ordering::Equal
    }
}

/// The comparison of two ranks.
pub fn compare_ranks(a: u32, b: u32) -> (o: Ordering)
    ensures
        o == rank_order(a, b),
{
    if a < b {
        Ordering::Less
    } else if a > b {
        Ordering::Greater
    } else {
        Ordering::Equal
    }
}

/// Cards are ordered by value alone.
impl PartialOrd for Card {
    fn partial_cmp(&self, other: &Self) -> (o: Option<Ordering>) {
        Some(compare_ranks(self.value.numeric_value(), other.value.numeric_value()))
    }
}

impl PartialOrdSpecImpl for Card {
    open spec fn obeys_partial_cmp_spec() -> bool {
        true
    }

    open spec fn partial_cmp_spec(&self, other: &Card) -> Option<Ordering> {
        Some(rank_order(self.value.rank(), other.value.rank()))
    }
}

} // verus!
