use vstd::prelude::*;

verus! {

/// The suit of a playing card.
#[derive(Debug, Clone, Copy, Hash, PartialEq, Eq, Structural)]
pub enum Suit {
    Club,
    Spade,
    Heart,
    Diamond,
}

} // verus!
