use vstd::prelude::*;

verus! {

/// The value of a playing card. The variants run from the lowest to the
/// highest, so that the derived order agrees with `numeric_value`.
#[derive(Debug, Clone, Copy, Hash, PartialEq, Eq, Structural, PartialOrd, Ord)]
pub enum Value {
    Two,
    Three,
    Four,
    Five,
    Six,
    Seven,
    Eight,
    Nine,
    Ten,
    Jack,
    Queen,
    King,
    Ace,
}

impl Value {
    /// The numeric value: 2 to 10 for the number cards, then 11 (jack),
    /// 12 (queen), 13 (king) and 14 (ace).
    pub open spec fn rank(self) -> u32 {
        match self {
            Value::Ace => 14,
            Value::King => 13,
            Value::Queen => 12,
            Value::Jack => 11,
            Value::Ten => 10,
            Value::Nine => 9,
            Value::Eight => 8,
            Value::Seven => 7,
            Value::Six => 6,
            Value::Five => 5,
            Value::Four => 4,
            Value::Three => 3,
            Value::Two => 2,
        }
    }

    /// The symbol printed for the value: "A", "K", "Q", "J", then the number.
    pub open spec fn symbol_text(self) -> Seq<char> {
        match self {
            Value::Ace => "A"@,
            Value::King => "K"@,
            Value::Queen => "Q"@,
            Value::Jack => "J"@,
            Value::Ten => "10"@,
            Value::Nine => "9"@,
            Value::Eight => "8"@,
            Value::Seven => "7"@,
            Value::Six => "6"@,
            Value::Five => "5"@,
            Value::Four => "4"@,
            Value::Three => "3"@,
            Value::Two => "2"@,
        }
    }

    pub fn numeric_value(&self) -> (n: u32)
        ensures
            n == self.rank(),
    {
        match *self {
            Value::Ace => 14,
            Value::King => 13,
            Value::Queen => 12,
            Value::Jack => 11,
            Value::Ten => 10,
            Value::Nine => 9,
            Value::Eight => 8,
            Value::Seven => 7,
            Value::Six => 6,
            Value::Five => 5,
            Value::Four => 4,
            Value::Three => 3,
            Value::Two => 2,
        }
    }

    /// The symbol of the value, as it is displayed.
    pub fn symbol(&self) -> (s: &'static str)
        ensures
            s@ == self.symbol_text(),
    {
        match *self {
            Value::Ace => "A",
            Value::King => "K",
            Value::Queen => "Q",
            Value::Jack => "J",
            Value::Ten => "10",
            Value::Nine => "9",
            Value::Eight => "8",
            Value::Seven => "7",
            Value::Six => "6",
            Value::Five => "5",
            Value::Four => "4",
            Value::Three => "3",
            Value::Two => "2",
        }
    }
}

/// Two values are equal exactly when their numeric values are.
pub proof fn lemma_rank_injective(a: Value, b: Value)
    ensures
        (a.rank() == b.rank()) <==> (a == b),
{
}

} // verus!
