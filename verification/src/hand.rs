pub mod hand_type;
pub mod laws;
pub mod ranking;
pub mod sorting;

use vstd::prelude::*;
use vstd::std_specs::cmp::PartialEqSpecImpl;
use vstd::std_specs::cmp::PartialOrdSpecImpl;
use core::cmp::Ordering;

use crate::card::Card;
use hand_type::{HandKind, HandType, compare_optional, optional_order};
use ranking::{
    all_same_suit, card_values, classifiable, classify, classify_by_pairs, has_ace,
    kicker_missing_from, lemma_resorted_top, lemma_sorted_ace_first, lemma_sorted_suits_and_aces,
    pairs_kind, ranked, straight_check, straight_run, values,
};
use sorting::{lemma_sorted_descending, sort_high_to_low, sorted_high_to_low};

verus! {

/// The cards a player holds, the category they were last found to make, and
/// the most cards the hand takes when drawing.
#[derive(Debug, Clone)]
pub struct Hand {
    pub hand: Vec<Card>,
    pub hand_type: Option<HandType>,
    pub hand_max: usize,
}

/// The model of an optional hand type.
pub open spec fn kind_of(t: Option<HandType>) -> Option<HandKind> {
    match t {
        Some(k) => Some(k@),
        None => None,
    }
}

/// The cards of a hand, with limit `max`, once `c` is drawn: `c` joins them
/// while there is room.
pub open spec fn cards_with_draw(cards: Seq<Card>, max: usize, c: Card) -> Seq<Card> {
    if max > cards.len() {
        cards.push(c)
    } else {
        cards
    }
}

/// Whether drawing `c` can be done: the hand it makes is classifiable when it
/// holds more than one card.
pub open spec fn draw_allowed(cards: Seq<Card>, max: usize, c: Card) -> bool {
    cards_with_draw(cards, max, c).len() > 1 ==> classifiable(cards_with_draw(cards, max, c))
}

/// The cards of the hand after drawing `c`: sorted by the classification when
/// they are more than one.
pub open spec fn cards_after_draw(cards: Seq<Card>, max: usize, c: Card) -> Seq<Card> {
    let p = cards_with_draw(cards, max, c);
    if p.len() > 1 {
        ranked(p)
    } else {
        p
    }
}

/// The category of the hand after drawing `c`: that of its cards when they
/// are more than one, else unchanged.
pub open spec fn kind_after_draw(
    cards: Seq<Card>,
    kind: Option<HandKind>,
    max: usize,
    c: Card,
) -> Option<HandKind> {
    let p = cards_with_draw(cards, max, c);
    if p.len() > 1 {
        Some(classify(p))
    } else {
        kind
    }
}

/// A copy of the cards.
pub fn copy_cards(cards: &Vec<Card>) -> (copy: Vec<Card>)
    ensures
        copy@ == cards@,
{
    let mut out: Vec<Card> = Vec::new();
    let mut i: usize = 0;
    while i < cards.len()
        invariant
            i <= cards@.len(),
            out@ == cards@.take(i as int),
        decreases cards@.len() - i,
    {
        out.push(cards[i]);
        i = i + 1;
        assert(out@ =~= cards@.take(i as int));
    }
    assert(cards@.take(i as int) =~= cards@);
    out
}

impl Hand {
    /// A hand of the given cards, which it takes as its limit; a non-empty
    /// hand is classified at once, which leaves its cards sorted.
    pub fn from(card_vec: Vec<Card>) -> (h: Hand)
        requires
            card_vec@.len() > 0 ==> classifiable(card_vec@),
        ensures
            h.hand_max == card_vec@.len(),
            card_vec@.len() == 0 ==> h.hand@ == card_vec@ && h.hand_type is None,
            card_vec@.len() > 0 ==> h.hand@ == ranked(card_vec@) && kind_of(h.hand_type) == Some(
                classify(card_vec@),
            ),
    {
        let n = card_vec.len();
        let mut return_hand = Hand { hand: card_vec, hand_type: None, hand_max: n };
        if n > 0 {
            let kind = return_hand.determine_hand();
            return_hand.hand_type = Some(kind);
        }
        return_hand
    }

    /// Whether every card has the suit of the first; an empty hand is no flush.
    pub fn is_flush(&self) -> (flush: bool)
        ensures
            flush == all_same_suit(self.hand@),
    {
        if self.hand.len() == 0 {
            return false;
        }
        let target_suit = self.hand[0].suit;
        let mut i: usize = 0;
        while i < self.hand.len()
            invariant
                i <= self.hand@.len(),
                self.hand@.len() > 0,
                target_suit == self.hand@[0].suit,
                forall|k: int| 0 <= k < i ==> #[trigger] self.hand@[k].suit == target_suit,
            decreases self.hand@.len() - i,
        {
            if self.hand[i].suit != target_suit {
                return false;
            }
            i = i + 1;
        }
        true
    }

    /// Sorts the hand, highest value first, and tells whether its values run
    /// in a straight (see `straight_run`).
    pub fn is_straight(&mut self) -> (straight: bool)
        requires
            old(self).hand@.len() >= 1,
            has_ace(old(self).hand@) ==> old(self).hand@.len() >= 2,
        ensures
            final(self).hand@ == sorted_high_to_low(old(self).hand@),
            final(self).hand_type == old(self).hand_type,
            final(self).hand_max == old(self).hand_max,
            straight == straight_run(values(final(self).hand@)),
    {
        proof {
            lemma_sorted_suits_and_aces(self.hand@);
            lemma_sorted_ace_first(self.hand@);
            lemma_sorted_descending(self.hand@);
        }
        self.hand = sort_high_to_low(&self.hand);
        straight_check(&self.hand)
    }

    /// The category that the repeated values of the hand make.
    fn check_pairs(&mut self) -> (kind: HandType)
        requires
            !kicker_missing_from(old(self).hand@, 0),
        ensures
            kind@ == pairs_kind(old(self).hand@),
            *final(self) == *old(self),
    {
        classify_by_pairs(&self.hand)
    }

    /// Classifies the hand (see `classify`); the hand is left sorted as
    /// `ranked` says.
    pub fn determine_hand(&mut self) -> (kind: HandType)
        requires
            classifiable(old(self).hand@),
        ensures
            kind@ == classify(old(self).hand@),
            final(self).hand@ == ranked(old(self).hand@),
            final(self).hand_type == old(self).hand_type,
            final(self).hand_max == old(self).hand_max,
    {
        let ghost h = self.hand@;
        proof {
            reveal(classify);
            reveal(classifiable);
            reveal(ranked);
            lemma_sorted_suits_and_aces(h);
            lemma_resorted_top(h);
        }
        self.hand = sort_high_to_low(&self.hand);
        let highest_card = self.hand[0];
        assert(values(ranked(h))[0] == ranked(h)[0].value);
        if self.is_flush() {
            if self.is_straight() {
                if highest_card.numeric_value() == 14 && self.hand[1].numeric_value() != 5 {
                    HandType::RoyalFlush
                } else {
                    HandType::StraightFlush { kicker: highest_card.value }
                }
            } else {
                HandType::Flush { cards: card_values(&self.hand) }
            }
        } else if self.is_straight() {
            HandType::Straight { kicker: highest_card.value }
        } else {
            self.check_pairs()
        }
    }

    /// Replaces the cards of the hand.
    pub fn set_hand(&mut self, cards: Vec<Card>)
        ensures
            final(self).hand@ == cards@,
            final(self).hand_type == old(self).hand_type,
            final(self).hand_max == old(self).hand_max,
    {
        self.hand = cards;
    }

    /// A copy of the cards of the hand.
    pub fn get_hand(&self) -> (cards: Vec<Card>)
        ensures
            cards@ == self.hand@,
    {
        copy_cards(&self.hand)
    }

    /// The cards of the hand, to change in place.
    pub fn mut_hand(&mut self) -> (cards: &mut Vec<Card>)
        ensures
            *cards == old(self).hand,
            final(self).hand == *final(cards),
            final(self).hand_type == old(self).hand_type,
            final(self).hand_max == old(self).hand_max,
    {
        &mut self.hand
    }

    /// Draws a card: it joins the hand while the hand has fewer cards than its
    /// limit; a hand of more than one card is then classified again.
    pub fn draw_card(&mut self, c: Card)
        requires
            draw_allowed(old(self).hand@, old(self).hand_max, c),
        ensures
            final(self).hand_max == old(self).hand_max,
            final(self).hand@ == cards_after_draw(old(self).hand@, old(self).hand_max, c),
            kind_of(final(self).hand_type) == kind_after_draw(
                old(self).hand@,
                kind_of(old(self).hand_type),
                old(self).hand_max,
                c,
            ),
    {
        if self.hand_max > self.hand.len() {
            self.hand.push(c);
        }
        if self.hand.len() > 1 {
            let kind = self.determine_hand();
            self.hand_type = Some(kind);
        }
    }
}

/// Drawing never takes a hand past its limit: the hand grows by one card
/// while below the limit, and stays as large once there.
pub proof fn lemma_draw_respects_limit(cards: Seq<Card>, max: usize, c: Card)
    ensures
        cards_after_draw(cards, max, c).len() == if max > cards.len() {
            cards.len() + 1
        } else {
            cards.len()
        },
        cards.len() <= max ==> cards_after_draw(cards, max, c).len() <= max,
{
    let p = cards_with_draw(cards, max, c);
    if p.len() > 1 {
        lemma_resorted_top(p);
    }
}

impl Default for Hand {
    /// An empty hand that takes up to five cards.
    fn default() -> (h: Hand)
        ensures
            h.hand@ == Seq::<Card>::empty(),
            h.hand_type is None,
            h.hand_max == 5,
    {
        Hand { hand: Vec::new(), hand_type: None, hand_max: 5 }
    }
}

/// Two hands are equal when their categories are of the same tier, or when
/// neither has been classified.
impl PartialEq for Hand {
    fn eq(&self, other: &Self) -> (same: bool) {
        match (&self.hand_type, &other.hand_type) {
            (None, None) => true,
            (Some(a), Some(b)) => a.hand_value() == b.hand_value(),
            _ => false,
        }
    }
}

impl PartialEqSpecImpl for Hand {
    open spec fn obeys_eq_spec() -> bool {
        true
    }

    open spec fn eq_spec(&self, other: &Hand) -> bool {
        match (kind_of(self.hand_type), kind_of(other.hand_type)) {
            (None, None) => true,
            (Some(a), Some(b)) => a.tier() == b.tier(),
            _ => false,
        }
    }
}

impl Eq for Hand {}

/// Hands are ordered by their categories; an unclassified hand comes first.
impl PartialOrd for Hand {
    fn partial_cmp(&self, other: &Self) -> (o: Option<Ordering>) {
        Some(compare_optional(&self.hand_type, &other.hand_type))
    }
}

impl PartialOrdSpecImpl for Hand {
    open spec fn obeys_partial_cmp_spec() -> bool {
        true
    }

    open spec fn partial_cmp_spec(&self, other: &Hand) -> Option<Ordering> {
        Some(optional_order(kind_of(self.hand_type), kind_of(other.hand_type)))
    }
}

} // verus!
