use vstd::prelude::*;
use vstd::std_specs::cmp::PartialEqSpecImpl;
use vstd::std_specs::cmp::PartialOrdSpecImpl;
use core::cmp::Ordering;

use crate::card::Card;
use crate::hand::hand_type::{compare_optional, optional_order};
use crate::hand::ranking::{classifiable, classify, ranked};
use crate::hand::{Hand, cards_after_draw, draw_allowed, kind_after_draw, kind_of};

verus! {

/// A seat at the table: the player's hand, whether they have folded, their
/// chips and what they have bet in the current round.
#[derive(Debug, Clone)]
pub struct Player {
    pub hand: Hand,
    pub has_folded: bool,
    pub chip_stack: u32,
    pub current_bet: u32,
}

/// `s` with `x` put before its first element smaller than `x`.
pub open spec fn insert_descending(s: Seq<u32>, x: u32) -> Seq<u32>
    decreases s.len(),
{
    if s.len() == 0 {
        seq![x]
    } else if s[0] < x {
        seq![x] + s
    } else {
        seq![s[0]] + insert_descending(s.drop_first(), x)
    }
}

/// `s` sorted from the largest number down.
pub open spec fn sort_descending(s: Seq<u32>) -> Seq<u32>
    decreases s.len(),
{
    if s.len() == 0 {
        Seq::empty()
    } else {
        insert_descending(sort_descending(s.drop_last()), s.last())
    }
}

/// Whether the positions `ts`, removed one after the other, each lie within
/// the cards that remain.
pub open spec fn removable(h: Seq<Card>, ts: Seq<u32>) -> bool
    decreases ts.len(),
{
    ts.len() == 0 || (ts[0] < h.len() && removable(h.remove(ts[0] as int), ts.drop_first()))
}

/// `h` once the positions `ts` are removed one after the other.
pub open spec fn remove_positions(h: Seq<Card>, ts: Seq<u32>) -> Seq<Card>
    decreases ts.len(),
{
    if ts.len() == 0 {
        h
    } else {
        remove_positions(h.remove(ts[0] as int), ts.drop_first())
    }
}

/// The position at which `x` goes in a sequence sorted from the largest down.
fn descending_slot(s: &Vec<u32>, x: u32) -> (p: usize)
    ensures
        p <= s@.len(),
        s@.insert(p as int, x) == insert_descending(s@, x),
{
    let mut p: usize = 0;
    assert(s@.skip(0) =~= s@);
    assert(s@.take(0) + insert_descending(s@, x) =~= insert_descending(s@, x));
    while p < s.len() && s[p] >= x
        invariant
            p <= s@.len(),
            insert_descending(s@, x) == s@.take(p as int) + insert_descending(s@.skip(p as int), x),
        decreases s@.len() - p,
    {
        assert(s@.skip(p as int).drop_first() =~= s@.skip(p + 1));
        assert(s@.skip(p as int)[0] == s@[p as int]);
        assert(s@.take(p + 1) =~= s@.take(p as int) + seq![s@[p as int]]);
        assert(s@.take(p as int) + insert_descending(s@.skip(p as int), x) =~= s@.take(p + 1)
            + insert_descending(s@.skip(p + 1), x));
        p = p + 1;
    }
    assert(s@.insert(p as int, x) =~= s@.take(p as int) + insert_descending(s@.skip(p as int), x));
    p
}

/// Sorts the numbers from the largest down.
fn sort_numbers_descending(v: &mut Vec<u32>)
    ensures
        final(v)@ == sort_descending(old(v)@),
{
    let ghost s = v@;
    let mut out: Vec<u32> = Vec::new();
    let mut i: usize = 0;
    assert(s.take(0) =~= Seq::<u32>::empty());
    while i < v.len()
        invariant
            i <= v@.len(),
            s == v@,
            out@ == sort_descending(s.take(i as int)),
        decreases v@.len() - i,
    {
        let x = v[i];
        assert(s.take(i + 1).drop_last() =~= s.take(i as int));
        assert(s.take(i + 1).last() == x);
        let p = descending_slot(&out, x);
        out.insert(p, x);
        i = i + 1;
    }
    assert(s.take(i as int) =~= s);
    *v = out;
}

impl Default for Player {
    /// A player with an empty hand, 2000 chips, no bet, not folded.
    fn default() -> (p: Player)
        ensures
            p.hand.hand@ == Seq::<Card>::empty(),
            p.hand.hand_type is None,
            p.hand.hand_max == 5,
            p.chip_stack == 2000,
            !p.has_folded,
            p.current_bet == 0,
    {
        Player { hand: Hand::default(), chip_stack: 2000, has_folded: false, current_bet: 0 }
    }
}

impl Player {
    /// A player with a hand of the given cards and `c` chips.
    pub fn new(h: Vec<Card>, c: u32) -> (p: Player)
        requires
            h@.len() > 0 ==> classifiable(h@),
        ensures
            p.hand.hand_max == h@.len(),
            h@.len() == 0 ==> p.hand.hand@ == h@ && p.hand.hand_type is None,
            h@.len() > 0 ==> p.hand.hand@ == ranked(h@) && kind_of(p.hand.hand_type) == Some(
                classify(h@),
            ),
            p.chip_stack == c,
            !p.has_folded,
            p.current_bet == 0,
    {
        Player { hand: Hand::from(h), chip_stack: c, has_folded: false, current_bet: 0 }
    }

    /// The player's hand.
    pub fn get_hand(&self) -> (h: &Hand)
        ensures
            *h == self.hand,
    {
        &self.hand
    }

    /// The player's hand, to change in place.
    pub fn mut_hand(&mut self) -> (h: &mut Hand)
        ensures
            *h == old(self).hand,
            *final(self) == (Player { hand: *final(h), ..*old(self) }),
    {
        &mut self.hand
    }

    /// Discards the cards at the given positions: the positions are sorted
    /// from the largest down, then removed one after the other.
    pub fn discard_cards(&mut self, targets: &mut Vec<u32>)
        requires
            removable(old(self).hand.hand@, sort_descending(old(targets)@)),
        ensures
            final(targets)@ == sort_descending(old(targets)@),
            final(self).hand.hand@ == remove_positions(old(self).hand.hand@, final(targets)@),
            final(self).hand.hand_type == old(self).hand.hand_type,
            final(self).hand.hand_max == old(self).hand.hand_max,
            final(self).chip_stack == old(self).chip_stack,
            final(self).has_folded == old(self).has_folded,
            final(self).current_bet == old(self).current_bet,
    {
        sort_numbers_descending(targets);
        let ghost ts = targets@;
        let ghost h = self.hand.hand@;
        let mut k: usize = 0;
        assert(ts.skip(0) =~= ts);
        while k < targets.len()
            invariant
                k <= ts.len(),
                ts == targets@,
                removable(self.hand.hand@, ts.skip(k as int)),
                remove_positions(h, ts) == remove_positions(self.hand.hand@, ts.skip(k as int)),
                self.hand.hand_type == old(self).hand.hand_type,
                self.hand.hand_max == old(self).hand.hand_max,
                self.chip_stack == old(self).chip_stack,
                self.has_folded == old(self).has_folded,
                self.current_bet == old(self).current_bet,
            decreases ts.len() - k,
        {
            let num = targets[k];
            assert(ts.skip(k as int)[0] == num);
            assert(ts.skip(k as int).drop_first() =~= ts.skip(k + 1));
            self.hand.hand.remove(num as usize);
            k = k + 1;
        }
        assert(ts.skip(k as int) =~= Seq::<u32>::empty());
    }

    /// Draws a card into the player's hand (see `Hand::draw_card`).
    pub fn draw_card(&mut self, c: Card)
        requires
            draw_allowed(old(self).hand.hand@, old(self).hand.hand_max, c),
        ensures
            final(self).hand.hand_max == old(self).hand.hand_max,
            final(self).hand.hand@ == cards_after_draw(
                old(self).hand.hand@,
                old(self).hand.hand_max,
                c,
            ),
            kind_of(final(self).hand.hand_type) == kind_after_draw(
                old(self).hand.hand@,
                kind_of(old(self).hand.hand_type),
                old(self).hand.hand_max,
                c,
            ),
            final(self).chip_stack == old(self).chip_stack,
            final(self).has_folded == old(self).has_folded,
            final(self).current_bet == old(self).current_bet,
    {
        self.hand.draw_card(c);
    }

    /// The player's chips, to change in place.
    pub fn mut_stack(&mut self) -> (stack: &mut u32)
        ensures
            *stack == old(self).chip_stack,
            *final(self) == (Player { chip_stack: *final(stack), ..*old(self) }),
    {
        &mut self.chip_stack
    }

    /// Adds chips to the player's stack.
    pub fn up_stack(&mut self, value: u32)
        requires
            old(self).chip_stack + value <= u32::MAX,
        ensures
            *final(self) == (Player { chip_stack: (old(self).chip_stack + value) as u32, ..*old(self) }),
    {
        self.chip_stack = self.chip_stack + value;
    }

    /// Takes chips from the player's stack; refused, with the stack
    /// unchanged, when the stack holds fewer chips than asked.
    pub fn down_stack(&mut self, value: u32) -> (r: Result<(), String>)
        ensures
            old(self).chip_stack < value ==> {
                &&& r matches Err(e) && e@ == "Not enough :("@
                &&& *final(self) == *old(self)
            },
            old(self).chip_stack >= value ==> {
                &&& r is Ok
                &&& *final(self) == (Player {
                    chip_stack: (old(self).chip_stack - value) as u32,
                    ..*old(self)
                })
            },
    {
        if self.chip_stack < value {
            return Err("Not enough :(".to_owned());
        }
        self.chip_stack = self.chip_stack - value;
        Ok(())
    }

    /// The player's chips.
    pub fn get_stack(&self) -> (stack: u32)
        ensures
            stack == self.chip_stack,
    {
        self.chip_stack
    }

    /// Whether the player has no chips left.
    pub fn is_all_in(&self) -> (all_in: bool)
        ensures
            all_in == (self.chip_stack == 0),
    {
        self.chip_stack == 0
    }
}

/// Adding chips and then taking the same number away gives back the player
/// as they were, and taking them away is then never refused.
pub proof fn lemma_up_then_down_restores(p: Player, value: u32)
    requires
        p.chip_stack + value <= u32::MAX,
    ensures
        ({
            let up = Player { chip_stack: (p.chip_stack + value) as u32, ..p };
            &&& up.chip_stack >= value
            &&& Player { chip_stack: (up.chip_stack - value) as u32, ..up } == p
        }),
{
}

/// Players compare as their hands do.
impl PartialEq for Player {
    fn eq(&self, other: &Self) -> (same: bool) {
        match (&self.hand.hand_type, &other.hand.hand_type) {
            (None, None) => true,
            (Some(a), Some(b)) => a.hand_value() == b.hand_value(),
            _ => false,
        }
    }
}

impl PartialEqSpecImpl for Player {
    open spec fn obeys_eq_spec() -> bool {
        true
    }

    open spec fn eq_spec(&self, other: &Player) -> bool {
        match (kind_of(self.hand.hand_type), kind_of(other.hand.hand_type)) {
            (None, None) => true,
            (Some(a), Some(b)) => a.tier() == b.tier(),
            _ => false,
        }
    }
}

impl Eq for Player {}

impl PartialOrd for Player {
    fn partial_cmp(&self, other: &Self) -> (o: Option<Ordering>) {
        Some(compare_optional(&self.hand.hand_type, &other.hand.hand_type))
    }
}

impl PartialOrdSpecImpl for Player {
    open spec fn obeys_partial_cmp_spec() -> bool {
        true
    }

    open spec fn partial_cmp_spec(&self, other: &Player) -> Option<Ordering> {
        Some(optional_order(kind_of(self.hand.hand_type), kind_of(other.hand.hand_type)))
    }
}

} // verus!
