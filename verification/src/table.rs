pub mod player_action;
pub mod table_stages;

use vstd::prelude::*;

use crate::card::Card;
use crate::deck::{Deck, ordered_deck};
use crate::card::compare_ranks;
use crate::hand::hand_type::{HandKind, compare_optional, lemma_optional_order_laws, optional_order};
use crate::hand::ranking::{classifiable, classify, lemma_classifiable_nonempty};
use crate::hand::{Hand, cards_after_draw, copy_cards, draw_allowed, kind_after_draw, kind_of};
use crate::hand::sorting::{at, int_of};
use core::cmp::Ordering;
use crate::player::Player;
use player_action::PlayerAction;
use table_stages::TableStage;
use vstd::arithmetic::div_mod::{lemma_add_mod_noop_right, lemma_mod_add_multiples_vanish, lemma_small_mod};

verus! {

/// A poker table: its players, the shared cards, the blinds, the pot, the
/// dealer's and the current player's seats, the stage of the hand and the
/// deck.
pub struct Table {
    pub players: Vec<Player>,
    pub river: Vec<Card>,
    pub small_blind: u32,
    pub big_blind: u32,
    pub pot: u32,
    pub dealer_pos: u32,
    pub table_pos: u32,
    pub current_stage: TableStage,
    pub deck: Deck,
}

/// A player as a new table seats them: no cards (up to five), 2000 chips,
/// no bet, not folded.
pub open spec fn is_fresh(p: Player) -> bool {
    &&& p.hand.hand@ == Seq::<Card>::empty()
    &&& p.hand.hand_type is None
    &&& p.hand.hand_max == 5
    &&& p.chip_stack == 2000
    &&& !p.has_folded
    &&& p.current_bet == 0
}

/// How many of the first `upto` players have not folded.
pub open spec fn unfolded_before(ps: Seq<Player>, upto: int) -> nat
    decreases upto,
{
    if upto <= 0 {
        0
    } else {
        unfolded_before(ps, upto - 1) + if !ps[upto - 1].has_folded {
            1nat
        } else {
            0nat
        }
    }
}

/// Whether a player can be dealt `c1` and then `c2`.
#[verifier::opaque]
pub open spec fn deal_allowed(p: Player, c1: Card, c2: Card) -> bool {
    &&& draw_allowed(p.hand.hand@, p.hand.hand_max, c1)
    &&& draw_allowed(cards_after_draw(p.hand.hand@, p.hand.hand_max, c1), p.hand.hand_max, c2)
}

/// Whether `after` is `before` dealt `c1` and then `c2`.
#[verifier::opaque]
pub open spec fn dealt(before: Player, after: Player, c1: Card, c2: Card) -> bool {
    let max = before.hand.hand_max;
    let once = cards_after_draw(before.hand.hand@, max, c1);
    &&& after.hand.hand_max == max
    &&& after.hand.hand@ == cards_after_draw(once, max, c2)
    &&& kind_of(after.hand.hand_type) == kind_after_draw(
        once,
        kind_after_draw(before.hand.hand@, kind_of(before.hand.hand_type), max, c1),
        max,
        c2,
    )
    &&& after.chip_stack == before.chip_stack
    &&& after.has_folded == before.has_folded
    &&& after.current_bet == before.current_bet
}

/// The first card dealt to player `i`: the players before who have not
/// folded took two cards each from the top (the end) of the deck.
pub open spec fn first_deal(ps: Seq<Player>, deck: Seq<Card>, i: int) -> Card {
    deck[deck.len() - 1 - 2 * unfolded_before(ps, i)]
}

/// The second card dealt to player `i`.
pub open spec fn second_deal(ps: Seq<Player>, deck: Seq<Card>, i: int) -> Card {
    deck[deck.len() - 2 - 2 * unfolded_before(ps, i)]
}

/// Whether `after` is what player `i` of `ps` becomes when the deck `deck`
/// is dealt: unchanged when folded, else dealt its two cards.
pub open spec fn seat_after_deal(ps: Seq<Player>, deck: Seq<Card>, i: int, after: Player) -> bool {
    if ps[i].has_folded {
        after == ps[i]
    } else {
        dealt(ps[i], after, first_deal(ps, deck, i), second_deal(ps, deck, i))
    }
}

/// Whether the deck holds two cards for each player who has not folded, and
/// each of them can take the cards that come to them.
#[verifier::opaque]
pub open spec fn deal_possible(ps: Seq<Player>, deck: Seq<Card>) -> bool {
    &&& deck.len() >= 2 * unfolded_before(ps, ps.len() as int)
    &&& forall|i: int|
        0 <= i < ps.len() && !(#[trigger] ps[i]).has_folded ==> deal_allowed(
            ps[i],
            first_deal(ps, deck, i),
            second_deal(ps, deck, i),
        )
}

/// The number of players who have not folded never falls as more are
/// counted, and never exceeds the number counted.
proof fn lemma_unfolded_before_grows(ps: Seq<Player>, a: int, b: int)
    requires
        0 <= a <= b,
    ensures
        unfolded_before(ps, a) <= unfolded_before(ps, b),
        unfolded_before(ps, b) <= unfolded_before(ps, a) + (b - a),
    decreases b - a,
{
    if a < b {
        lemma_unfolded_before_grows(ps, a, b - 1);
    }
}

/// Deals the top card of the deck to the player, then the next one.
fn deal_two(p: &mut Player, deck: &mut Vec<Card>)
    requires
        old(deck)@.len() >= 2,
        deal_allowed(*old(p), old(deck)@[old(deck)@.len() - 1], old(deck)@[old(deck)@.len() - 2]),
    ensures
        dealt(*old(p), *final(p), old(deck)@[old(deck)@.len() - 1], old(deck)@[old(deck)@.len() - 2]),
        final(deck)@ == old(deck)@.take(old(deck)@.len() - 2),
{
    proof {
        reveal(deal_allowed);
        reveal(dealt);
    }
    let ghost d = deck@;
    let c1 = deck.pop().unwrap();
    p.hand.draw_card(c1);
    let c2 = deck.pop().unwrap();
    p.hand.draw_card(c2);
    assert(deck@ =~= d.take(d.len() - 2));
}

/// Whether a player still takes part in the betting: not folded, and with
/// chips left.
pub open spec fn is_active(p: Player) -> bool {
    !p.has_folded && p.chip_stack != 0
}

/// The bets of the players, in seat order.
pub open spec fn bets_of(ps: Seq<Player>) -> Seq<u32> {
    ps.map_values(|p: Player| p.current_bet)
}

/// The highest bet at the table (0 with no players).
pub open spec fn highest_bet(ps: Seq<Player>) -> u32
    decreases ps.len(),
{
    if ps.len() == 0 {
        0
    } else if highest_bet(ps.drop_last()) >= ps.last().current_bet {
        highest_bet(ps.drop_last())
    } else {
        ps.last().current_bet
    }
}

/// The highest bet is at least every bet, and is one of them when there is a
/// player.
pub proof fn lemma_highest_bet(ps: Seq<Player>)
    ensures
        forall|i: int| 0 <= i < ps.len() ==> (#[trigger] ps[i]).current_bet <= highest_bet(ps),
        ps.len() > 0 ==> exists|i: int| 0 <= i < ps.len() && (#[trigger] ps[i]).current_bet == highest_bet(ps),
    decreases ps.len(),
{
    if ps.len() > 0 {
        let init = ps.drop_last();
        lemma_highest_bet(init);
        assert forall|i: int| 0 <= i < ps.len() implies (#[trigger] ps[i]).current_bet <= highest_bet(ps) by {
            if i < ps.len() - 1 {
                assert(ps[i] == init[i]);
            }
        }
        if highest_bet(init) >= ps.last().current_bet && init.len() > 0 {
            let j = choose|j: int| 0 <= j < init.len() && (#[trigger] init[j]).current_bet == highest_bet(init);
            assert(ps[j] == init[j]);
        } else {
            assert(ps[ps.len() - 1] == ps.last());
        }
    }
}

/// The seat `k` places after `start`, going round the table of `n` seats.
pub open spec fn seat_after(start: int, k: int, n: int) -> int {
    (start + k) % n
}

/// Whether `seat` is the first seat, going round from `start`, whose player
/// is active.
pub open spec fn first_active_from(ps: Seq<Player>, start: int, seat: int) -> bool {
    exists|k: int|
        #![trigger seat_after(start, k, ps.len() as int)]
        0 <= k < ps.len() && seat == seat_after(start, k, ps.len() as int) && (forall|j: int|
            0 <= j < k ==> !is_active(#[trigger] ps[seat_after(start, j, ps.len() as int)]))
}

/// The player in the current seat.
pub open spec fn current(t: Table) -> Player {
    t.players@[t.table_pos as int]
}

/// A result whose error is given by its text.
pub open spec fn outcome_of(r: Result<PlayerAction, String>) -> Result<PlayerAction, Seq<char>> {
    match r {
        Ok(a) => Ok(a),
        Err(e) => Err(e@),
    }
}

/// The actions open to player `n`: none once folded or all in; with a bet
/// that matches the highest, fold, check, bet or go all in; below it, fold,
/// call, raise or go all in when the player holds more chips than the
/// highest bet, else fold or go all in.
pub open spec fn possible_actions(ps: Seq<Player>, n: int) -> Seq<PlayerAction> {
    let p = ps[n];
    let top = highest_bet(ps);
    if p.has_folded || p.chip_stack == 0 {
        Seq::empty()
    } else if p.current_bet == top {
        seq![
            PlayerAction::Fold,
            PlayerAction::Check,
            PlayerAction::Bet { value: 0 },
            PlayerAction::AllIn,
        ]
    } else if top > p.current_bet {
        if p.chip_stack > top {
            seq![
                PlayerAction::Fold,
                PlayerAction::Call,
                PlayerAction::Raise { value: 0 },
                PlayerAction::AllIn,
            ]
        } else {
            seq![PlayerAction::Fold, PlayerAction::AllIn]
        }
    } else {
        Seq::empty()
    }
}

/// The current player with `chips` chips.
pub open spec fn with_stack(p: Player, chips: int) -> Player {
    Player { chip_stack: chips as u32, ..p }
}

/// What resolving `a` makes of the current player, and what it answers.
/// Going all in leaves the player with their bet in chips; a raise or a bet
/// of `v` takes `v` chips when the player has them and is answered as a
/// raise, else refused; a call is a check when the player's bet is the
/// highest, takes the difference to the highest bet when the player holds
/// at least that bet, and is otherwise an all in; a check is refused unless
/// the player's bet is the highest; a fold folds; anything else is refused.
pub open spec fn action_effect(t: Table, a: PlayerAction) -> (Player, Result<PlayerAction, Seq<char>>) {
    let p = current(t);
    let stack = p.chip_stack;
    let bet = p.current_bet;
    let top = highest_bet(t.players@);
    match a {
        PlayerAction::AllIn => (with_stack(p, stack - (stack - bet)), Ok(PlayerAction::AllIn)),
        PlayerAction::Raise { value } => if stack >= value {
            (with_stack(p, stack - value), Ok(PlayerAction::Raise { value }))
        } else {
            (p, Err("Bet invalid"@))
        },
        PlayerAction::Bet { value } => if stack >= value {
            (with_stack(p, stack - value), Ok(PlayerAction::Raise { value }))
        } else {
            (p, Err("Bet invalid"@))
        },
        PlayerAction::Call => if bet == top {
            (p, Ok(PlayerAction::Check))
        } else if stack >= top {
            (with_stack(p, stack - (top - bet)), Ok(PlayerAction::Call))
        } else {
            (with_stack(p, stack - (stack - bet)), Ok(PlayerAction::AllIn))
        },
        PlayerAction::Check => if bet == top {
            (p, Ok(PlayerAction::Check))
        } else {
            (p, Err("No players found."@))
        },
        PlayerAction::Fold => (Player { has_folded: true, ..p }, Ok(PlayerAction::Fold)),
        PlayerAction::CheckFold => (p, Err("Unsupported action."@)),
    }
}

/// Whether `a` can be resolved for the current player: going all in, or
/// calling short of the highest bet, needs a bet no larger than the stack.
pub open spec fn action_allowed(t: Table, a: PlayerAction) -> bool {
    let p = current(t);
    let top = highest_bet(t.players@);
    &&& a == PlayerAction::AllIn ==> p.current_bet <= p.chip_stack
    &&& (a == PlayerAction::Call && p.current_bet != top && p.chip_stack < top)
        ==> p.current_bet <= p.chip_stack
}

/// The cards player `p` shows down with: their hand and the shared cards.
pub open spec fn showdown_cards(p: Player, river: Seq<Card>) -> Seq<Card> {
    p.hand.hand@ + river
}

/// The tier each player's showdown cards make.
pub open spec fn showdown_tiers(ps: Seq<Player>, river: Seq<Card>) -> Seq<u32> {
    Seq::new(ps.len(), |i: int| classify(showdown_cards(ps[i], river)).tier() as u32)
}

/// The largest number of `v` (0 when empty).
pub open spec fn largest(v: Seq<u32>) -> u32
    decreases v.len(),
{
    if v.len() == 0 {
        0
    } else if largest(v.drop_last()) >= v.last() {
        largest(v.drop_last())
    } else {
        v.last()
    }
}

/// The positions among the first `upto` of `v` that hold `m`, in order.
pub open spec fn positions_of(v: Seq<u32>, m: u32, upto: int) -> Seq<usize>
    decreases upto,
{
    if upto <= 0 {
        Seq::empty()
    } else if v[upto - 1] == m {
        positions_of(v, m, upto - 1).push((upto - 1) as usize)
    } else {
        positions_of(v, m, upto - 1)
    }
}

/// The categories the players' hands were last found to make.
pub open spec fn kinds_of(ps: Seq<Player>) -> Seq<Option<HandKind>> {
    ps.map_values(|p: Player| kind_of(p.hand.hand_type))
}

/// The tie-break among the leaders `ws` over their first `upto` entries:
/// each leader's own hand is compared with the best found so far (seat 0 at
/// first); a better one starts the list afresh with the entry of `ws` at
/// the leader's seat number, an equal one adds that entry.
pub open spec fn tie_break(ws: Seq<usize>, kinds: Seq<Option<HandKind>>, upto: int) -> (int, Seq<usize>)
    decreases upto,
{
    if upto <= 0 {
        (0, Seq::empty())
    } else {
        let prev = tie_break(ws, kinds, upto - 1);
        let i = at(ws[upto - 1]);
        let o = optional_order(kinds[i], kinds[prev.0]);
        if o == Ordering::Greater {
            (i, seq![ws[i]])
        } else if o == Ordering::Equal {
            (prev.0, prev.1.push(ws[i]))
        } else {
            prev
        }
    }
}

/// Whether the tie-break only reads entries of `ws` that exist: the seat
/// number of each leader who is not beaten is a position of `ws`.
pub open spec fn tie_break_fits(ws: Seq<usize>, kinds: Seq<Option<HandKind>>, upto: int) -> bool
    decreases upto,
{
    upto <= 0 || (tie_break_fits(ws, kinds, upto - 1) && (optional_order(
        kinds[at(ws[upto - 1])],
        kinds[tie_break(ws, kinds, upto - 1).0],
    ) != Ordering::Less ==> ws[upto - 1] < ws.len()))
}

/// The seats with the best showdown tier; when there are more than one,
/// narrowed down by `tie_break`.
pub open spec fn hand_order(ps: Seq<Player>, river: Seq<Card>) -> Seq<usize> {
    let v = showdown_tiers(ps, river);
    let leaders = positions_of(v, largest(v), v.len() as int);
    if leaders.len() > 1 {
        tie_break(leaders, kinds_of(ps), leaders.len() as int).1
    } else {
        leaders
    }
}

/// The largest number is at least every number, and one of them when there
/// is one.
pub proof fn lemma_largest(v: Seq<u32>)
    ensures
        forall|i: int| 0 <= i < v.len() ==> v[i] <= largest(v),
        v.len() > 0 ==> exists|i: int| 0 <= i < v.len() && v[i] == largest(v),
    decreases v.len(),
{
    if v.len() > 0 {
        let init = v.drop_last();
        lemma_largest(init);
        assert forall|i: int| 0 <= i < v.len() implies v[i] <= largest(v) by {
            if i < v.len() - 1 {
                assert(v[i] == init[i]);
            }
        }
        if largest(init) >= v.last() && init.len() > 0 {
            let j = choose|j: int| 0 <= j < init.len() && init[j] == largest(init);
            assert(v[j] == init[j]);
        }
    }
}

/// The positions found lie below `upto`; none are found when no number
/// equals `m`.
pub proof fn lemma_positions_of(v: Seq<u32>, m: u32, upto: int)
    requires
        upto <= v.len(),
        upto <= usize::MAX,
    ensures
        forall|k: int|
            0 <= k < positions_of(v, m, upto).len() ==> (#[trigger] positions_of(v, m, upto)[k]) < upto,
        (forall|j: int| 0 <= j < upto ==> v[j] != m) ==> positions_of(v, m, upto).len() == 0,
    decreases upto,
{
    if upto > 0 {
        lemma_positions_of(v, m, upto - 1);
        assert(((upto - 1) as usize) as int == upto - 1);
        let prev = positions_of(v, m, upto - 1);
        assert forall|k: int|
            0 <= k < positions_of(v, m, upto).len() implies (#[trigger] positions_of(v, m, upto)[k])
            < upto by {
            if k < prev.len() {
                assert(positions_of(v, m, upto)[k] == prev[k]);
            }
        }
    }
}

/// A tie-break that fits its leaders fits every shorter stretch of them.
pub proof fn lemma_tie_break_fits_prefix(ws: Seq<usize>, kinds: Seq<Option<HandKind>>, u: int, w: int)
    requires
        w <= u,
        tie_break_fits(ws, kinds, u),
    ensures
        tie_break_fits(ws, kinds, w),
    decreases u - w,
{
    if w < u {
        lemma_tie_break_fits_prefix(ws, kinds, u - 1, w);
    }
}

/// Whether the pot can be paid out: for every player who has not folded,
/// the pot is not empty, the pot times the player's bet fits in a `u32`,
/// and so does the player's stack with their bet added.
pub open spec fn payout_possible(t: Table) -> bool {
    forall|i: int|
        0 <= i < t.players@.len() && !(#[trigger] t.players@[i]).has_folded ==> {
            &&& t.pot > 0
            &&& t.pot * t.players@[i].current_bet <= u32::MAX
            &&& t.players@[i].chip_stack + t.players@[i].current_bet <= u32::MAX
        }
}

/// A player once the pot is paid out: a player who has not folded gets back
/// the pot times their bet, divided by the pot, which is their bet.
pub open spec fn paid(p: Player) -> Player {
    if p.has_folded {
        p
    } else {
        with_stack(p, p.chip_stack + p.current_bet)
    }
}

/// A player at the start of a new hand: no bet, and folded exactly when out
/// of chips.
pub open spec fn reset_for_hand(p: Player) -> Player {
    Player { has_folded: p.chip_stack == 0, current_bet: 0, ..p }
}

impl Default for Table {
    /// A table with no players, blinds of 5 and 10, and a shuffled deck.
    fn default() -> (t: Table)
        ensures
            t.players@.len() == 0,
            t.river@.len() == 0,
            t.small_blind == 5,
            t.big_blind == 10,
            t.pot == 0,
            t.dealer_pos == 0,
            t.table_pos == 0,
            t.current_stage == TableStage::PreFlop,
            t.deck.cards@.to_multiset() == ordered_deck().to_multiset(),
            t.deck.cards@.len() == 52,
    {
        Table {
            players: Vec::new(),
            river: Vec::new(),
            small_blind: 5,
            big_blind: 10,
            pot: 0,
            dealer_pos: 0,
            table_pos: 0,
            current_stage: TableStage::PreFlop,
            deck: Deck::new(),
        }
    }
}

impl Table {
    /// A table of `num_of_players` new players with the given blinds, an
    /// empty pot and a shuffled deck.
    pub fn new(num_of_players: usize, small_blind: u32, big_blind: u32) -> (t: Table)
        ensures
            t.players@.len() == num_of_players,
            forall|i: int| 0 <= i < num_of_players ==> is_fresh(#[trigger] t.players@[i]),
            t.river@.len() == 0,
            t.small_blind == small_blind,
            t.big_blind == big_blind,
            t.pot == 0,
            t.dealer_pos == 0,
            t.table_pos == 0,
            t.current_stage == TableStage::PreFlop,
            t.deck.cards@.to_multiset() == ordered_deck().to_multiset(),
            t.deck.cards@.len() == 52,
    {
        let mut temp_player_arr: Vec<Player> = Vec::new();
        let mut i: usize = 0;
        while i < num_of_players
            invariant
                i <= num_of_players,
                temp_player_arr@.len() == i,
                forall|k: int| 0 <= k < i ==> is_fresh(#[trigger] temp_player_arr@[k]),
            decreases num_of_players - i,
        {
            temp_player_arr.push(Player::default());
            i = i + 1;
        }
        Table {
            players: temp_player_arr,
            river: Vec::new(),
            small_blind,
            big_blind,
            pot: 0,
            dealer_pos: 0,
            table_pos: 0,
            current_stage: TableStage::PreFlop,
            deck: Deck::new(),
        }
    }

    /// Deals two cards from the top of the deck to each player who has not
    /// folded, one player after the other.
    pub fn deal_cards(&mut self)
        requires
            deal_possible(old(self).players@, old(self).deck.cards@),
        ensures
            final(self).players@.len() == old(self).players@.len(),
            forall|i: int|
                0 <= i < old(self).players@.len() ==> seat_after_deal(
                    old(self).players@,
                    old(self).deck.cards@,
                    i,
                    #[trigger] final(self).players@[i],
                ),
            final(self).deck.cards@ == old(self).deck.cards@.take(
                old(self).deck.cards@.len() - 2 * unfolded_before(
                    old(self).players@,
                    old(self).players@.len() as int,
                ),
            ),
            final(self).river == old(self).river,
            final(self).small_blind == old(self).small_blind,
            final(self).big_blind == old(self).big_blind,
            final(self).pot == old(self).pot,
            final(self).dealer_pos == old(self).dealer_pos,
            final(self).table_pos == old(self).table_pos,
            final(self).current_stage == old(self).current_stage,
    {
        let ghost ps = self.players@;
        let ghost deck = self.deck.cards@;
        let mut i: usize = 0;
        assert(deck.take(deck.len() as int) =~= deck);
        assert(deck.len() >= 2 * unfolded_before(ps, ps.len() as int)) by {
            reveal(deal_possible);
        }
        while i < self.players.len()
            invariant
                i <= ps.len(),
                self.players@.len() == ps.len(),
                deal_possible(ps, deck),
                deck.len() >= 2 * unfolded_before(ps, ps.len() as int),
                self.deck.cards@ == deck.take(deck.len() - 2 * unfolded_before(ps, i as int)),
                forall|k: int|
                    i <= k < ps.len() ==> #[trigger] self.players@[k] == ps[k],
                forall|k: int|
                    0 <= k < i ==> seat_after_deal(ps, deck, k, #[trigger] self.players@[k]),
                self.river == old(self).river,
                self.small_blind == old(self).small_blind,
                self.big_blind == old(self).big_blind,
                self.pot == old(self).pot,
                self.dealer_pos == old(self).dealer_pos,
                self.table_pos == old(self).table_pos,
                self.current_stage == old(self).current_stage,
            decreases ps.len() - i,
        {
            proof {
                lemma_unfolded_before_grows(ps, i as int, ps.len() as int);
                lemma_unfolded_before_grows(ps, i + 1, ps.len() as int);
            }
            if self.players[i].has_folded {
                i = i + 1;
                continue;
            }
            assert(deal_allowed(ps[i as int], first_deal(ps, deck, i as int), second_deal(ps, deck, i as int))
                && deck.len() >= 2 * unfolded_before(ps, ps.len() as int)) by {
                reveal(deal_possible);
            }
            assert(self.deck.cards@[self.deck.cards@.len() - 1] == first_deal(ps, deck, i as int));
            assert(self.deck.cards@[self.deck.cards@.len() - 2] == second_deal(ps, deck, i as int));
            deal_two(&mut self.players[i], &mut self.deck.cards);
            assert(self.deck.cards@ =~= deck.take(deck.len() - 2 * unfolded_before(ps, i + 1)));
            i = i + 1;
        }
    }

    /// The player in the dealer's seat.
    fn get_dealer(&self) -> (p: &Player)
        requires
            self.dealer_pos < self.players@.len(),
        ensures
            *p == self.players@[self.dealer_pos as int],
    {
        &self.players[self.dealer_pos as usize]
    }

    /// Moves the dealer's seat on by one.
    fn move_dealer(&mut self)
        requires
            old(self).dealer_pos < u32::MAX,
        ensures
            *final(self) == (Table { dealer_pos: (old(self).dealer_pos + 1) as u32, ..*old(self) }),
    {
        self.dealer_pos += 1;
    }

    /// Raises the big blind by `value`.
    fn increase_blinds(&mut self, value: u32)
        requires
            old(self).big_blind + value <= u32::MAX,
        ensures
            *final(self) == (Table { big_blind: (old(self).big_blind + value) as u32, ..*old(self) }),
    {
        self.big_blind += value;
    }

    fn get_small_blind(&self) -> (b: u32)
        ensures
            b == self.small_blind,
    {
        self.small_blind
    }

    fn get_big_blind(&self) -> (b: u32)
        ensures
            b == self.big_blind,
    {
        self.big_blind
    }

    fn mut_small_blind(&mut self) -> (b: &mut u32)
        ensures
            *b == old(self).small_blind,
            *final(self) == (Table { small_blind: *final(b), ..*old(self) }),
    {
        &mut self.small_blind
    }

    fn mut_big_blind(&mut self) -> (b: &mut u32)
        ensures
            *b == old(self).big_blind,
            *final(self) == (Table { big_blind: *final(b), ..*old(self) }),
    {
        &mut self.big_blind
    }

    /// Moves the current seat round the table to the next player who has
    /// neither folded nor gone all in, and returns that seat.
    pub fn next_player(&mut self) -> (seat: usize)
        requires
            0 < old(self).players@.len() <= u32::MAX,
            old(self).table_pos < u32::MAX,
            exists|i: int| 0 <= i < old(self).players@.len() && is_active(#[trigger] old(self).players@[i]),
        ensures
            seat == final(self).table_pos,
            *final(self) == (Table { table_pos: final(self).table_pos, ..*old(self) }),
            first_active_from(
                old(self).players@,
                (old(self).table_pos + 1) % (old(self).players@.len() as int),
                seat as int,
            ),
            is_active(old(self).players@[seat as int]),
    {
        let n = self.players.len();
        let ghost ps = self.players@;
        let ghost nn = n as int;
        let ghost start = (self.table_pos + 1) % nn;
        let ghost a = choose|i: int| 0 <= i < ps.len() && is_active(#[trigger] ps[i]);
        let ghost off: int = if a >= start {
            a - start
        } else {
            a + nn - start
        };
        proof {
            if a >= start {
                lemma_small_mod(a as nat, nn as nat);
            } else {
                lemma_mod_add_multiples_vanish(a, nn);
                lemma_small_mod(a as nat, nn as nat);
            }
            assert(seat_after(start, off, nn) == a);
        }
        let ghost mut k: int = 0;
        self.table_pos = (self.table_pos + 1) % (n as u32);
        proof {
            lemma_small_mod(start as nat, nn as nat);
        }
        loop
            invariant
                n == ps.len(),
                nn == n,
                0 < n <= u32::MAX,
                0 <= start < n,
                start == (old(self).table_pos + 1) % nn,
                ps == old(self).players@,
                self.players@ == ps,
                *self == (Table { table_pos: self.table_pos, ..*old(self) }),
                0 <= k <= off < nn,
                seat_after(start, off, nn) == a,
                is_active(ps[a]),
                self.table_pos as int == seat_after(start, k, nn),
                forall|j: int| 0 <= j < k ==> !is_active(#[trigger] ps[seat_after(start, j, nn)]),
            decreases off - k,
        {
            let pos = self.table_pos as usize;
            if !self.players[pos].has_folded && !self.players[pos].is_all_in() {
                assert(first_active_from(ps, start, pos as int));
                return pos;
            }
            proof {
                lemma_add_mod_noop_right(1, start + k, nn);
                k = k + 1;
            }
            self.table_pos = (self.table_pos + 1) % (n as u32);
        }
    }

    /// The bets of the players, in seat order.
    fn create_bet_array(&self) -> (bets: Vec<u32>)
        ensures
            bets@ == bets_of(self.players@),
    {
        let mut out: Vec<u32> = Vec::new();
        let mut i: usize = 0;
        while i < self.players.len()
            invariant
                i <= self.players@.len(),
                out@ =~= bets_of(self.players@.take(i as int)),
            decreases self.players@.len() - i,
        {
            out.push(self.players[i].current_bet);
            i = i + 1;
        }
        assert(self.players@.take(i as int) =~= self.players@);
        out
    }

    /// The largest of the bets.
    fn largest_bet(bets: &Vec<u32>, Ghost(ps): Ghost<Seq<Player>>) -> (top: u32)
        requires
            bets@ == bets_of(ps),
        ensures
            top == highest_bet(ps),
    {
        let mut top: u32 = 0;
        let mut i: usize = 0;
        assert(ps.take(0) =~= Seq::<Player>::empty());
        while i < bets.len()
            invariant
                i <= bets@.len(),
                bets@ == bets_of(ps),
                top == highest_bet(ps.take(i as int)),
            decreases bets@.len() - i,
        {
            assert(ps.take(i + 1).drop_last() =~= ps.take(i as int));
            assert(ps.take(i + 1).last() == ps[i as int]);
            if bets[i] > top {
                top = bets[i];
            }
            i = i + 1;
        }
        assert(ps.take(i as int) =~= ps);
        top
    }

    /// The highest bet at the table; refused when there are no players.
    fn get_highest_bet(&self) -> (r: Result<u32, String>)
        ensures
            self.players@.len() == 0 ==> (r matches Err(e) && e@ == "No players found."@),
            self.players@.len() > 0 ==> r == Ok::<u32, String>(highest_bet(self.players@)),
    {
        let bet_arr = self.create_bet_array();
        if bet_arr.len() > 0 {
            Ok(Self::largest_bet(&bet_arr, Ghost(self.players@)))
        } else {
            Err("No players found.".to_owned())
        }
    }

    /// The player in the current seat, to change in place.
    fn get_current_player(&mut self) -> (p: &mut Player)
        requires
            old(self).table_pos < old(self).players@.len(),
        ensures
            *p == old(self).players@[old(self).table_pos as int],
            final(self).players@ == old(self).players@.update(old(self).table_pos as int, *final(p)),
            final(self).river == old(self).river,
            final(self).small_blind == old(self).small_blind,
            final(self).big_blind == old(self).big_blind,
            final(self).pot == old(self).pot,
            final(self).dealer_pos == old(self).dealer_pos,
            final(self).table_pos == old(self).table_pos,
            final(self).current_stage == old(self).current_stage,
            final(self).deck == old(self).deck,
    {
        &mut self.players[self.table_pos as usize]
    }

    /// Takes `value` chips from the current player (see `Player::down_stack`).
    fn current_player_bet(&mut self, value: u32) -> (r: Result<(), String>)
        requires
            old(self).table_pos < old(self).players@.len(),
        ensures
            *final(self) == (Table { players: final(self).players, ..*old(self) }),
            current(*old(self)).chip_stack < value ==> {
                &&& r matches Err(e) && e@ == "Not enough :("@
                &&& final(self).players@ == old(self).players@
            },
            current(*old(self)).chip_stack >= value ==> {
                &&& r is Ok
                &&& final(self).players@ == old(self).players@.update(
                    old(self).table_pos as int,
                    with_stack(current(*old(self)), current(*old(self)).chip_stack - value),
                )
            },
    {
        let ghost before = self.players@;
        let r = self.get_current_player().down_stack(value);
        proof {
            if current(*old(self)).chip_stack < value {
                assert(self.players@ =~= before);
            }
        }
        r
    }

    /// The actions open to player `player_num` (see `possible_actions`).
    pub fn get_possible_actions(&mut self, player_num: usize) -> (actions: Vec<PlayerAction>)
        requires
            player_num < old(self).players@.len(),
        ensures
            *final(self) == *old(self),
            actions@ == possible_actions(old(self).players@, player_num as int),
    {
        let player_chips = self.players[player_num].get_stack();
        let player_bet = self.players[player_num].current_bet;
        let highest_bet = match self.get_highest_bet() {
            Ok(b) => b,
            Err(_) => {
                return Vec::new();
            },
        };
        let player_fold_status = self.players[player_num].has_folded;
        if player_fold_status || self.players[player_num].is_all_in() {
            return Vec::new();
        }
        if player_bet == highest_bet {
            let v = vec![
                PlayerAction::Fold,
                PlayerAction::Check,
                PlayerAction::Bet { value: 0 },
                PlayerAction::AllIn,
            ];
            assert(v@ =~= possible_actions(old(self).players@, player_num as int));
            v
        } else if highest_bet > player_bet {
            if player_chips > highest_bet {
                let v = vec![
                    PlayerAction::Fold,
                    PlayerAction::Call,
                    PlayerAction::Raise { value: 0 },
                    PlayerAction::AllIn,
                ];
                assert(v@ =~= possible_actions(old(self).players@, player_num as int));
                v
            } else {
                let v = vec![PlayerAction::Fold, PlayerAction::AllIn];
                assert(v@ =~= possible_actions(old(self).players@, player_num as int));
                v
            }
        } else {
            Vec::new()
        }
    }

    /// Resolves an action for the player in the current seat (see
    /// `action_effect`).
    fn resolve_action(&mut self, p_action: PlayerAction) -> (r: Result<PlayerAction, String>)
        requires
            old(self).table_pos < old(self).players@.len(),
            action_allowed(*old(self), p_action),
        ensures
            *final(self) == (Table { players: final(self).players, ..*old(self) }),
            final(self).players@ == old(self).players@.update(
                old(self).table_pos as int,
                action_effect(*old(self), p_action).0,
            ),
            outcome_of(r) == action_effect(*old(self), p_action).1,
    {
        let ghost t = *self;
        let tp = self.table_pos as usize;
        proof {
            lemma_highest_bet(self.players@);
        }
        match p_action {
            PlayerAction::AllIn => {
                let player_stack = self.players[tp].get_stack();
                let player_bet = self.players[tp].current_bet;
                let _ = self.current_player_bet(player_stack - player_bet);
                Ok(PlayerAction::AllIn)
            },
            PlayerAction::Raise { value: v } | PlayerAction::Bet { value: v } => {
                if self.current_player_bet(v).is_ok() {
                    Ok(PlayerAction::Raise { value: v })
                } else {
                    Err("Bet invalid".to_owned())
                }
            },
            PlayerAction::Call => {
                let player_chip_count = self.players[tp].get_stack();
                let player_current_bet = self.players[tp].current_bet;
                let bet_arr = self.create_bet_array();
                let mut highest_bet: u32 = u32::MAX;
                if bet_arr.len() > 0 {
                    highest_bet = Self::largest_bet(&bet_arr, Ghost(self.players@));
                }
                if player_current_bet == highest_bet {
                    Ok(PlayerAction::Check)
                } else if player_chip_count >= highest_bet {
                    let _ = self.current_player_bet(highest_bet - player_current_bet);
                    Ok(PlayerAction::Call)
                } else if bet_arr.len() > 0 {
                    let _ = self.current_player_bet(player_chip_count - player_current_bet);
                    Ok(PlayerAction::AllIn)
                } else {
                    Err("No players found.".to_owned())
                }
            },
            PlayerAction::Check => {
                let player_current_bet = self.players[tp].current_bet;
                let bet_arr = self.create_bet_array();
                let mut highest_bet: u32 = u32::MAX;
                if bet_arr.len() > 0 {
                    highest_bet = Self::largest_bet(&bet_arr, Ghost(self.players@));
                }
                if player_current_bet == highest_bet {
                    Ok(PlayerAction::Check)
                } else {
                    Err("No players found.".to_owned())
                }
            },
            PlayerAction::Fold => {
                self.get_current_player().has_folded = true;
                Ok(PlayerAction::Fold)
            },
            _ => Err("Unsupported action.".to_owned()),
        }
    }

    /// Whether `p_action` can be resolved for the current player (see
    /// `action_allowed`).
    pub fn can_resolve(&self, p_action: &PlayerAction) -> (ok: bool)
        requires
            self.table_pos < self.players@.len(),
        ensures
            ok == action_allowed(*self, *p_action),
    {
        let p = &self.players[self.table_pos as usize];
        match p_action {
            PlayerAction::AllIn => p.current_bet <= p.chip_stack,
            PlayerAction::Call => {
                let bet_arr = self.create_bet_array();
                let top = Self::largest_bet(&bet_arr, Ghost(self.players@));
                !(p.current_bet != top && p.chip_stack < top) || p.current_bet <= p.chip_stack
            },
            _ => true,
        }
    }

    /// Handles the action a player chose: refused when the current player
    /// has folded; otherwise resolved for the current player (see
    /// `action_effect`).
    pub fn handle_input(&mut self, p_action: PlayerAction) -> (r: Result<PlayerAction, String>)
        requires
            old(self).table_pos < old(self).players@.len(),
            !current(*old(self)).has_folded ==> action_allowed(*old(self), p_action),
        ensures
            current(*old(self)).has_folded ==> {
                &&& r matches Err(e) && e@ == "Player has already folded - no actions can be taken."@
                &&& *final(self) == *old(self)
            },
            !current(*old(self)).has_folded ==> {
                &&& *final(self) == (Table { players: final(self).players, ..*old(self) })
                &&& final(self).players@ == old(self).players@.update(
                    old(self).table_pos as int,
                    action_effect(*old(self), p_action).0,
                )
                &&& outcome_of(r) == action_effect(*old(self), p_action).1
            },
    {
        if self.players[self.table_pos as usize].has_folded {
            return Err("Player has already folded - no actions can be taken.".to_owned());
        }
        self.resolve_action(p_action)
    }

    /// One turn of a betting round: the action chosen for player `player`
    /// is taken when it is among their possible actions, and then resolved
    /// for the current player (see `action_effect`); otherwise nothing
    /// happens and the answer is `None`, so that the player is asked again.
    pub fn handle_bet(&mut self, player: usize, p_action: PlayerAction) -> (r: Option<Result<PlayerAction, String>>)
        requires
            player < old(self).players@.len(),
            possible_actions(old(self).players@, player as int).contains(p_action) ==> {
                &&& old(self).table_pos < old(self).players@.len()
                &&& action_allowed(*old(self), p_action)
            },
        ensures
            !possible_actions(old(self).players@, player as int).contains(p_action) ==> {
                &&& r is None
                &&& *final(self) == *old(self)
            },
            possible_actions(old(self).players@, player as int).contains(p_action) ==> {
                &&& r matches Some(res) && outcome_of(res) == action_effect(*old(self), p_action).1
                &&& *final(self) == (Table { players: final(self).players, ..*old(self) })
                &&& final(self).players@ == old(self).players@.update(
                    old(self).table_pos as int,
                    action_effect(*old(self), p_action).0,
                )
            },
    {
        let possible = self.get_possible_actions(player);
        let mut allowed = false;
        let mut k: usize = 0;
        while k < possible.len()
            invariant
                k <= possible@.len(),
                allowed <==> exists|j: int| 0 <= j < k && possible@[j] == p_action,
            decreases possible@.len() - k,
        {
            if possible[k] == p_action {
                allowed = true;
            }
            k = k + 1;
        }
        if !allowed {
            return None;
        }
        Some(self.resolve_action(p_action))
    }

    /// Whether every player's bet equals the first player's: the betting
    /// round is over.
    pub fn bets_settled(&self) -> (settled: bool)
        requires
            self.players@.len() > 0,
        ensures
            settled == forall|i: int|
                0 <= i < self.players@.len() ==> #[trigger] self.players@[i].current_bet
                    == self.players@[0].current_bet,
    {
        let bets = self.create_bet_array();
        let first = bets[0];
        let mut i: usize = 0;
        while i < bets.len()
            invariant
                i <= bets@.len(),
                bets@ == bets_of(self.players@),
                first == self.players@[0].current_bet,
                forall|k: int| 0 <= k < i ==> #[trigger] self.players@[k].current_bet == first,
            decreases bets@.len() - i,
        {
            if bets[i] != first {
                assert(self.players@[i as int].current_bet != first);
                return false;
            }
            i = i + 1;
        }
        true
    }

    /// The tier of player `i`'s showdown cards.
    fn showdown_tier(&self, i: usize) -> (tier: u32)
        requires
            i < self.players@.len(),
            classifiable(showdown_cards(self.players@[i as int], self.river@)),
        ensures
            tier == classify(showdown_cards(self.players@[i as int], self.river@)).tier() as u32,
    {
        let mut array = self.players[i].get_hand().get_hand();
        let mut shared = copy_cards(&self.river);
        array.append(&mut shared);
        assert(array@ == showdown_cards(self.players@[i as int], self.river@));
        proof {
            lemma_classifiable_nonempty(array@);
        }
        let h = Hand::from(array);
        match h.hand_type {
            Some(t) => t.hand_value() as u32,
            None => 0,
        }
    }

    /// The showdown tier of every player.
    fn player_tiers(&self) -> (tiers: Vec<u32>)
        requires
            forall|i: int|
                0 <= i < self.players@.len() ==> classifiable(
                    showdown_cards(#[trigger] self.players@[i], self.river@),
                ),
        ensures
            tiers@ == showdown_tiers(self.players@, self.river@),
    {
        let mut out: Vec<u32> = Vec::new();
        let mut i: usize = 0;
        while i < self.players.len()
            invariant
                i <= self.players@.len(),
                out@.len() == i,
                forall|i: int|
                    0 <= i < self.players@.len() ==> classifiable(
                        showdown_cards(#[trigger] self.players@[i], self.river@),
                    ),
                forall|k: int|
                    0 <= k < i ==> #[trigger] out@[k] == showdown_tiers(self.players@, self.river@)[k],
            decreases self.players@.len() - i,
        {
            let t = self.showdown_tier(i);
            out.push(t);
            i = i + 1;
        }
        assert(out@ =~= showdown_tiers(self.players@, self.river@));
        out
    }

    /// The seats that win the showdown (see `hand_order`): those whose hand
    /// together with the shared cards makes the best tier, narrowed down by
    /// `tie_break` when there are several.
    pub fn determine_hand_order(&self) -> (winners: Vec<usize>)
        requires
            forall|i: int|
                0 <= i < self.players@.len() ==> classifiable(
                    showdown_cards(#[trigger] self.players@[i], self.river@),
                ),
            ({
                let v = showdown_tiers(self.players@, self.river@);
                let leaders = positions_of(v, largest(v), int_of(v.len()));
                leaders.len() > 1 ==> tie_break_fits(
                    leaders,
                    kinds_of(self.players@),
                    int_of(leaders.len()),
                )
            }),
        ensures
            winners@ == hand_order(self.players@, self.river@),
    {
        let player_values = self.player_tiers();
        let ghost v = player_values@;
        let n = player_values.len();
        let mut winning_indexes: Vec<usize> = Vec::new();
        let mut largest_num_index: usize = 0;
        let mut num: usize = 0;
        while num < n
            invariant
                n == v.len(),
                v == player_values@,
                num <= n,
                num == 0 ==> largest_num_index == 0 && winning_indexes@.len() == 0,
                num > 0 ==> largest_num_index < num,
                forall|j: int| 0 <= j < num ==> #[trigger] v[j] <= v[at(largest_num_index)],
                num > 0 ==> winning_indexes@ == positions_of(v, v[at(largest_num_index)], at(num)),
            decreases n - num,
        {
            let o = compare_ranks(player_values[num], player_values[largest_num_index]);
            match o {
                Ordering::Greater => {
                    proof {
                        lemma_positions_of(v, v[at(num)], at(num));
                    }
                    winning_indexes = vec![num];
                    largest_num_index = num;
                    assert(winning_indexes@ =~= positions_of(v, v[at(num)], at(num) + 1));
                },
                Ordering::Equal => {
                    winning_indexes.push(num);
                },
                Ordering::Less => {},
            }
            num = num + 1;
        }
        proof {
            lemma_largest(v);
            if n > 0 {
                let j = choose|j: int| 0 <= j < v.len() && v[j] == largest(v);
                assert(v[at(largest_num_index)] == largest(v));
            }
        }
        let ghost leaders = winning_indexes@;
        assert(leaders == positions_of(v, largest(v), int_of(v.len())));
        if winning_indexes.len() > 1 {
            proof {
                lemma_positions_of(v, largest(v), int_of(v.len()));
            }
            let ghost kinds = kinds_of(self.players@);
            let mut final_numbers: Vec<usize> = Vec::new();
            let mut top_hand: usize = 0;
            let mut k: usize = 0;
            while k < winning_indexes.len()
                invariant
                    k <= int_of(leaders.len()),
                    leaders == winning_indexes@,
                    leaders.len() > 1,
                    kinds == kinds_of(self.players@),
                    n == self.players@.len(),
                    forall|m: int| 0 <= m < leaders.len() ==> (#[trigger] leaders[m]) < n,
                    tie_break_fits(leaders, kinds, int_of(leaders.len())),
                    top_hand < n,
                    (at(top_hand), final_numbers@) == tie_break(leaders, kinds, at(k)),
                decreases leaders.len() - k,
            {
                proof {
                    lemma_tie_break_fits_prefix(leaders, kinds, int_of(leaders.len()), at(k) + 1);
                }
                let i = winning_indexes[k];
                let o = compare_optional(
                    &self.players[i].hand.hand_type,
                    &self.players[top_hand].hand.hand_type,
                );
                match o {
                    Ordering::Greater => {
                        top_hand = i;
                        final_numbers = vec![winning_indexes[i]];
                    },
                    Ordering::Equal => {
                        final_numbers.push(winning_indexes[i]);
                    },
                    Ordering::Less => {},
                }
                k = k + 1;
            }
            final_numbers
        } else {
            winning_indexes
        }
    }

    /// Pays out the pot: each player who has not folded gets the pot times
    /// their bet, divided by the pot, that is their bet back.
    fn distribute_winnings(&mut self)
        requires
            payout_possible(*old(self)),
        ensures
            *final(self) == (Table { players: final(self).players, ..*old(self) }),
            final(self).players@.len() == old(self).players@.len(),
            forall|i: int|
                0 <= i < old(self).players@.len() ==> #[trigger] final(self).players@[i] == paid(
                    old(self).players@[i],
                ),
    {
        let ghost ps = self.players@;
        let mut i: usize = 0;
        while i < self.players.len()
            invariant
                i <= ps.len(),
                self.players@.len() == ps.len(),
                *self == (Table { players: self.players, ..*old(self) }),
                ps == old(self).players@,
                payout_possible(*old(self)),
                forall|k: int| 0 <= k < i ==> #[trigger] self.players@[k] == paid(ps[k]),
                forall|k: int| i <= k < ps.len() ==> #[trigger] self.players@[k] == ps[k],
            decreases ps.len() - i,
        {
            if !self.players[i].has_folded {
                let pot = self.pot;
                let bet = self.players[i].current_bet;
                assert(!ps[i as int].has_folded);
                let share = pot * bet / pot;
                assert(((pot as int) * (bet as int)) / (pot as int) == bet as int) by (nonlinear_arith)
                    requires
                        pot > 0,
                ;
                self.players[i].up_stack(share);
            }
            i = i + 1;
        }
    }

    /// Starts a new hand: the pot is paid out, a new shuffled deck replaces
    /// the old one, and every player's bet is cleared; a player out of chips
    /// is folded, every other player is back in.
    fn new_hand(&mut self)
        requires
            payout_possible(*old(self)),
        ensures
            final(self).players@.len() == old(self).players@.len(),
            forall|i: int|
                0 <= i < old(self).players@.len() ==> #[trigger] final(self).players@[i]
                    == reset_for_hand(paid(old(self).players@[i])),
            final(self).deck.cards@.to_multiset() == ordered_deck().to_multiset(),
            final(self).deck.cards@.len() == 52,
            final(self).river == old(self).river,
            final(self).small_blind == old(self).small_blind,
            final(self).big_blind == old(self).big_blind,
            final(self).pot == old(self).pot,
            final(self).dealer_pos == old(self).dealer_pos,
            final(self).table_pos == old(self).table_pos,
            final(self).current_stage == old(self).current_stage,
    {
        self.distribute_winnings();
        self.deck = Deck::new();
        let ghost ps = self.players@;
        let mut i: usize = 0;
        while i < self.players.len()
            invariant
                i <= ps.len(),
                self.players@.len() == ps.len(),
                forall|k: int| 0 <= k < i ==> #[trigger] self.players@[k] == reset_for_hand(ps[k]),
                forall|k: int| i <= k < ps.len() ==> #[trigger] self.players@[k] == ps[k],
                self.deck.cards@.to_multiset() == ordered_deck().to_multiset(),
                self.deck.cards@.len() == 52,
                self.river == old(self).river,
                self.small_blind == old(self).small_blind,
                self.big_blind == old(self).big_blind,
                self.pot == old(self).pot,
                self.dealer_pos == old(self).dealer_pos,
                self.table_pos == old(self).table_pos,
                self.current_stage == old(self).current_stage,
            decreases ps.len() - i,
        {
            if self.players[i].get_stack() == 0 {
                self.players[i].has_folded = true;
                self.players[i].current_bet = 0;
            } else {
                self.players[i].has_folded = false;
                self.players[i].current_bet = 0;
            }
            i = i + 1;
        }
    }
}

/// Resolving an action never gives the current player chips, and leaves
/// their hand and their bet as they were.
pub proof fn lemma_actions_never_add_chips(t: Table, a: PlayerAction)
    requires
        t.table_pos < t.players@.len(),
        action_allowed(t, a),
    ensures
        action_effect(t, a).0.chip_stack <= current(t).chip_stack,
        action_effect(t, a).0.hand == current(t).hand,
        action_effect(t, a).0.current_bet == current(t).current_bet,
{
    lemma_highest_bet(t.players@);
}

/// The positions found hold `m`.
pub proof fn lemma_positions_hold(v: Seq<u32>, m: u32, upto: int)
    requires
        0 <= upto <= v.len(),
        upto <= usize::MAX,
    ensures
        forall|k: int|
            0 <= k < positions_of(v, m, upto).len() ==> v[at(#[trigger] positions_of(v, m, upto)[k])] == m,
    decreases upto,
{
    if upto > 0 {
        lemma_positions_hold(v, m, upto - 1);
        let prev = positions_of(v, m, upto - 1);
        assert forall|k: int|
            0 <= k < positions_of(v, m, upto).len() implies v[at(#[trigger] positions_of(v, m, upto)[k])] == m by {
            if k < prev.len() {
                assert(positions_of(v, m, upto)[k] == prev[k]);
            }
        }
    }
}

/// Every seat the tie-break picks is one of the leaders, when it fits them.
pub proof fn lemma_tie_break_picks_leaders(ws: Seq<usize>, kinds: Seq<Option<HandKind>>, upto: int)
    requires
        upto <= ws.len(),
        tie_break_fits(ws, kinds, upto),
    ensures
        forall|k: int|
            0 <= k < tie_break(ws, kinds, upto).1.len() ==> ws.contains(
                #[trigger] tie_break(ws, kinds, upto).1[k],
            ),
    decreases upto,
{
    if upto > 0 {
        lemma_tie_break_picks_leaders(ws, kinds, upto - 1);
        let prev = tie_break(ws, kinds, upto - 1);
        let i = at(ws[upto - 1]);
        let cur = tie_break(ws, kinds, upto);
        assert forall|k: int| 0 <= k < cur.1.len() implies ws.contains(#[trigger] cur.1[k]) by {
            let o = optional_order(kinds[i], kinds[prev.0]);
            if o == Ordering::Greater {
                assert(cur.1[k] == ws[i]);
            } else if o == Ordering::Equal {
                if k < prev.1.len() {
                    assert(cur.1[k] == prev.1[k]);
                } else {
                    assert(cur.1[k] == ws[i]);
                }
            }
        }
    }
}

/// Every seat that wins the showdown holds cards of the best tier at the
/// table.
pub proof fn lemma_winners_have_best_tier(ps: Seq<Player>, river: Seq<Card>)
    requires
        ps.len() <= usize::MAX,
        ({
            let v = showdown_tiers(ps, river);
            let leaders = positions_of(v, largest(v), int_of(v.len()));
            leaders.len() > 1 ==> tie_break_fits(leaders, kinds_of(ps), int_of(leaders.len()))
        }),
    ensures
        forall|k: int|
            0 <= k < hand_order(ps, river).len() ==> {
                let w = at(#[trigger] hand_order(ps, river)[k]);
                &&& 0 <= w < ps.len()
                &&& showdown_tiers(ps, river)[w] == largest(showdown_tiers(ps, river))
            },
{
    let v = showdown_tiers(ps, river);
    let leaders = positions_of(v, largest(v), int_of(v.len()));
    lemma_positions_of(v, largest(v), int_of(v.len()));
    lemma_positions_hold(v, largest(v), int_of(v.len()));
    if leaders.len() > 1 {
        lemma_tie_break_picks_leaders(leaders, kinds_of(ps), int_of(leaders.len()));
        let out = tie_break(leaders, kinds_of(ps), int_of(leaders.len())).1;
        assert forall|k: int| 0 <= k < out.len() implies {
            let w = at(#[trigger] out[k]);
            &&& 0 <= w < ps.len()
            &&& v[w] == largest(v)
        } by {
            assert(leaders.contains(out[k]));
            let j = choose|j: int| 0 <= j < leaders.len() && leaders[j] == out[k];
        }
    }
}

/// When every number equals `m`, every position is found, in order.
proof fn lemma_positions_all(v: Seq<u32>, m: u32, upto: int)
    requires
        0 <= upto <= v.len(),
        upto <= usize::MAX,
        forall|i: int| 0 <= i < v.len() ==> v[i] == m,
    ensures
        positions_of(v, m, upto).len() == upto,
        forall|i: int| 0 <= i < upto ==> at(#[trigger] positions_of(v, m, upto)[i]) == i,
    decreases upto,
{
    if upto > 0 {
        lemma_positions_all(v, m, upto - 1);
        let prev = positions_of(v, m, upto - 1);
        assert forall|i: int| 0 <= i < upto implies at(#[trigger] positions_of(v, m, upto)[i]) == i by {
            if i < upto - 1 {
                assert(positions_of(v, m, upto)[i] == prev[i]);
            }
        }
    }
}

/// The tie-break among leaders who are the seats themselves, in order: its
/// best seat so far is beaten by none of the leaders seen, and the seats it
/// keeps are those that match the best one, the best one among them.
proof fn lemma_tie_break_keeps_best(ws: Seq<usize>, kinds: Seq<Option<HandKind>>, u: int)
    requires
        ws.len() == kinds.len(),
        ws.len() >= 1,
        0 <= u <= ws.len(),
        forall|i: int| 0 <= i < ws.len() ==> at(#[trigger] ws[i]) == i,
    ensures
        ({
            let r = tie_break(ws, kinds, u);
            &&& 0 <= r.0 < ws.len()
            &&& forall|j: int| 0 <= j < u ==> optional_order(#[trigger] kinds[j], kinds[r.0]) != Ordering::Greater
            &&& forall|x: int|
                0 <= x < r.1.len() ==> 0 <= at(#[trigger] r.1[x]) < ws.len() && optional_order(
                    kinds[at(r.1[x])],
                    kinds[r.0],
                ) == Ordering::Equal
            &&& u > 0 ==> exists|x: int| 0 <= x < r.1.len() && at(#[trigger] r.1[x]) == r.0
        }),
    decreases u,
{
    if u > 0 {
        lemma_tie_break_keeps_best(ws, kinds, u - 1);
        let prev = tie_break(ws, kinds, u - 1);
        let i = at(ws[u - 1]);
        assert(i == u - 1);
        let r = tie_break(ws, kinds, u);
        lemma_optional_order_laws(kinds[i], kinds[prev.0], kinds[i]);
        lemma_optional_order_laws(kinds[i], kinds[i], kinds[i]);
        let o = optional_order(kinds[i], kinds[prev.0]);
        assert forall|j: int| 0 <= j < u implies optional_order(#[trigger] kinds[j], kinds[r.0])
            != Ordering::Greater by {
            lemma_optional_order_laws(kinds[j], kinds[prev.0], kinds[i]);
            lemma_optional_order_laws(kinds[j], kinds[i], kinds[i]);
        }
        if o == Ordering::Greater {
            assert(r.1 == seq![ws[i]]);
            assert(r.1[0] == ws[i]);
        } else if o == Ordering::Equal {
            assert(r.1 == prev.1.push(ws[i]));
            assert forall|x: int|
                0 <= x < r.1.len() implies 0 <= at(#[trigger] r.1[x]) < ws.len() && optional_order(
                kinds[at(r.1[x])],
                kinds[r.0],
            ) == Ordering::Equal by {
                if x < prev.1.len() {
                    assert(r.1[x] == prev.1[x]);
                }
            }
            if u - 1 > 0 {
                let x = choose|x: int| 0 <= x < prev.1.len() && at(#[trigger] prev.1[x]) == prev.0;
                assert(r.1[x] == prev.1[x]);
            } else {
                assert(prev.0 == 0);
                assert(r.1[0] == ws[i]);
            }
        } else {
            if u - 1 == 0 {
                assert(prev.0 == 0);
                assert(i == 0);
            }
        }
    }
}

/// When every player's showdown cards make the same tier, the showdown
/// names at least one seat (when there are players), and no player's hand
/// beats the hand of a seat it names.
pub proof fn lemma_showdown_winner_unbeaten(ps: Seq<Player>, river: Seq<Card>)
    requires
        ps.len() <= usize::MAX,
        forall|i: int, j: int|
            0 <= i < ps.len() && 0 <= j < ps.len() ==> #[trigger] showdown_tiers(ps, river)[i]
                == #[trigger] showdown_tiers(ps, river)[j],
    ensures
        ps.len() > 0 ==> hand_order(ps, river).len() > 0,
        forall|k: int|
            0 <= k < hand_order(ps, river).len() ==> {
                let w = at(#[trigger] hand_order(ps, river)[k]);
                &&& 0 <= w < ps.len()
                &&& forall|l: int|
                    0 <= l < ps.len() ==> optional_order(
                        #[trigger] kinds_of(ps)[l],
                        kinds_of(ps)[w],
                    ) != Ordering::Greater
            },
{
    let v = showdown_tiers(ps, river);
    let kinds = kinds_of(ps);
    if ps.len() > 0 {
        lemma_largest(v);
        let j0 = choose|i: int| 0 <= i < v.len() && v[i] == largest(v);
        assert forall|i: int| 0 <= i < v.len() implies v[i] == largest(v) by {
            assert(v[i] == v[j0]);
        }
        lemma_positions_all(v, largest(v), int_of(v.len()));
        let ws = positions_of(v, largest(v), int_of(v.len()));
        lemma_tie_break_keeps_best(ws, kinds, int_of(ws.len()));
        if ws.len() > 1 {
            let r = tie_break(ws, kinds, int_of(ws.len()));
            assert forall|k: int| 0 <= k < r.1.len() implies {
                let w = at(#[trigger] r.1[k]);
                &&& 0 <= w < ps.len()
                &&& forall|l: int|
                    0 <= l < ps.len() ==> optional_order(
                        #[trigger] kinds[l],
                        kinds[w],
                    ) != Ordering::Greater
            } by {
                let w = at(r.1[k]);
                assert forall|l: int| 0 <= l < ps.len() implies optional_order(
                    #[trigger] kinds[l],
                    kinds[w],
                ) != Ordering::Greater by {
                    lemma_optional_order_laws(kinds[l], kinds[r.0], kinds[w]);
                    lemma_optional_order_laws(kinds[w], kinds[r.0], kinds[l]);
                }
            }
        } else {
            assert(ws.len() == 1);
            assert(at(ws[0]) == 0);
            lemma_optional_order_laws(kinds[0], kinds[0], kinds[0]);
        }
    }
}

/// The chips an action takes from the current player, with `top` the
/// highest bet at the table (at least every bet, and one of them): a bet or
/// raise of `v` takes `v` when the player holds it, else is refused and
/// changes nothing; a call takes the difference between the highest bet and
/// the player's bet when the player holds the highest bet, takes nothing
/// and is a check when the player's bet is the highest, and otherwise
/// leaves the player with their bet and is an all in; going all in leaves
/// the player with their bet; a check changes nothing and is refused unless
/// the player's bet is the highest; a fold folds and takes nothing. No
/// action changes the player's hand or bet.
pub proof fn lemma_action_chips(t: Table, a: PlayerAction)
    requires
        t.table_pos < t.players@.len(),
        action_allowed(t, a),
    ensures
        ({
            let p = current(t);
            let q = action_effect(t, a).0;
            let r = action_effect(t, a).1;
            let top = highest_bet(t.players@);
            &&& p.current_bet <= top
            &&& forall|i: int| 0 <= i < t.players@.len() ==> (#[trigger] t.players@[i]).current_bet <= top
            &&& exists|i: int| 0 <= i < t.players@.len() && (#[trigger] t.players@[i]).current_bet == top
            &&& q.hand == p.hand
            &&& q.current_bet == p.current_bet
            &&& q.has_folded == (p.has_folded || a == PlayerAction::Fold)
            &&& (a == PlayerAction::Call && p.current_bet < top && p.chip_stack >= top) ==> {
                &&& q.chip_stack + (top - p.current_bet) == p.chip_stack
                &&& r == Ok::<PlayerAction, Seq<char>>(PlayerAction::Call)
            }
            &&& (a == PlayerAction::Call && p.current_bet == top) ==> {
                &&& q == p
                &&& r == Ok::<PlayerAction, Seq<char>>(PlayerAction::Check)
            }
            &&& (a == PlayerAction::Call && p.current_bet < top && p.chip_stack < top) ==> {
                &&& q.chip_stack == p.current_bet
                &&& r == Ok::<PlayerAction, Seq<char>>(PlayerAction::AllIn)
            }
            &&& (a == PlayerAction::AllIn) ==> {
                &&& q.chip_stack == p.current_bet
                &&& r == Ok::<PlayerAction, Seq<char>>(PlayerAction::AllIn)
            }
            &&& forall|v: u32|
                (a == PlayerAction::Raise { value: v } || a == PlayerAction::Bet { value: v }) ==> {
                    &&& p.chip_stack >= v ==> q.chip_stack + v == p.chip_stack && r == Ok::<
                        PlayerAction,
                        Seq<char>,
                    >(PlayerAction::Raise { value: v })
                    &&& p.chip_stack < v ==> q == p && r is Err
                }
            &&& (a == PlayerAction::Check) ==> {
                &&& q == p
                &&& (r == Ok::<PlayerAction, Seq<char>>(PlayerAction::Check)) == (p.current_bet == top)
                &&& (p.current_bet != top ==> r is Err)
            }
            &&& (a == PlayerAction::Fold) ==> {
                &&& q.chip_stack == p.chip_stack
                &&& r == Ok::<PlayerAction, Seq<char>>(PlayerAction::Fold)
            }
            &&& (a == PlayerAction::CheckFold) ==> q == p && r is Err
        }),
{
    lemma_highest_bet(t.players@);
}

/// The actions open to player `n`, with `top` the highest bet at the table:
/// none for a player who has folded or has no chips left; otherwise always
/// a fold and an all in; a check (and a bet of nothing) exactly when the
/// player's bet is the highest; a call (and a raise of nothing) exactly when
/// the player's bet is below the highest and the player holds more chips
/// than the highest bet; nothing else.
pub proof fn lemma_possible_actions(ps: Seq<Player>, n: int)
    requires
        0 <= n < ps.len(),
    ensures
        ({
            let p = ps[n];
            let top = highest_bet(ps);
            let acts = possible_actions(ps, n);
            &&& (p.has_folded || p.chip_stack == 0) ==> acts.len() == 0
            &&& (!p.has_folded && p.chip_stack != 0) ==> acts.contains(PlayerAction::Fold) && acts.contains(
                PlayerAction::AllIn,
            )
            &&& acts.contains(PlayerAction::Check) == ((!p.has_folded && p.chip_stack != 0) && p.current_bet == top)
            &&& acts.contains(PlayerAction::Bet { value: 0 }) == ((!p.has_folded && p.chip_stack != 0) && p.current_bet
                == top)
            &&& acts.contains(PlayerAction::Call) == ((!p.has_folded && p.chip_stack != 0) && p.current_bet < top
                && p.chip_stack > top)
            &&& acts.contains(PlayerAction::Raise { value: 0 }) == ((!p.has_folded && p.chip_stack != 0) && p.current_bet
                < top && p.chip_stack > top)
            &&& forall|a: PlayerAction|
                #[trigger] acts.contains(a) ==> a == PlayerAction::Fold || a == PlayerAction::AllIn
                    || a == PlayerAction::Check || a == PlayerAction::Call || a
                    == PlayerAction::Bet { value: 0 } || a == PlayerAction::Raise { value: 0 }
        }),
{
    lemma_highest_bet(ps);
    let p = ps[n];
    let top = highest_bet(ps);
    let acts = possible_actions(ps, n);
    assert(p.current_bet <= top);
    if (!p.has_folded && p.chip_stack != 0) {
        if p.current_bet == top {
            assert(acts[0] == PlayerAction::Fold && acts[1] == PlayerAction::Check);
            assert(acts[2] == PlayerAction::Bet { value: 0 } && acts[3] == PlayerAction::AllIn);
        } else if p.chip_stack > top {
            assert(acts[0] == PlayerAction::Fold && acts[1] == PlayerAction::Call);
            assert(acts[2] == PlayerAction::Raise { value: 0 } && acts[3] == PlayerAction::AllIn);
        } else {
            assert(acts[0] == PlayerAction::Fold && acts[1] == PlayerAction::AllIn);
        }
    }
}

/// A player takes part in the betting exactly when they have not folded
/// and have chips left.
pub proof fn lemma_active_players(p: Player)
    ensures
        is_active(p) == (!p.has_folded && p.chip_stack != 0),
{
}

/// Paying out gives a player who has not folded their bet back on top of
/// their stack and leaves a folded player as they were; starting a new hand
/// clears the bet and folds exactly the players without chips. Nothing else
/// about the player changes.
pub proof fn lemma_payout_and_reset(p: Player)
    ensures
        p.has_folded ==> paid(p) == p,
        !p.has_folded && p.chip_stack + p.current_bet <= u32::MAX ==> {
            &&& paid(p).chip_stack == p.chip_stack + p.current_bet
            &&& paid(p).hand == p.hand
            &&& paid(p).current_bet == p.current_bet
            &&& !paid(p).has_folded
        },
        reset_for_hand(p).current_bet == 0,
        reset_for_hand(p).has_folded == (p.chip_stack == 0),
        reset_for_hand(p).chip_stack == p.chip_stack,
        reset_for_hand(p).hand == p.hand,
{
}

} // verus!
