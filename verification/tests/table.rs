use poker::card::suit::Suit;
use poker::card::value::Value;
use poker::card::Card;
use poker::player::Player;
use poker::table::player_action::PlayerAction;
use poker::table::Table;

fn bets(t: &Table) -> Vec<u32> {
    t.players.iter().map(|p| p.current_bet).collect()
}

#[test]
fn new_table_seats_fresh_players() {
    let t = Table::new(3, 5, 10);
    assert_eq!(t.players.len(), 3);
    for p in t.players.iter() {
        assert_eq!(p.get_stack(), 2000);
        assert!(!p.has_folded);
        assert_eq!(p.current_bet, 0);
        assert_eq!(p.get_hand().get_hand().len(), 0);
    }
    assert_eq!(t.small_blind, 5);
    assert_eq!(t.big_blind, 10);
    assert_eq!(t.deck.cards.len(), 52);
}

#[test]
fn default_table_has_no_players() {
    let t = Table::default();
    assert_eq!(t.players.len(), 0);
    assert_eq!(t.small_blind, 5);
    assert_eq!(t.big_blind, 10);
}

#[test]
fn deal_cards_gives_two_from_the_top_to_each_player_still_in() {
    let mut t = Table::new(3, 5, 10);
    t.players[1].has_folded = true;
    let top = t.deck.cards[51];
    let second = t.deck.cards[50];
    t.deal_cards();
    assert_eq!(t.deck.cards.len(), 48);
    assert_eq!(t.players[0].get_hand().get_hand().len(), 2);
    assert_eq!(t.players[1].get_hand().get_hand().len(), 0);
    assert_eq!(t.players[2].get_hand().get_hand().len(), 2);
    assert!(t.players[0].get_hand().hand_type.is_some());
    let first_hand = t.players[0].get_hand().get_hand();
    let got_top = first_hand
        .iter()
        .any(|c| c.suit == top.suit && c.value == top.value);
    let got_second = first_hand
        .iter()
        .any(|c| c.suit == second.suit && c.value == second.value);
    assert!(got_top && got_second);
}

#[test]
fn next_player_skips_folded_and_all_in() {
    let mut t = Table::new(4, 5, 10);
    t.players[1].has_folded = true;
    let _ = t.players[2].down_stack(2000);
    assert_eq!(t.next_player(), 3);
    assert_eq!(t.next_player(), 0);
    assert_eq!(t.next_player(), 3);
}

#[test]
fn possible_actions_follow_the_bets() {
    let mut t = Table::new(2, 5, 10);
    assert_eq!(
        t.get_possible_actions(0),
        vec![
            PlayerAction::Fold,
            PlayerAction::Check,
            PlayerAction::Bet { value: 0 },
            PlayerAction::AllIn
        ]
    );
    t.players[1].current_bet = 100;
    assert_eq!(
        t.get_possible_actions(0),
        vec![
            PlayerAction::Fold,
            PlayerAction::Call,
            PlayerAction::Raise { value: 0 },
            PlayerAction::AllIn
        ]
    );
    t.players[1].current_bet = 5000;
    assert_eq!(
        t.get_possible_actions(0),
        vec![PlayerAction::Fold, PlayerAction::AllIn]
    );
    t.players[0].has_folded = true;
    assert_eq!(t.get_possible_actions(0), vec![]);
}

#[test]
fn handle_input_refuses_a_folded_player() {
    let mut t = Table::new(2, 5, 10);
    assert_eq!(t.handle_input(PlayerAction::Fold), Ok(PlayerAction::Fold));
    assert!(t.players[0].has_folded);
    assert_eq!(
        t.handle_input(PlayerAction::Check),
        Err(String::from(
            "Player has already folded - no actions can be taken."
        ))
    );
}

#[test]
fn handle_input_resolves_each_action() {
    let mut t = Table::new(2, 5, 10);
    assert_eq!(
        t.handle_input(PlayerAction::Bet { value: 300 }),
        Ok(PlayerAction::Raise { value: 300 })
    );
    assert_eq!(t.players[0].get_stack(), 1700);
    assert_eq!(
        t.handle_input(PlayerAction::Raise { value: 5000 }),
        Err(String::from("Bet invalid"))
    );
    assert_eq!(t.handle_input(PlayerAction::Check), Ok(PlayerAction::Check));
    assert_eq!(t.handle_input(PlayerAction::Call), Ok(PlayerAction::Check));
    t.players[1].current_bet = 200;
    assert_eq!(
        t.handle_input(PlayerAction::Check),
        Err(String::from("No players found."))
    );
    assert_eq!(t.handle_input(PlayerAction::Call), Ok(PlayerAction::Call));
    assert_eq!(t.players[0].get_stack(), 1500);
    assert_eq!(
        t.handle_input(PlayerAction::CheckFold),
        Err(String::from("Unsupported action."))
    );
    t.players[1].current_bet = 3000;
    assert_eq!(t.handle_input(PlayerAction::Call), Ok(PlayerAction::AllIn));
    assert_eq!(t.players[0].get_stack(), 0);
    assert_eq!(t.handle_input(PlayerAction::AllIn), Ok(PlayerAction::AllIn));
    assert_eq!(t.players[0].get_stack(), 0);
}

#[test]
fn handle_bet_asks_again_for_an_action_not_open() {
    let mut t = Table::new(2, 5, 10);
    assert_eq!(t.handle_bet(0, PlayerAction::Call), None);
    assert_eq!(t.players[0].get_stack(), 2000);
    assert_eq!(t.handle_bet(0, PlayerAction::Bet { value: 20 }), None);
    assert_eq!(
        t.handle_bet(0, PlayerAction::Bet { value: 0 }),
        Some(Ok(PlayerAction::Raise { value: 0 }))
    );
    assert_eq!(
        t.handle_bet(1, PlayerAction::Check),
        Some(Ok(PlayerAction::Check))
    );
}

#[test]
fn bets_settle_when_all_bets_match() {
    let mut t = Table::new(3, 5, 10);
    assert!(t.bets_settled());
    t.players[2].current_bet = 10;
    assert!(!t.bets_settled());
    t.players[0].current_bet = 10;
    t.players[1].current_bet = 10;
    assert!(t.bets_settled());
    assert_eq!(bets(&t), vec![10, 10, 10]);
}

#[test]
fn determine_hand_order_picks_the_best_tier() {
    let mut t = Table::new(3, 5, 10);
    t.players[0].mut_hand().set_hand(vec![
        Card::new(Suit::Club, Value::Two),
        Card::new(Suit::Heart, Value::Nine),
    ]);
    t.players[1].mut_hand().set_hand(vec![
        Card::new(Suit::Club, Value::King),
        Card::new(Suit::Heart, Value::King),
    ]);
    t.players[2].mut_hand().set_hand(vec![
        Card::new(Suit::Spade, Value::Four),
        Card::new(Suit::Diamond, Value::Jack),
    ]);
    assert_eq!(t.determine_hand_order(), vec![1]);
}

#[test]
fn determine_hand_order_on_no_players_is_empty() {
    let t = Table::new(0, 5, 10);
    assert_eq!(t.determine_hand_order(), Vec::<usize>::new());
}

#[test]
fn fresh_players_compare_equal() {
    let a = Player::default();
    let b = Player::default();
    assert!(a == b);
}
