use poker::card::suit::Suit;
use poker::card::value::Value;
use poker::card::Card;
use poker::player::Player;

#[test]
fn constructors_test() {
    let _p1 = Player::default();
    let _p2: Player = Player::new(vec![], 5);
    let _p3: Player = Player::new(
        vec![
            Card::default(),
            Card::default(),
            Card::default(),
            Card::default(),
            Card::default(),
        ],
        2000,
    );
}

#[test]
fn stack_test() {
    let mut p1 = Player::default();
    assert_eq!(p1.get_stack(), 2000);
    p1.up_stack(100);
    assert_eq!(p1.get_stack(), 2100);
    let _ = p1.down_stack(50);
    assert_eq!(p1.get_stack(), 2050);
}

#[test]
fn player_discard_test() {
    let mut p: Player = Player::new(
        vec![
            Card::default(),
            Card::default(),
            Card::default(),
            Card::default(),
            Card::default(),
        ],
        2000,
    );
    let mut my_vec: Vec<u32> = vec![0, 1, 2];
    p.discard_cards(&mut my_vec);
}

#[test]
fn player_draw_test() {
    let mut p: Player = Player::new(
        vec![
            Card::default(),
            Card::default(),
            Card::default(),
            Card::default(),
        ],
        2000,
    );
    p.draw_card(Card::default());
}

#[test]
fn get_set_test() {
    let mut p: Player = Player::default();
    p.get_hand();
    p.mut_hand();
}

#[test]
fn down_stack_refuses_more_than_the_stack() {
    let mut p = Player::new(vec![], 30);
    let r = p.down_stack(31);
    assert_eq!(r, Err(String::from("Not enough :(")));
    assert_eq!(p.get_stack(), 30);
    assert_eq!(p.down_stack(30), Ok(()));
    assert_eq!(p.get_stack(), 0);
    assert!(p.is_all_in());
}

#[test]
fn up_then_down_restores_the_stack() {
    let mut p = Player::default();
    p.up_stack(250);
    assert_eq!(p.down_stack(250), Ok(()));
    assert_eq!(p.get_stack(), 2000);
}

#[test]
fn discard_sorts_targets_and_removes_from_the_top() {
    let cards = vec![
        Card::new(Suit::Club, Value::Two),
        Card::new(Suit::Heart, Value::Five),
        Card::new(Suit::Spade, Value::Nine),
        Card::new(Suit::Diamond, Value::Jack),
    ];
    let mut p = Player::default();
    p.mut_hand().set_hand(cards);
    let mut targets: Vec<u32> = vec![0, 3, 1];
    p.discard_cards(&mut targets);
    assert_eq!(targets, vec![3, 1, 0]);
    let left = p.get_hand().get_hand();
    assert_eq!(left.len(), 1);
    assert_eq!(left[0].suit, Suit::Spade);
    assert_eq!(left[0].value, Value::Nine);
}

#[test]
fn players_compare_by_their_hands() {
    let pair = Player::new(
        vec![
            Card::new(Suit::Club, Value::Two),
            Card::new(Suit::Heart, Value::Two),
            Card::new(Suit::Spade, Value::Nine),
        ],
        10,
    );
    let high = Player::new(
        vec![
            Card::new(Suit::Club, Value::Ace),
            Card::new(Suit::Heart, Value::King),
            Card::new(Suit::Spade, Value::Nine),
        ],
        10,
    );
    assert!(pair > high);
    assert!(pair != high);
}
