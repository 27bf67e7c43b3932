use poker_engine::gameplay::game::Game;
use poker_engine::gameplay::player::Player;

#[test]
fn player_keeps_name_and_stack() {
    let player = Player::new("Yannick", 200000);
    assert_eq!(player.name(), "Yannick");
    assert_eq!(player.stack(), 200000);
    let copy = player.clone();
    assert_eq!(copy.name(), "Yannick");
}

#[test]
fn add_player_wants_a_hundred_chips() {
    let mut game = Game::default();
    assert!(!game.add_player(Player::new("Poor", 99)));
    assert!(game.add_player(Player::new("Just", 100)));
    assert!(game.add_player(Player::new("Rich", u32::MAX)));
    let text = format!("{:?}", game);
    assert!(text.contains("Just"));
    assert!(text.contains("Rich"));
    assert!(!text.contains("Poor"));
}

#[test]
fn new_round_needs_two_players() {
    let mut game = Game::default();
    assert!(!game.new_round());
    game.add_player(Player::new("Yannick", 200000));
    assert!(!game.new_round());
    assert!(format!("{:?}", game).contains("game_history: []"));
    game.add_player(Player::new("Yan", 300000));
    assert!(game.new_round());
}

#[test]
fn new_round_rotates_records_and_deals() {
    let mut game = Game::default();
    game.add_player(Player::new("Yannick", 200000));
    game.add_player(Player::new("Yan", 300000));
    game.add_player(Player::new("Nick", 400000));
    game.add_bet(50);
    assert!(game.new_round());
    let text = format!("{:?}", game);
    let yan = text.find("\"Yan\"").unwrap();
    let nick = text.find("\"Nick\"").unwrap();
    let yannick = text.find("\"Yannick\"").unwrap();
    assert!(yan < nick && nick < yannick);
    assert!(text.contains(
        "game_history: [Bet(50), StartStack(300000), StartStack(400000), StartStack(200000)]"
    ));
    // Three hands of two cards each were dealt.
    let hands = &text[text.find("hands: [").unwrap()..text.find("dealer").unwrap()];
    assert_eq!(hands.matches("Cards").count(), 3);
}
