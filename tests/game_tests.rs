use go_fish::card::Rank::{Ace, Five, King};
use go_fish::card::Suit::Spades;
use go_fish::card::{Card, Rank};
use go_fish::game::Game;
use go_fish::player::Player;

fn fresh_game() -> Game {
    Game::new(Player::new("One".to_string()), Player::new("Two".to_string()))
}

#[test]
fn unshuffled_starting_hands_follow_the_deal_order() {
    let mut game = fresh_game();
    game.deal_starting_hands();
    let one = game.player_one().hand();
    assert_eq!(one.len(), 9);
    assert_eq!(one[8].rank, Ace);
    assert_eq!(one[8].suit, Spades);
    let two = game.player_two().hand();
    assert_eq!(two.len(), 9);
    assert_eq!(two[3].rank, Five);
    assert_eq!(two[3].suit, Spades);
    assert_eq!(game.deck().len(), 34);
    assert_eq!(game.active(), 0);
}

#[test]
fn starting_a_game_deals_two_hands_from_a_shuffled_deck() {
    let mut game = fresh_game();
    game.start();
    assert_eq!(game.player_one().hand().len(), 9);
    assert_eq!(game.player_two().hand().len(), 9);
    assert_eq!(game.deck().len(), 34);
}

#[test]
fn a_turn_passes_play_to_the_other_player() {
    let mut game = fresh_game();
    game.deal_starting_hands();
    let report = game.play_turn(Five);
    assert_eq!(report.received, 1);
    assert!(report.scored.is_empty());
    assert_eq!(game.player_one().hand().len(), 10);
    assert_eq!(game.player_one().hand()[0], Card { rank: Five, suit: Spades });
    assert_eq!(game.player_two().hand().len(), 8);
    assert_eq!(game.active(), 1);
    let report = game.play_turn(King);
    assert_eq!(report.received, 1);
    assert_eq!(game.active(), 0);
    assert!(!game.is_finished());
}

#[test]
fn a_failed_guess_draws_from_the_deck() {
    let mut game = fresh_game();
    game.deal_starting_hands();
    let report = game.play_turn(Rank::Seven);
    assert_eq!(report.received, 0);
    assert_eq!(game.deck().len(), 33);
    assert_eq!(game.player_one().hand().len(), 10);
    assert_eq!(game.player_one().hand()[4].rank, Rank::Nine);
    assert_eq!(game.player_one().hand()[4].suit, go_fish::card::Suit::Hearts);
    assert_eq!(game.player_two().hand().len(), 9);
}

#[test]
fn the_player_to_move_wins_a_tie() {
    let game = fresh_game();
    assert_eq!(game.winner(), 0);
    assert!(!game.is_finished());
}
