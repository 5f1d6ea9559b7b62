use go_fish::card::Rank::{Ace, Five, Four, Six, Three, Two};
use go_fish::card::Suit::{Clubs, Diamonds, Hearts, Spades};
use go_fish::card::{Card, Rank};
use go_fish::deck::Deck;
use go_fish::player::Player;

fn is_sorted(cards: &[Card]) -> bool {
    cards.windows(2).all(|w| w[0].rank.index() <= w[1].rank.index())
}

#[test]
fn player_can_draw_a_starting_hand() {
    let mut deck = Deck::new();
    let mut player = Player::new("Karl".to_string());
    player.draw_starting_hand(&mut deck);
    assert_eq!(player.hand().len(), 9);
    assert_eq!(player.hand()[8].rank, Ace);
    assert_eq!(player.hand()[8].suit, Spades);
}

#[test]
fn player_can_give_cards_of_a_given_rank_from_hand() {
    let mut deck = Deck::new();
    let mut player = Player::new("Karl".to_string());
    player.draw_starting_hand(&mut deck);
    let result = player.take(Ace, &mut deck).unwrap();
    assert_eq!(result[0].rank, Ace);
    assert_eq!(result[0].suit, Spades);
    assert_eq!(player.hand().len(), 8);
}

#[test]
fn player_can_ask_opponent_for_rank() {
    let mut deck = Deck::new();
    let mut player = Player::new("Sagan".to_string());
    let mut opponent = Player::new("Marx".to_string());
    player.draw_starting_hand(&mut deck);
    opponent.draw_starting_hand(&mut deck);
    assert_eq!(opponent.hand()[3].rank, Five);
    assert_eq!(opponent.hand()[3].suit, Spades);
    player.ask_for(Five, &mut deck, &mut opponent);
    assert_eq!(player.hand()[0].rank, Five);
    assert_eq!(player.hand()[0].suit, Spades);
}

fn four_fives() -> Vec<Card> {
    vec![
        Card { rank: Five, suit: Diamonds },
        Card { rank: Five, suit: Hearts },
        Card { rank: Five, suit: Clubs },
        Card { rank: Five, suit: Spades },
    ]
}

#[test]
fn player_can_score_a_book() {
    let mut deck = Deck::new();
    let mut player = Player::with_hand("Carl".to_string(), four_fives());
    player.score_books(&mut deck);
    assert!(player.has_book(Five));
    // the emptied hand draws the top card of the deck at once
    assert_eq!(0, player.count_of(Five));
    assert_eq!(1, player.hand().len());
    assert_eq!(player.hand()[0].rank, Ace);
    assert_eq!(deck.len(), 51);
}

#[test]
fn scoring_moves_the_four_cards_into_the_book() {
    let mut deck = Deck::new();
    let mut hand = four_fives();
    hand.push(Card { rank: Two, suit: Clubs });
    let mut player = Player::with_hand("Carl".to_string(), hand);
    let scored = player.score_books(&mut deck).unwrap();
    assert_eq!(scored, vec![Five]);
    let book = player.book(Five).unwrap();
    assert_eq!(book.len(), 4);
    assert_eq!(book[0].suit, Diamonds);
    assert_eq!(book[3].suit, Spades);
    assert_eq!(player.hand().len(), 1);
    assert_eq!(player.hand()[0].suit, Clubs);
    assert_eq!(player.book_count(), 1);
    assert_eq!(player.booked_ranks(), vec![Five]);
    assert_eq!(deck.len(), 52);
}

#[test]
fn scoring_without_a_full_rank_scores_nothing() {
    let mut deck = Deck::new();
    let mut player = Player::new("Carl".to_string());
    player.draw_starting_hand(&mut deck);
    assert!(player.score_books(&mut deck).is_none());
    assert_eq!(player.book_count(), 0);
    assert_eq!(player.hand().len(), 9);
}

#[test]
fn scoring_two_books_at_once() {
    let mut deck = Deck::new();
    let mut hand = four_fives();
    for suit in [Clubs, Spades, Hearts, Diamonds] {
        hand.push(Card { rank: Three, suit });
    }
    hand.push(Card { rank: Six, suit: Hearts });
    let mut player = Player::with_hand("Carl".to_string(), hand);
    assert_eq!(player.score_books(&mut deck), Some(vec![Three, Five]));
    assert!(player.has_book(Three));
    assert!(player.has_book(Five));
    assert!(!player.has_book(Six));
    assert_eq!(player.book_count(), 2);
    assert_eq!(player.hand().len(), 1);
}

#[test]
fn taking_a_missing_rank_changes_nothing() {
    let mut deck = Deck::new();
    let mut player = Player::new("Karl".to_string());
    player.draw_starting_hand(&mut deck);
    let before: Vec<(usize, Card)> = player.hand().iter().map(|c| (c.rank.index(), *c)).collect();
    assert!(player.take(Two, &mut deck).is_none());
    assert_eq!(player.hand().len(), before.len());
    for (i, (r, c)) in before.iter().enumerate() {
        assert_eq!(player.hand()[i].rank.index(), *r);
        assert_eq!(player.hand()[i].suit, c.suit);
    }
    assert_eq!(deck.len(), 43);
}

#[test]
fn taking_the_whole_hand_draws_one_card() {
    let mut deck = Deck::new();
    let mut player = Player::with_hand(
        "Karl".to_string(),
        vec![Card { rank: Four, suit: Hearts }, Card { rank: Four, suit: Clubs }],
    );
    let given = player.take(Four, &mut deck).unwrap();
    assert_eq!(given.len(), 2);
    assert_eq!(given[0].suit, Hearts);
    assert_eq!(player.hand().len(), 1);
    assert_eq!(player.hand()[0].rank, Ace);
    assert_eq!(player.hand()[0].suit, Spades);
    assert_eq!(deck.len(), 51);
}

#[test]
fn taking_the_whole_hand_with_an_empty_deck_leaves_it_empty() {
    let mut deck = Deck::new();
    deck.multi_deal(52);
    let mut player = Player::with_hand("Karl".to_string(), vec![Card { rank: Four, suit: Hearts }]);
    assert!(player.take(Four, &mut deck).is_some());
    assert_eq!(player.hand().len(), 0);
}

#[test]
fn going_fishing_draws_the_top_card_into_a_sorted_hand() {
    let mut deck = Deck::new();
    let mut player = Player::with_hand("Karl".to_string(), vec![Card { rank: Six, suit: Hearts }]);
    player.go_fish(&mut deck);
    assert_eq!(player.hand().len(), 2);
    assert_eq!(player.hand()[0].rank, Six);
    assert_eq!(player.hand()[1].rank, Ace);
    deck.multi_deal(52);
    player.go_fish(&mut deck);
    assert_eq!(player.hand().len(), 2);
}

#[test]
fn asking_for_a_missing_rank_goes_fishing() {
    let mut deck = Deck::new();
    let mut player = Player::with_hand("Sagan".to_string(), vec![Card { rank: Two, suit: Hearts }]);
    let mut opponent = Player::with_hand("Marx".to_string(), vec![Card { rank: Six, suit: Hearts }]);
    player.ask_for(Three, &mut deck, &mut opponent);
    assert_eq!(opponent.hand().len(), 1);
    assert_eq!(player.hand().len(), 2);
    assert_eq!(player.hand()[1].rank, Ace);
    assert_eq!(deck.len(), 51);
}

#[test]
fn starting_hands_are_sorted_and_short_decks_give_what_they_have() {
    let mut deck = Deck::new();
    deck.multi_deal(47);
    let mut player = Player::new("Karl".to_string());
    player.draw_starting_hand(&mut deck);
    assert_eq!(player.hand().len(), 5);
    assert!(is_sorted(player.hand()));
    let mut other = Player::new("Marx".to_string());
    other.draw_starting_hand(&mut deck);
    assert_eq!(other.hand().len(), 0);
    assert_eq!(player.name(), "Karl");
}

#[test]
fn a_hand_is_sorted_stably_by_rank() {
    let player = Player::with_hand(
        "Karl".to_string(),
        vec![
            Card { rank: Ace, suit: Hearts },
            Card { rank: Two, suit: Spades },
            Card { rank: Ace, suit: Clubs },
            Card { rank: Two, suit: Diamonds },
        ],
    );
    let h = player.hand();
    assert_eq!((h[0].rank, h[0].suit), (Two, Spades));
    assert_eq!((h[1].rank, h[1].suit), (Two, Diamonds));
    assert_eq!((h[2].rank, h[2].suit), (Ace, Hearts));
    assert_eq!((h[3].rank, h[3].suit), (Ace, Clubs));
    assert_eq!(player.count_of(Rank::Ace), 2);
}
