use go_fish::card::Rank::{Ace, King, Queen, Two};
use go_fish::card::Suit::{Diamonds, Spades};
use go_fish::card::{Card, Rank, Suit};
use go_fish::deck::Deck;

fn key(c: &Card) -> (usize, usize) {
    let s = match c.suit {
        Suit::Diamonds => 0,
        Suit::Clubs => 1,
        Suit::Hearts => 2,
        Suit::Spades => 3,
    };
    (s, c.rank.index())
}

fn keys(cards: &[Card]) -> Vec<(usize, usize)> {
    let mut k: Vec<(usize, usize)> = cards.iter().map(key).collect();
    k.sort();
    k
}

fn all_keys() -> Vec<(usize, usize)> {
    let mut k = Vec::new();
    for s in 0..4 {
        for r in 0..13 {
            k.push((s, r));
        }
    }
    k
}

#[test]
fn a_deck_has_52_cards() {
    let deck = Deck::new();
    assert_eq!(deck.len(), 52);
}

#[test]
fn dealing_from_an_unshuffled_deck() {
    let mut deck = Deck::new();
    let expected_card = Card {
        rank: Ace,
        suit: Spades,
    };
    assert_eq!(deck.deal().unwrap(), expected_card);
}

#[test]
fn dealing_from_an_empty_deck() {
    let mut deck = Deck::new();
    for _ in 0..52 {
        deck.deal();
    }
    assert_eq!(deck.deal(), None);
}

#[test]
fn multi_dealing_from_an_unshuffled_deck() {
    let mut deck = Deck::new();
    let dealt_cards = deck.multi_deal(3).unwrap();
    assert_eq!(dealt_cards[0].rank, Ace);
    assert_eq!(dealt_cards[0].suit, Spades);
    assert_eq!(dealt_cards[1].rank, King);
    assert_eq!(dealt_cards[1].suit, Spades);
    assert_eq!(dealt_cards[2].rank, Queen);
    assert_eq!(dealt_cards[2].suit, Spades);
}

#[test]
fn multi_dealing_from_empty_deck_returns_none() {
    let mut deck = Deck::new();
    deck.multi_deal(52);
    assert_eq!(deck.multi_deal(10), None);
}

#[test]
fn multi_dealing_from_short_deck_returns_only_remaining_cards() {
    let mut deck = Deck::new();
    deck.multi_deal(50);
    let dealt_cards = deck.multi_deal(10).unwrap();
    assert_eq!(dealt_cards.len(), 2);
}

#[test]
fn shuffling_does_not_remove_cards_from_deck() {
    let mut deck = Deck::new();
    deck.shuffle();
    assert_eq!(deck.len(), 52);
}

#[test]
fn full_deck_holds_every_card_once_in_construction_order() {
    let deck = Deck::new();
    assert_eq!(keys(deck.cards()), all_keys());
    let cards = deck.cards();
    assert_eq!(key(&cards[0]), (0, 0));
    assert_eq!(cards[0].suit, Diamonds);
    assert_eq!(cards[0].rank, Two);
    assert_eq!(key(&cards[13]), (1, 0));
    assert_eq!(key(&cards[51]), (3, 12));
}

#[test]
fn dealing_a_whole_deck_gives_each_card_once_then_nothing() {
    let mut deck = Deck::new();
    let mut dealt = Vec::new();
    for _ in 0..52 {
        dealt.push(deck.deal().unwrap());
    }
    assert_eq!(keys(&dealt), all_keys());
    assert!(deck.deal().is_none());
    assert!(deck.is_empty());
}

#[test]
fn multi_dealing_zero_cards_is_refused() {
    let mut deck = Deck::new();
    assert_eq!(deck.multi_deal(0), None);
    assert_eq!(deck.len(), 52);
    deck.multi_deal(52);
    assert_eq!(deck.multi_deal(0), None);
}

#[test]
fn multi_dealing_more_than_the_deck_holds_empties_it() {
    let mut deck = Deck::new();
    let dealt = deck.multi_deal(255).unwrap();
    assert_eq!(dealt.len(), 52);
    assert_eq!(deck.len(), 0);
    assert_eq!(key(&dealt[51]), (0, 0));
}

#[test]
fn shuffling_keeps_every_card() {
    let mut deck = Deck::new();
    deck.multi_deal(7);
    let before = keys(deck.cards());
    deck.shuffle();
    assert_eq!(keys(deck.cards()), before);
    assert_eq!(Rank::Ace.index(), 12);
}
