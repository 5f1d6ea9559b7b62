use go_fish::card::Rank::{Ace, Four, Jack, King, Queen, Three, Two};
use go_fish::card::Suit::{Clubs, Diamonds, Hearts, Spades};
use go_fish::card::{parse_rank, Card, Rank};
use std::cmp::Ordering;

#[test]
fn cards_of_equal_rank_are_equal() {
    let four_of_spades = Card {
        rank: Four,
        suit: Spades,
    };
    let four_of_diamonds = Card {
        rank: Four,
        suit: Diamonds,
    };
    assert!(four_of_spades == four_of_diamonds);
}

#[test]
fn cards_can_be_compared_by_rank() {
    let three_of_hearts = Card {
        rank: Three,
        suit: Hearts,
    };
    let queen_of_clubs = Card {
        rank: Queen,
        suit: Clubs,
    };
    assert!(three_of_hearts < queen_of_clubs);
}

#[test]
fn cards_of_different_rank_differ_whatever_the_suit() {
    let a = Card { rank: Jack, suit: Hearts };
    let b = Card { rank: Queen, suit: Hearts };
    assert!(a != b);
    assert_eq!(
        Card { rank: Ace, suit: Clubs }.partial_cmp(&Card { rank: Ace, suit: Spades }),
        Some(Ordering::Equal)
    );
    assert_eq!(
        Card { rank: King, suit: Clubs }.partial_cmp(&Card { rank: Two, suit: Spades }),
        Some(Ordering::Greater)
    );
}

#[test]
fn all_ranks_lists_each_rank_once_in_order() {
    let ranks = Rank::all_ranks();
    assert_eq!(ranks.len(), 13);
    assert_eq!(ranks[0], Two);
    assert_eq!(ranks[12], Ace);
    for i in 0..13 {
        assert_eq!(ranks[i].index(), i);
        assert_eq!(Rank::from_index(i), ranks[i]);
    }
}

#[test]
fn guesses_parse_to_ranks() {
    assert_eq!(parse_rank("2"), Some(Two));
    assert_eq!(parse_rank("10"), Some(Rank::Ten));
    assert_eq!(parse_rank("J"), Some(Jack));
    assert_eq!(parse_rank("A"), Some(Ace));
    assert_eq!(parse_rank("1"), None);
    assert_eq!(parse_rank("11"), None);
    assert_eq!(parse_rank("j"), None);
    assert_eq!(parse_rank(""), None);
    assert_eq!(parse_rank("Ace"), None);
}
