use vstd::prelude::*;
use crate::card::{
    Card, Rank, Suit, RANK_COUNT, SUIT_COUNT, rank_at, rank_index, suit_at, suit_index,
    lemma_rank_index_bijective, lemma_suit_index_bijective,
};

verus! {

/// Number of cards in a full deck.
pub const DECK_SIZE: usize = 52;

/// The card at position `i` of a freshly built deck: suit-major, rank-minor.
pub open spec fn full_deck_card(i: int) -> Card {
    Card { suit: suit_at(i / 13), rank: rank_at(i % 13) }
}

/// A freshly built deck: all Diamonds from Two to Ace, then Clubs, Hearts and
/// Spades.
pub open spec fn full_deck() -> Seq<Card> {
    Seq::new(52, |i: int| full_deck_card(i))
}

/// The cards a deck hands out, in order, when `k` are dealt one by one from
/// the top (the end) of `s`.
pub open spec fn top_cards(s: Seq<Card>, k: int) -> Seq<Card> {
    Seq::new(k as nat, |i: int| s[s.len() - 1 - i])
}

/// What remains of `s` once `k` cards have been dealt from its top.
pub open spec fn after_dealing(s: Seq<Card>, k: int) -> Seq<Card> {
    s.subrange(0, s.len() - k)
}

proof fn lemma_position_split(s: int, r: int)
    requires
        0 <= s,
        0 <= r < 13,
    ensures
        (13 * s + r) / 13 == s,
        (13 * s + r) % 13 == r,
{
    assert((13 * s + r) / 13 == s) by (nonlinear_arith)
        requires
            0 <= s,
            0 <= r < 13,
    ;
    assert((13 * s + r) % 13 == r) by (nonlinear_arith)
        requires
            0 <= s,
            0 <= r < 13,
    ;
}

/// A full deck has 52 cards, holds no (rank, suit) pair twice, and holds every
/// one of the 4 x 13 pairs.
pub proof fn lemma_full_deck_complete()
    ensures
        full_deck().len() == 52,
        full_deck().no_duplicates(),
        forall|c: Card| #[trigger] full_deck().contains(c),
        full_deck().to_set().len() == 52,
{
    lemma_rank_index_bijective();
    lemma_suit_index_bijective();
    let d = full_deck();
    assert forall|i: int, j: int| 0 <= i < d.len() && 0 <= j < d.len() && i != j
        implies d[i] != d[j] by {
        assert(i == 13 * (i / 13) + i % 13);
        assert(j == 13 * (j / 13) + j % 13);
        assert(0 <= i / 13 < 4);
        assert(0 <= j / 13 < 4);
        if i / 13 == j / 13 {
            assert(i % 13 != j % 13);
            assert(rank_index(rank_at(i % 13)) == i % 13);
            assert(rank_index(rank_at(j % 13)) == j % 13);
        } else {
            assert(suit_index(suit_at(i / 13)) == i / 13);
            assert(suit_index(suit_at(j / 13)) == j / 13);
        }
    }
    assert forall|c: Card| #[trigger] d.contains(c) by {
        let k: int = 13 * (suit_index(c.suit) as int) + (rank_index(c.rank) as int);
        lemma_position_split(suit_index(c.suit) as int, rank_index(c.rank) as int);
        assert(d[k] == c);
    }
    d.unique_seq_to_set();
}

/// An ordered stack of cards; the top of the deck is the end of the sequence.
pub struct Deck {
    cards: Vec<Card>,
}

impl View for Deck {
    type V = Seq<Card>;

    closed spec fn view(&self) -> Seq<Card> {
        self.cards@
    }
}

impl Deck {
    /// A deck holds no card twice and never more than a full deck.
    pub open spec fn well_formed(&self) -> bool {
        self@.len() <= 52 && self@.no_duplicates()
    }

    /// A full, unshuffled deck.
    pub fn new() -> (d: Deck)
        ensures
            d@ == full_deck(),
            d.well_formed(),
    {
        let mut cards: Vec<Card> = Vec::with_capacity(DECK_SIZE);
        let mut s: usize = 0;
        while s < SUIT_COUNT
            invariant
                s <= SUIT_COUNT,
                cards@.len() == 13 * s,
                forall|j: int| 0 <= j < cards@.len() ==> #[trigger] cards@[j] == full_deck_card(j),
            decreases SUIT_COUNT - s,
        {
            let suit = if s == 0 {
                Suit::Diamonds
            } else if s == 1 {
                Suit::Clubs
            } else if s == 2 {
                Suit::Hearts
            } else {
                Suit::Spades
            };
            let mut r: usize = 0;
            while r < RANK_COUNT
                invariant
                    s < SUIT_COUNT,
                    r <= RANK_COUNT,
                    suit == suit_at(s as int),
                    cards@.len() == 13 * s + r,
                    forall|j: int|
                        0 <= j < cards@.len() ==> #[trigger] cards@[j] == full_deck_card(j),
                decreases RANK_COUNT - r,
            {
                proof {
                    lemma_position_split(s as int, r as int);
                }
                cards.push(Card { suit, rank: Rank::from_index(r) });
                r = r + 1;
            }
            s = s + 1;
        }
        proof {
            assert(cards@ =~= full_deck());
            lemma_full_deck_complete();
        }
        Deck { cards }
    }

    /// Number of cards left.
    pub fn len(&self) -> (r: usize)
        ensures
            r == self@.len(),
    {
        self.cards.len()
    }

    /// Whether no card is left.
    pub fn is_empty(&self) -> (r: bool)
        ensures
            r == (self@.len() == 0),
    {
        self.cards.len() == 0
    }

    /// The cards left, bottom first.
    pub fn cards(&self) -> (r: &Vec<Card>)
        ensures
            r@ == self@,
    {
        &self.cards
    }

    /// Removes and returns the top card, or `None` when the deck is empty.
    pub fn deal(&mut self) -> (r: Option<Card>)
        ensures
            old(self)@.len() == 0 ==> r is None && final(self)@ == old(self)@,
            old(self)@.len() > 0 ==> r == Some(old(self)@.last())
                && final(self)@ == old(self)@.drop_last(),
            old(self).well_formed() ==> final(self).well_formed(),
    {
        self.cards.pop()
    }

    /// Deals up to `number` cards from the top, in the order dealt. `None` when
    /// no card is asked for or none is left; otherwise the deal stops early
    /// only when the deck runs out.
    pub fn multi_deal(&mut self, number: u8) -> (r: Option<Vec<Card>>)
        ensures
            number == 0 || old(self)@.len() == 0 <==> r is None,
            r is None ==> final(self)@ == old(self)@,
            r matches Some(v) ==> {
                let k = if (number as int) < old(self)@.len() {
                    number as int
                } else {
                    old(self)@.len() as int
                };
                &&& v@ == top_cards(old(self)@, k)
                &&& final(self)@ == after_dealing(old(self)@, k)
            },
            old(self).well_formed() ==> final(self).well_formed(),
    {
        if number == 0 {
            return None;
        }
        let ghost start = self@;
        if let Some(first_deal) = self.deal() {
            let mut dealt_cards: Vec<Card> = Vec::new();
            dealt_cards.push(first_deal);
            let mut i: u8 = 1;
            assert(dealt_cards@ =~= top_cards(start, 1));
            assert(self@ =~= after_dealing(start, 1));
            while i < number
                invariant
                    1 <= i <= number,
                    dealt_cards@.len() == i,
                    i <= start.len(),
                    dealt_cards@ == top_cards(start, i as int),
                    self@ == after_dealing(start, i as int),
                ensures
                    1 <= i <= number,
                    i <= start.len(),
                    i == number || i == start.len(),
                    dealt_cards@ == top_cards(start, i as int),
                    self@ == after_dealing(start, i as int),
                decreases number - i,
            {
                if let Some(dealt_card) = self.deal() {
                    dealt_cards.push(dealt_card);
                    i = i + 1;
                    assert(dealt_cards@ =~= top_cards(start, i as int));
                    assert(self@ =~= after_dealing(start, i as int));
                } else {
                    assert(after_dealing(start, i as int).len() == start.len() - i);
                    break;
                }
            }
            Some(dealt_cards)
        } else {
            None
        }
    }

    /// Puts the cards in a random order; which cards the deck holds, and how
    /// many, do not change.
    pub fn shuffle(&mut self)
        ensures
            final(self)@.to_multiset() == old(self)@.to_multiset(),
            final(self)@.len() == old(self)@.len(),
            old(self).well_formed() ==> final(self).well_formed(),
    {
        shuffle_cards(&mut self.cards);
        proof {
            broadcast use vstd::seq_lib::group_to_multiset_ensures;
            if old(self).well_formed() {
                old(self)@.lemma_multiset_has_no_duplicates();
                self@.lemma_multiset_has_no_duplicates_conv();
            }
        }
    }
}

/// Relies on rand's `thread_rng` and `Rng::shuffle`, which only swap elements
/// of the slice: the result is a reordering of the input.
#[verifier::external_body]
fn shuffle_cards(cards: &mut Vec<Card>)
    ensures
        final(cards)@.to_multiset() == old(cards)@.to_multiset(),
        final(cards)@.len() == old(cards)@.len(),
{
    rand::Rng::shuffle(&mut rand::thread_rng(), cards.as_mut_slice());
}

} // verus!
