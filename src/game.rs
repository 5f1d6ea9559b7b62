use vstd::prelude::*;
use crate::card::{Card, Rank, RANK_COUNT, rank_at, lemma_rank_index_bijective};
use crate::deck::{Deck, full_deck, top_cards, after_dealing};
use crate::player::{Player, ask_outcome, scoring, sort_by_rank, booked_among};

verus! {

/// What happened in one turn: how many cards the opponent gave (none means
/// the asker went fishing) and which ranks the asker booked.
pub struct TurnReport {
    pub received: usize,
    pub scored: Vec<Rank>,
}

/// Hand after a starting hand of up to nine cards is dealt from `deck`.
pub open spec fn starting_hand(hand: Seq<Card>, deck: Seq<Card>) -> Seq<Card> {
    sort_by_rank(hand + top_cards(deck, starting_count(deck)))
}

/// How many cards a starting hand takes from `deck`.
pub open spec fn starting_count(deck: Seq<Card>) -> int {
    if deck.len() < 9 {
        deck.len() as int
    } else {
        9
    }
}

/// Whether every rank has been booked by one player or the other.
pub open spec fn all_booked(one: Map<Rank, Seq<Card>>, two: Map<Rank, Seq<Card>>) -> bool {
    forall|r: Rank| one.contains_key(r) || two.contains_key(r)
}

/// A two-player game: the players, the deck, and whose turn it is.
pub struct Game {
    player_one: Player,
    player_two: Player,
    deck: Deck,
    active: usize,
}

impl Game {
    /// Player `i`: 0 is player one, 1 player two.
    pub closed spec fn player(&self, i: int) -> Player {
        if i == 0 {
            self.player_one
        } else {
            self.player_two
        }
    }

    /// The cards left in the deck.
    pub closed spec fn deck_view(&self) -> Seq<Card> {
        self.deck@
    }

    /// The player whose turn it is: 0 or 1.
    pub closed spec fn active_index(&self) -> int {
        self.active as int
    }

    /// The players and the deck are well formed, and the turn belongs to one
    /// of the two players.
    pub closed spec fn well_formed(&self) -> bool {
        &&& self.player_one.well_formed()
        &&& self.player_two.well_formed()
        &&& self.deck.well_formed()
        &&& self.active < 2
    }

    /// A game with a full, unshuffled deck, player one to move.
    pub fn new(player_one: Player, player_two: Player) -> (g: Game)
        requires
            player_one.well_formed(),
            player_two.well_formed(),
        ensures
            g.well_formed(),
            g.player(0) == player_one,
            g.player(1) == player_two,
            g.deck_view() == full_deck(),
            g.active_index() == 0,
    {
        Game { player_one, player_two, deck: Deck::new(), active: 0 }
    }

    /// Player one, then player two, draws a starting hand.
    pub fn deal_starting_hands(&mut self)
        requires
            old(self).well_formed(),
        ensures
            final(self).well_formed(),
            ({
                let d0 = old(self).deck_view();
                let d1 = after_dealing(d0, starting_count(d0));
                &&& final(self).player(0).hand_view() == starting_hand(old(self).player(0).hand_view(), d0)
                &&& final(self).player(1).hand_view() == starting_hand(old(self).player(1).hand_view(), d1)
                &&& final(self).deck_view() == after_dealing(d1, starting_count(d1))
            }),
            forall|i: int| 0 <= i < 2 ==> (#[trigger] final(self).player(i)).books_view() == old(self).player(i).books_view()
                && final(self).player(i).name_view() == old(self).player(i).name_view(),
            final(self).active_index() == old(self).active_index(),
    {
        self.player_one.draw_starting_hand(&mut self.deck);
        self.player_two.draw_starting_hand(&mut self.deck);
    }

    /// Shuffles the deck, then deals the starting hands from it.
    pub fn start(&mut self)
        requires
            old(self).well_formed(),
        ensures
            final(self).well_formed(),
            exists|s: Seq<Card>| {
                let d1 = after_dealing(s, starting_count(s));
                &&& #[trigger] s.to_multiset() == old(self).deck_view().to_multiset()
                &&& s.len() == old(self).deck_view().len()
                &&& final(self).player(0).hand_view() == starting_hand(old(self).player(0).hand_view(), s)
                &&& final(self).player(1).hand_view() == starting_hand(old(self).player(1).hand_view(), d1)
                &&& final(self).deck_view() == after_dealing(d1, starting_count(d1))
            },
            forall|i: int| 0 <= i < 2 ==> (#[trigger] final(self).player(i)).books_view() == old(self).player(i).books_view()
                && final(self).player(i).name_view() == old(self).player(i).name_view(),
            final(self).active_index() == old(self).active_index(),
    {
        self.deck.shuffle();
        let ghost s = self.deck@;
        self.deal_starting_hands();
        assert(s.to_multiset() == old(self).deck_view().to_multiset());
    }

    /// Plays one turn: the active player asks the other for `guess`, then
    /// scores its books, and the turn passes to the other player.
    pub fn play_turn(&mut self, guess: Rank) -> (report: TurnReport)
        requires
            old(self).well_formed(),
        ensures
            final(self).well_formed(),
            ({
                let a = old(self).active_index();
                let o = 1 - a;
                let asker = old(self).player(a);
                let other = old(self).player(o);
                let (h, oh, d) = ask_outcome(asker.hand_view(), other.hand_view(), old(self).deck_view(), guess);
                let st = scoring(h, d, asker.books_view(), 13);
                &&& final(self).player(a).hand_view() == st.hand
                &&& final(self).player(a).books_view() == st.books
                &&& final(self).player(a).name_view() == asker.name_view()
                &&& final(self).player(o).hand_view() == oh
                &&& final(self).player(o).books_view() == other.books_view()
                &&& final(self).player(o).name_view() == other.name_view()
                &&& final(self).deck_view() == st.deck
                &&& final(self).active_index() == o
                &&& report.received == crate::player::of_rank(other.hand_view(), guess).len()
                &&& report.scored@ == st.scored
            }),
    {
        let report = if self.active == 0 {
            handle_turn(&mut self.player_one, &mut self.player_two, &mut self.deck, guess)
        } else {
            handle_turn(&mut self.player_two, &mut self.player_one, &mut self.deck, guess)
        };
        self.active = 1 - self.active;
        report
    }

    /// Whether every rank has been booked by one player or the other.
    pub fn is_finished(&self) -> (r: bool)
        requires
            self.well_formed(),
        ensures
            r == all_booked(self.player(0).books_view(), self.player(1).books_view()),
    {
        let mut k: usize = 0;
        while k < RANK_COUNT
            invariant
                k <= RANK_COUNT,
                self.well_formed(),
                forall|j: int| 0 <= j < k ==> (#[trigger] self.player(0).books_view().contains_key(rank_at(j))
                    || self.player(1).books_view().contains_key(rank_at(j))),
            decreases RANK_COUNT - k,
        {
            let r = Rank::from_index(k);
            if !self.player_one.has_book(r) && !self.player_two.has_book(r) {
                return false;
            }
            k = k + 1;
        }
        proof {
            lemma_rank_index_bijective();
            assert forall|r: Rank| self.player(0).books_view().contains_key(r)
                || self.player(1).books_view().contains_key(r) by {
                assert(rank_at(crate::card::rank_index(r) as int) == r);
            }
        }
        true
    }

    /// The winner: whoever has strictly more books than the player to move,
    /// else the player to move.
    pub fn winner(&self) -> (w: usize)
        requires
            self.well_formed(),
        ensures
            ({
                let a = self.active_index();
                let o = 1 - a;
                w == if booked_among(self.player(o).books_view(), 13) > booked_among(self.player(a).books_view(), 13) {
                    o
                } else {
                    a
                }
            }),
    {
        let one = self.player_one.book_count();
        let two = self.player_two.book_count();
        if self.active == 0 {
            if two > one { 1 } else { 0 }
        } else {
            if one > two { 0 } else { 1 }
        }
    }

    /// Player one.
    pub fn player_one(&self) -> (p: &Player)
        ensures
            *p == self.player(0),
    {
        &self.player_one
    }

    /// Player two.
    pub fn player_two(&self) -> (p: &Player)
        ensures
            *p == self.player(1),
    {
        &self.player_two
    }

    /// The player to move: 0 for player one, 1 for player two.
    pub fn active(&self) -> (i: usize)
        ensures
            i == self.active_index(),
    {
        self.active
    }

    /// The deck.
    pub fn deck(&self) -> (d: &Deck)
        ensures
            d@ == self.deck_view(),
    {
        &self.deck
    }
}

/// One turn of `asker` against `opponent`: ask for `guess`, then score books.
fn handle_turn(asker: &mut Player, opponent: &mut Player, deck: &mut Deck, guess: Rank) -> (report: TurnReport)
    requires
        old(asker).well_formed(),
        old(opponent).well_formed(),
        old(deck).well_formed(),
    ensures
        final(asker).well_formed(),
        final(opponent).well_formed(),
        final(deck).well_formed(),
        ({
            let (h, oh, d) = ask_outcome(old(asker).hand_view(), old(opponent).hand_view(), old(deck)@, guess);
            let st = scoring(h, d, old(asker).books_view(), 13);
            &&& final(asker).hand_view() == st.hand
            &&& final(asker).books_view() == st.books
            &&& final(asker).name_view() == old(asker).name_view()
            &&& final(opponent).hand_view() == oh
            &&& final(opponent).books_view() == old(opponent).books_view()
            &&& final(opponent).name_view() == old(opponent).name_view()
            &&& final(deck)@ == st.deck
            &&& report.received == crate::player::of_rank(old(opponent).hand_view(), guess).len()
            &&& report.scored@ == st.scored
        }),
{
    let received = opponent.count_of(guess);
    asker.ask_for(guess, deck, opponent);
    let scored = match asker.score_books(deck) {
        Some(ranks) => ranks,
        None => Vec::new(),
    };
    TurnReport { received, scored }
}

} // verus!
