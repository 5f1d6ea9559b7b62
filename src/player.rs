use vstd::prelude::*;
use crate::card::{Card, Rank, RANK_COUNT, rank_at, rank_index, lemma_rank_index_bijective};
use crate::deck::{Deck, top_cards, after_dealing};

verus! {

broadcast use vstd::seq_lib::group_to_multiset_ensures;

/// Number of cards dealt into a starting hand.
pub const STARTING_HAND: u8 = 9;

/// Number of cards that make a book.
pub const BOOK_SIZE: usize = 4;

/// The cards of `s` whose rank is `r`, in their order in `s`.
pub open spec fn of_rank(s: Seq<Card>, r: Rank) -> Seq<Card>
    decreases s.len(),
{
    if s.len() == 0 {
        s
    } else {
        let rest = of_rank(s.drop_last(), r);
        if s.last().rank == r {
            rest.push(s.last())
        } else {
            rest
        }
    }
}

/// The cards of `s` whose rank is not `r`, in their order in `s`.
pub open spec fn without_rank(s: Seq<Card>, r: Rank) -> Seq<Card>
    decreases s.len(),
{
    if s.len() == 0 {
        s
    } else {
        let rest = without_rank(s.drop_last(), r);
        if s.last().rank != r {
            rest.push(s.last())
        } else {
            rest
        }
    }
}

/// The cards of `s` whose ranks are among the lowest `k`, grouped by rank
/// from the lowest up, each group in its order in `s`.
pub open spec fn ranks_below(s: Seq<Card>, k: int) -> Seq<Card>
    decreases k,
{
    if k <= 0 {
        Seq::empty()
    } else {
        ranks_below(s, k - 1) + of_rank(s, rank_at(k - 1))
    }
}

/// `s` sorted by rank, ascending; cards of equal rank keep their order.
pub open spec fn sort_by_rank(s: Seq<Card>) -> Seq<Card> {
    ranks_below(s, 13)
}

/// Whether the ranks of `s` never decrease.
pub open spec fn sorted_by_rank(s: Seq<Card>) -> bool {
    forall|i: int, j: int| 0 <= i < j < s.len() ==> rank_index(s[i].rank) <= rank_index(s[j].rank)
}

/// Hand and deck after drawing one card: the top card joins the hand, which
/// is sorted again; with an empty deck nothing changes.
pub open spec fn fished(hand: Seq<Card>, deck: Seq<Card>) -> (Seq<Card>, Seq<Card>) {
    if deck.len() == 0 {
        (hand, deck)
    } else {
        (sort_by_rank(hand.push(deck.last())), deck.drop_last())
    }
}

/// Hand and deck after the cards of rank `r` leave the hand; a hand left
/// empty draws one card at once.
pub open spec fn after_take(hand: Seq<Card>, deck: Seq<Card>, r: Rank) -> (Seq<Card>, Seq<Card>) {
    let rest = without_rank(hand, r);
    if rest.len() == 0 {
        fished(rest, deck)
    } else {
        (rest, deck)
    }
}

/// Asker's hand, opponent's hand and deck after the asker asks for rank
/// `r`: the opponent gives up its cards of that rank (as by `after_take`),
/// and they join the asker's hand, which is sorted again; when it has none,
/// the asker draws (as by `fished`).
pub open spec fn ask_outcome(hand: Seq<Card>, opp_hand: Seq<Card>, deck: Seq<Card>, r: Rank) -> (
    Seq<Card>,
    Seq<Card>,
    Seq<Card>,
) {
    let given = of_rank(opp_hand, r);
    let (oh, d) = after_take(opp_hand, deck, r);
    if given.len() > 0 {
        (sort_by_rank(hand + given), oh, d)
    } else {
        let (h2, d2) = fished(hand, d);
        (h2, oh, d2)
    }
}

/// Hand, deck and books while books are scored, and the ranks scored so far.
pub struct ScoreState {
    pub hand: Seq<Card>,
    pub deck: Seq<Card>,
    pub books: Map<Rank, Seq<Card>>,
    pub scored: Seq<Rank>,
}

/// Scoring the lowest `k` ranks in turn: a rank with exactly four cards in
/// hand leaves the hand (as by `after_take`) and becomes a book.
pub open spec fn scoring(
    hand: Seq<Card>,
    deck: Seq<Card>,
    books: Map<Rank, Seq<Card>>,
    k: int,
) -> ScoreState
    decreases k,
{
    if k <= 0 {
        ScoreState { hand, deck, books, scored: Seq::empty() }
    } else {
        let st = scoring(hand, deck, books, k - 1);
        let r = rank_at(k - 1);
        if of_rank(st.hand, r).len() == 4 {
            let (h, d) = after_take(st.hand, st.deck, r);
            ScoreState { hand: h, deck: d, books: st.books.insert(r, of_rank(st.hand, r)), scored: st.scored.push(r) }
        } else {
            st
        }
    }
}

/// Every card of `of_rank(s, r)` has rank `r` and comes from `s`.
pub proof fn lemma_of_rank(s: Seq<Card>, r: Rank)
    ensures
        forall|i: int| 0 <= i < of_rank(s, r).len() ==> (#[trigger] of_rank(s, r)[i]).rank == r,
        of_rank(s, r).len() <= s.len(),
    decreases s.len(),
{
    if s.len() > 0 {
        lemma_of_rank(s.drop_last(), r);
    }
}

/// Every card of `without_rank(s, r)` has another rank and comes from `s`;
/// a sorted `s` leaves it sorted.
pub proof fn lemma_without_rank(s: Seq<Card>, r: Rank)
    ensures
        forall|i: int| 0 <= i < without_rank(s, r).len() ==> (#[trigger] without_rank(s, r)[i]).rank != r,
        forall|i: int| 0 <= i < without_rank(s, r).len() ==> s.contains(#[trigger] without_rank(s, r)[i]),
        without_rank(s, r).len() <= s.len(),
        sorted_by_rank(s) ==> sorted_by_rank(without_rank(s, r)),
    decreases s.len(),
{
    if s.len() > 0 {
        let p = s.drop_last();
        lemma_without_rank(p, r);
        let w = without_rank(s, r);
        let wp = without_rank(p, r);
        assert forall|i: int| 0 <= i < w.len() implies s.contains(#[trigger] w[i]) by {
            if i < wp.len() {
                let j = choose|j: int| 0 <= j < p.len() && p[j] == wp[i];
                assert(s[j] == w[i]);
            } else {
                assert(s[s.len() - 1] == w[i]);
            }
        }
        if sorted_by_rank(s) {
            assert(sorted_by_rank(p));
            assert forall|i: int, j: int| 0 <= i < j < w.len()
                implies rank_index(w[i].rank) <= rank_index(w[j].rank) by {
                if j >= wp.len() {
                    let k = choose|k: int| 0 <= k < p.len() && p[k] == wp[i];
                    assert(s[k] == w[i]);
                }
            }
        }
    }
}

/// `of_rank` and `without_rank` split `s`: together they hold its cards.
pub proof fn lemma_rank_split(s: Seq<Card>, r: Rank)
    ensures
        of_rank(s, r).to_multiset().add(without_rank(s, r).to_multiset()) == s.to_multiset(),
        of_rank(s, r).len() + without_rank(s, r).len() == s.len(),
    decreases s.len(),
{
    if s.len() > 0 {
        lemma_rank_split(s.drop_last(), r);
        assert(s.drop_last().push(s.last()) =~= s);
        assert(of_rank(s, r).to_multiset().add(without_rank(s, r).to_multiset())
            =~= s.to_multiset());
    }
}

proof fn lemma_ranks_below_sorted(s: Seq<Card>, k: int)
    requires
        0 <= k <= 13,
    ensures
        sorted_by_rank(ranks_below(s, k)),
        forall|i: int| 0 <= i < ranks_below(s, k).len()
            ==> rank_index((#[trigger] ranks_below(s, k)[i]).rank) < k,
    decreases k,
{
    lemma_rank_index_bijective();
    if k > 0 {
        lemma_ranks_below_sorted(s, k - 1);
        lemma_of_rank(s, rank_at(k - 1));
        let a = ranks_below(s, k - 1);
        let b = of_rank(s, rank_at(k - 1));
        let c = ranks_below(s, k);
        assert(c == a + b);
        assert forall|i: int| 0 <= i < c.len() implies rank_index((#[trigger] c[i]).rank) < k by {
            if i >= a.len() {
                assert(c[i] == b[i - a.len()]);
            }
        }
        assert forall|i: int, j: int| 0 <= i < j < c.len()
            implies rank_index(c[i].rank) <= rank_index(c[j].rank) by {
            if j >= a.len() {
                assert(c[j] == b[j - a.len()]);
                if i >= a.len() {
                    assert(c[i] == b[i - a.len()]);
                }
            }
        }
    }
}

proof fn lemma_ranks_below_push(s: Seq<Card>, c: Card, k: int)
    requires
        0 <= k <= 13,
    ensures
        ranks_below(s.push(c), k).to_multiset() == if rank_index(c.rank) < k {
            ranks_below(s, k).to_multiset().insert(c)
        } else {
            ranks_below(s, k).to_multiset()
        },
    decreases k,
{
    lemma_rank_index_bijective();
    if k > 0 {
        lemma_ranks_below_push(s, c, k - 1);
        let r = rank_at(k - 1);
        assert(s.push(c).drop_last() =~= s);
        vstd::seq_lib::lemma_multiset_commutative(ranks_below(s.push(c), k - 1), of_rank(s.push(c), r));
        vstd::seq_lib::lemma_multiset_commutative(ranks_below(s, k - 1), of_rank(s, r));
        let lhs = ranks_below(s.push(c), k).to_multiset();
        if rank_index(c.rank) < k {
            assert(lhs =~= ranks_below(s, k).to_multiset().insert(c));
        } else {
            assert(lhs =~= ranks_below(s, k).to_multiset());
        }
    }
}

/// Sorting by rank orders the ranks ascending and keeps every card: the
/// result holds the same cards, as often each, as the input.
pub proof fn lemma_sort_by_rank(s: Seq<Card>)
    ensures
        sorted_by_rank(sort_by_rank(s)),
        sort_by_rank(s).to_multiset() == s.to_multiset(),
        sort_by_rank(s).len() == s.len(),
    decreases s.len(),
{
    lemma_ranks_below_sorted(s, 13);
    if s.len() == 0 {
        assert(ranks_below(s, 13).to_multiset() =~= s.to_multiset()) by {
            lemma_empty_ranks_below(s, 13);
        }
    } else {
        lemma_sort_by_rank(s.drop_last());
        lemma_ranks_below_push(s.drop_last(), s.last(), 13);
        lemma_rank_index_bijective();
        assert(s.drop_last().push(s.last()) =~= s);
    }
    assert(sort_by_rank(s).to_multiset().len() == s.to_multiset().len());
}

proof fn lemma_empty_ranks_below(s: Seq<Card>, k: int)
    requires
        s.len() == 0,
    ensures
        ranks_below(s, k).len() == 0,
    decreases k,
{
    if k > 0 {
        lemma_empty_ranks_below(s, k - 1);
    }
}

/// Whether no card of `s` has rank `r`.
pub open spec fn lacks_rank(s: Seq<Card>, r: Rank) -> bool {
    forall|i: int| 0 <= i < s.len() ==> (#[trigger] s[i]).rank != r
}

/// `of_rank(s, r)` is empty exactly when `s` lacks rank `r`, and then
/// `without_rank(s, r)` is `s` itself.
pub proof fn lemma_lacks_rank(s: Seq<Card>, r: Rank)
    ensures
        of_rank(s, r).len() == 0 <==> lacks_rank(s, r),
        lacks_rank(s, r) ==> without_rank(s, r) == s,
    decreases s.len(),
{
    if s.len() > 0 {
        let p = s.drop_last();
        lemma_lacks_rank(p, r);
        lemma_of_rank(p, r);
        if lacks_rank(s, r) {
            assert forall|i: int| 0 <= i < p.len() implies (#[trigger] p[i]).rank != r by {
                assert(p[i] == s[i]);
            }
            assert(p.push(s.last()) =~= s);
        }
        if of_rank(s, r).len() == 0 {
            assert forall|i: int| 0 <= i < s.len() implies (#[trigger] s[i]).rank != r by {
                if i < p.len() {
                    assert(p[i] == s[i]);
                }
            }
        }
    }
}

/// Removing the cards of one rank leaves the cards of every other rank as
/// they were.
pub proof fn lemma_of_rank_without(s: Seq<Card>, r: Rank, other: Rank)
    requires
        r != other,
    ensures
        of_rank(without_rank(s, other), r) == of_rank(s, r),
    decreases s.len(),
{
    if s.len() > 0 {
        lemma_of_rank_without(s.drop_last(), r, other);
        let w = without_rank(s, other);
        if s.last().rank != other {
            assert(w.drop_last() =~= without_rank(s.drop_last(), other));
        }
    }
}

/// A single card sorted is itself.
pub proof fn lemma_sort_single(c: Card)
    ensures
        sort_by_rank(seq![c]) == seq![c],
{
    let s = seq![c];
    lemma_sort_by_rank(s);
    let t = sort_by_rank(s);
    assert(s.to_multiset() =~= vstd::multiset::Multiset::empty().insert(c)) by {
        assert(Seq::<Card>::empty().push(c) =~= s);
    }
    assert(t.to_multiset().count(t[0]) > 0);
    assert(t =~= s);
}

/// Scoring the books of a hand that holds four cards of rank `r`, from a
/// deck without that rank: the four cards become the book of `r`, `r` is
/// among the ranks scored, and no card of rank `r` is left in hand.
pub proof fn lemma_scoring_books_full_rank(
    hand: Seq<Card>,
    deck: Seq<Card>,
    books: Map<Rank, Seq<Card>>,
    r: Rank,
)
    requires
        of_rank(hand, r).len() == 4,
        lacks_rank(deck, r),
    ensures
        scoring(hand, deck, books, 13).books.contains_key(r),
        scoring(hand, deck, books, 13).books[r] == of_rank(hand, r),
        scoring(hand, deck, books, 13).scored.contains(r),
        of_rank(scoring(hand, deck, books, 13).hand, r).len() == 0,
{
    lemma_scoring_prefix(hand, deck, books, r, 13);
}

proof fn lemma_scoring_prefix(
    hand: Seq<Card>,
    deck: Seq<Card>,
    books: Map<Rank, Seq<Card>>,
    r: Rank,
    k: int,
)
    requires
        of_rank(hand, r).len() == 4,
        lacks_rank(deck, r),
        0 <= k <= 13,
    ensures
        lacks_rank(scoring(hand, deck, books, k).deck, r),
        k <= rank_index(r) ==> of_rank(scoring(hand, deck, books, k).hand, r) == of_rank(hand, r),
        k > rank_index(r) ==> {
            let st = scoring(hand, deck, books, k);
            &&& st.books.contains_key(r)
            &&& st.books[r] == of_rank(hand, r)
            &&& st.scored.contains(r)
            &&& of_rank(st.hand, r).len() == 0
        },
    decreases k,
{
    lemma_rank_index_bijective();
    if k > 0 {
        lemma_scoring_prefix(hand, deck, books, r, k - 1);
        let st = scoring(hand, deck, books, k - 1);
        let q = rank_at(k - 1);
        if of_rank(st.hand, q).len() == 4 {
            let rest = without_rank(st.hand, q);
            lemma_without_rank(st.hand, q);
            lemma_rank_split(st.hand, q);
            if rest.len() == 0 && st.deck.len() > 0 {
                let c = st.deck.last();
                assert(c == st.deck[st.deck.len() - 1]);
                assert(rest.push(c) =~= seq![c]);
                lemma_sort_single(c);
                lemma_lacks_rank(seq![c], r);
            }
            let d2 = after_take(st.hand, st.deck, q).1;
            assert forall|i: int| 0 <= i < d2.len() implies (#[trigger] d2[i]).rank != r by {
                assert(d2[i] == st.deck[i]);
            }
            if q == r {
                lemma_lacks_rank(rest, r);
                let new = scoring(hand, deck, books, k);
                assert(new.scored[new.scored.len() - 1] == r);
                if rest.len() == 0 && st.deck.len() == 0 {
                    lemma_lacks_rank(rest, r);
                }
            } else {
                lemma_of_rank_without(st.hand, r, q);
                if k - 1 < rank_index(r) {
                    // the hand still holds the four cards of `r`, so it is not emptied
                    assert(rest.len() > 0) by {
                        lemma_of_rank(rest, r);
                    }
                } else {
                    let new = scoring(hand, deck, books, k);
                    let i = choose|i: int| 0 <= i < st.scored.len() && st.scored[i] == r;
                    assert(new.scored[i] == r);
                    if rest.len() > 0 {
                        lemma_lacks_rank(st.hand, r);
                        lemma_lacks_rank(rest, r);
                        assert forall|i: int| 0 <= i < rest.len() implies (#[trigger] rest[i]).rank != r by {
                            assert(st.hand.contains(rest[i]));
                        }
                    }
                }
            }
        }
    }
}

/// Drawing moves a card from the deck into the hand: hand and deck together
/// hold the same cards before and after.
pub proof fn lemma_fished_keeps_cards(hand: Seq<Card>, deck: Seq<Card>)
    ensures
        fished(hand, deck).0.to_multiset().add(fished(hand, deck).1.to_multiset())
            == hand.to_multiset().add(deck.to_multiset()),
{
    if deck.len() > 0 {
        let c = deck.last();
        lemma_sort_by_rank(hand.push(c));
        assert(deck.drop_last().push(c) =~= deck);
        assert(fished(hand, deck).0.to_multiset().add(fished(hand, deck).1.to_multiset())
            =~= hand.to_multiset().add(deck.to_multiset()));
    }
}

/// Giving away a rank moves cards out of the hand, and perhaps one card from
/// the deck into it: the cards given, the new hand and the new deck together
/// hold the cards of the old hand and deck.
pub proof fn lemma_take_keeps_cards(hand: Seq<Card>, deck: Seq<Card>, r: Rank)
    ensures
        of_rank(hand, r).to_multiset().add(after_take(hand, deck, r).0.to_multiset()).add(
            after_take(hand, deck, r).1.to_multiset(),
        ) == hand.to_multiset().add(deck.to_multiset()),
{
    broadcast use vstd::multiset::group_multiset_axioms;
    lemma_rank_split(hand, r);
    let rest = without_rank(hand, r);
    lemma_fished_keeps_cards(rest, deck);
    let m = of_rank(hand, r).to_multiset();
    let a = after_take(hand, deck, r).0.to_multiset();
    let b = after_take(hand, deck, r).1.to_multiset();
    if rest.len() == 0 {
        assert(a.add(b) == rest.to_multiset().add(deck.to_multiset()));
    } else {
        assert(a == rest.to_multiset());
        assert(b == deck.to_multiset());
    }
    let w = rest.to_multiset();
    let hd = hand.to_multiset().add(deck.to_multiset());
    assert forall|x: Card| #[trigger] m.add(a).add(b).count(x) == hd.count(x) by {
        assert(m.add(w).count(x) == hand.to_multiset().count(x));
        if rest.len() == 0 {
            assert(a.add(b).count(x) == w.add(deck.to_multiset()).count(x));
        }
    }
    assert(m.add(a).add(b) =~= hd);
}

/// Asking moves cards between the two hands and the deck and never makes or
/// loses one: the three together hold the same cards before and after.
pub proof fn lemma_ask_keeps_cards(hand: Seq<Card>, opp_hand: Seq<Card>, deck: Seq<Card>, r: Rank)
    ensures
        ({
            let (h, oh, d) = ask_outcome(hand, opp_hand, deck, r);
            h.to_multiset().add(oh.to_multiset()).add(d.to_multiset())
                == hand.to_multiset().add(opp_hand.to_multiset()).add(deck.to_multiset())
        }),
{
    broadcast use vstd::multiset::group_multiset_axioms;
    let given = of_rank(opp_hand, r);
    let oh = after_take(opp_hand, deck, r).0;
    let d = after_take(opp_hand, deck, r).1;
    lemma_take_keeps_cards(opp_hand, deck, r);
    assert(given.to_multiset().add(oh.to_multiset()).add(d.to_multiset())
        == opp_hand.to_multiset().add(deck.to_multiset()));
    let out = ask_outcome(hand, opp_hand, deck, r);
    assert(out.1 == oh);
    if given.len() > 0 {
        lemma_sort_by_rank(hand + given);
        vstd::seq_lib::lemma_multiset_commutative(hand, given);
        assert(out.0.to_multiset() == hand.to_multiset().add(given.to_multiset()));
        assert(out.2 == d);
    } else {
        lemma_fished_keeps_cards(hand, d);
        assert(given.to_multiset() =~= vstd::multiset::Multiset::empty());
        assert(out.0 == fished(hand, d).0);
        assert(out.2 == fished(hand, d).1);
    }
    let lhs = out.0.to_multiset().add(out.1.to_multiset()).add(out.2.to_multiset());
    let rhs = hand.to_multiset().add(opp_hand.to_multiset()).add(deck.to_multiset());
    assert forall|x: Card| #[trigger] lhs.count(x) == rhs.count(x) by {
        assert(given.to_multiset().add(oh.to_multiset()).add(d.to_multiset()).count(x)
            == opp_hand.to_multiset().add(deck.to_multiset()).count(x));
        if given.len() > 0 {
            assert(out.0.to_multiset().count(x) == hand.to_multiset().add(given.to_multiset()).count(x));
        } else {
            assert(fished(hand, d).0.to_multiset().add(fished(hand, d).1.to_multiset()).count(x)
                == hand.to_multiset().add(d.to_multiset()).count(x));
        }
    }
    assert(lhs =~= rhs);
}

/// Dealing a whole full deck card by card hands out each of the 52 cards
/// once and leaves the deck empty.
pub proof fn lemma_deal_whole_deck()
    ensures
        top_cards(crate::deck::full_deck(), 52).len() == 52,
        top_cards(crate::deck::full_deck(), 52).no_duplicates(),
        forall|c: Card| #[trigger] top_cards(crate::deck::full_deck(), 52).contains(c),
        after_dealing(crate::deck::full_deck(), 52).len() == 0,
{
    crate::deck::lemma_full_deck_complete();
    let d = crate::deck::full_deck();
    let t = top_cards(d, 52);
    assert forall|i: int, j: int| 0 <= i < t.len() && 0 <= j < t.len() && i != j
        implies t[i] != t[j] by {
        assert(t[i] == d[51 - i]);
        assert(t[j] == d[51 - j]);
    }
    assert forall|c: Card| #[trigger] t.contains(c) by {
        assert(d.contains(c));
        let i = choose|i: int| 0 <= i < d.len() && d[i] == c;
        assert(t[51 - i] == c);
    }
}

/// The cards of `cards` sorted by rank, ascending; equal ranks keep their order.
fn sorted_by_rank_vec(cards: &Vec<Card>) -> (r: Vec<Card>)
    ensures
        r@ == sort_by_rank(cards@),
{
    let ghost h = cards@;
    let n = cards.len();
    let mut sorted: Vec<Card> = Vec::with_capacity(n);
    let mut k: usize = 0;
    while k < RANK_COUNT
        invariant
            k <= RANK_COUNT,
            n == h.len(),
            h == cards@,
            sorted@ == ranks_below(h, k as int),
        decreases RANK_COUNT - k,
    {
        let r = Rank::from_index(k);
        let mut i: usize = 0;
        let ghost before = sorted@;
        while i < n
            invariant
                i <= n,
                n == h.len(),
                h == cards@,
                r == rank_at(k as int),
                before == ranks_below(h, k as int),
                sorted@ == before + of_rank(h.subrange(0, i as int), r),
            decreases n - i,
        {
            let c = cards[i];
            assert(h.subrange(0, i + 1).drop_last() =~= h.subrange(0, i as int));
            if c.rank == r {
                sorted.push(c);
            }
            i = i + 1;
            assert(sorted@ =~= before + of_rank(h.subrange(0, i as int), r));
        }
        assert(h.subrange(0, n as int) =~= h);
        k = k + 1;
    }
    sorted
}

/// Splits `cards` into those of rank `r` and the rest, each in order.
fn split_by_rank(cards: &Vec<Card>, r: Rank) -> (res: (Vec<Card>, Vec<Card>))
    ensures
        res.0@ == of_rank(cards@, r),
        res.1@ == without_rank(cards@, r),
{
    let ghost h = cards@;
    let mut matches: Vec<Card> = Vec::new();
    let mut rest: Vec<Card> = Vec::new();
    let mut i: usize = 0;
    while i < cards.len()
        invariant
            i <= h.len(),
            h == cards@,
            matches@ == of_rank(h.subrange(0, i as int), r),
            rest@ == without_rank(h.subrange(0, i as int), r),
        decreases h.len() - i,
    {
        let c = cards[i];
        assert(h.subrange(0, i + 1).drop_last() =~= h.subrange(0, i as int));
        if c.rank == r {
            matches.push(c);
        } else {
            rest.push(c);
        }
        i = i + 1;
    }
    assert(h.subrange(0, h.len() as int) =~= h);
    (matches, rest)
}

/// How many cards of `cards` have rank `r`.
fn count_rank(cards: &Vec<Card>, r: Rank) -> (n: usize)
    ensures
        n == of_rank(cards@, r).len(),
{
    let ghost h = cards@;
    let mut n: usize = 0;
    let mut i: usize = 0;
    while i < cards.len()
        invariant
            i <= h.len(),
            h == cards@,
            n == of_rank(h.subrange(0, i as int), r).len(),
            n <= i,
        decreases h.len() - i,
    {
        assert(h.subrange(0, i + 1).drop_last() =~= h.subrange(0, i as int));
        if cards[i].rank == r {
            n = n + 1;
        }
        i = i + 1;
    }
    assert(h.subrange(0, h.len() as int) =~= h);
    n
}


/// Whether `cards` is a complete book of rank `r`: four cards of that rank.
pub open spec fn is_book_of(cards: Seq<Card>, r: Rank) -> bool {
    &&& cards.len() == 4
    &&& forall|i: int| 0 <= i < cards.len() ==> (#[trigger] cards[i]).rank == r
}

/// How many of the lowest `k` ranks have a book in `books`.
pub open spec fn booked_among(books: Map<Rank, Seq<Card>>, k: int) -> nat
    decreases k,
{
    if k <= 0 {
        0
    } else {
        booked_among(books, k - 1) + if books.contains_key(rank_at(k - 1)) {
            1nat
        } else {
            0nat
        }
    }
}

/// A player of Go Fish: a name, a hand kept sorted by rank, and the books
/// completed so far.
pub struct Player {
    name: String,
    books: Vec<Option<Vec<Card>>>,
    hand: Vec<Card>,
}

impl Player {
    /// The player's name.
    pub closed spec fn name_view(&self) -> Seq<char> {
        self.name@
    }

    /// The cards in hand, in order.
    pub closed spec fn hand_view(&self) -> Seq<Card> {
        self.hand@
    }

    /// The completed books: each booked rank maps to its cards.
    pub closed spec fn books_view(&self) -> Map<Rank, Seq<Card>> {
        Map::new(
            |r: Rank| self.books@[rank_index(r) as int] is Some,
            |r: Rank| self.books@[rank_index(r) as int].unwrap()@,
        )
    }

    /// The book table has a slot for each rank, the hand is sorted by rank,
    /// and each book holds four cards of its rank.
    pub closed spec fn well_formed(&self) -> bool {
        &&& self.books@.len() == 13
        &&& sorted_by_rank(self.hand@)
        &&& forall|k: int| 0 <= k < 13 && #[trigger] self.books@[k] is Some
            ==> is_book_of(self.books@[k].unwrap()@, rank_at(k))
    }

    /// What a well-formed player guarantees: a hand sorted by rank, and books
    /// of four cards of their own rank.
    pub proof fn lemma_well_formed(&self)
        requires
            self.well_formed(),
        ensures
            sorted_by_rank(self.hand_view()),
            forall|r: Rank| #[trigger] self.books_view().contains_key(r)
                ==> is_book_of(self.books_view()[r], r),
    {
        lemma_rank_index_bijective();
        assert forall|r: Rank| #[trigger] self.books_view().contains_key(r)
            implies is_book_of(self.books_view()[r], r) by {
            assert(self.books@[rank_index(r) as int] is Some);
        }
    }

    /// A player with an empty hand and no books.
    pub fn new(name: String) -> (p: Player)
        ensures
            p.well_formed(),
            p.name_view() == name@,
            p.hand_view().len() == 0,
            p.books_view() == Map::<Rank, Seq<Card>>::empty(),
    {
        let mut books: Vec<Option<Vec<Card>>> = Vec::new();
        let mut i: usize = 0;
        while i < RANK_COUNT
            invariant
                i <= RANK_COUNT,
                books@.len() == i,
                forall|j: int| 0 <= j < i ==> #[trigger] books@[j] is None,
            decreases RANK_COUNT - i,
        {
            books.push(None);
            i = i + 1;
        }
        let p = Player { name, books, hand: Vec::new() };
        assert(p.books_view() =~= Map::<Rank, Seq<Card>>::empty()) by {
            lemma_rank_index_bijective();
        }
        p
    }

    /// A player with no books holding `hand`, sorted by rank.
    pub fn with_hand(name: String, hand: Vec<Card>) -> (p: Player)
        ensures
            p.well_formed(),
            p.name_view() == name@,
            p.hand_view() == sort_by_rank(hand@),
            p.books_view() == Map::<Rank, Seq<Card>>::empty(),
    {
        let mut p = Player::new(name);
        p.hand = sorted_by_rank_vec(&hand);
        proof {
            lemma_sort_by_rank(hand@);
        }
        p
    }

    /// The player's name.
    pub fn name(&self) -> (r: &String)
        ensures
            r@ == self.name_view(),
    {
        &self.name
    }

    /// The cards in hand.
    pub fn hand(&self) -> (r: &Vec<Card>)
        ensures
            r@ == self.hand_view(),
    {
        &self.hand
    }

    /// How many cards of rank `rank` are in hand.
    pub fn count_of(&self, rank: Rank) -> (n: usize)
        ensures
            n == of_rank(self.hand_view(), rank).len(),
    {
        count_rank(&self.hand, rank)
    }

    /// The book of rank `rank`, if the player has completed it.
    pub fn book(&self, rank: Rank) -> (r: Option<&Vec<Card>>)
        requires
            self.well_formed(),
        ensures
            r is None <==> !self.books_view().contains_key(rank),
            r matches Some(v) ==> v@ == self.books_view()[rank],
    {
        match &self.books[rank.index()] {
            Some(v) => Some(v),
            None => None,
        }
    }

    /// Whether the player has completed the book of rank `rank`.
    pub fn has_book(&self, rank: Rank) -> (r: bool)
        requires
            self.well_formed(),
        ensures
            r == self.books_view().contains_key(rank),
    {
        self.books[rank.index()].is_some()
    }

    /// How many books the player has completed.
    pub fn book_count(&self) -> (n: usize)
        requires
            self.well_formed(),
        ensures
            n == booked_among(self.books_view(), 13),
    {
        let mut n: usize = 0;
        let mut k: usize = 0;
        while k < RANK_COUNT
            invariant
                k <= RANK_COUNT,
                self.well_formed(),
                n == booked_among(self.books_view(), k as int),
                n <= k,
            decreases RANK_COUNT - k,
        {
            proof {
                lemma_rank_index_bijective();
            }
            if self.books[k].is_some() {
                assert(self.books_view().contains_key(rank_at(k as int)));
                n = n + 1;
            } else {
                assert(!self.books_view().contains_key(rank_at(k as int)));
            }
            k = k + 1;
        }
        n
    }

    /// The ranks of the completed books, lowest first.
    pub fn booked_ranks(&self) -> (r: Vec<Rank>)
        requires
            self.well_formed(),
        ensures
            forall|i: int, j: int| 0 <= i < j < r@.len()
                ==> rank_index(r@[i]) < rank_index(r@[j]),
            forall|x: Rank| r@.contains(x) <==> self.books_view().contains_key(x),
    {
        let mut out: Vec<Rank> = Vec::new();
        let mut k: usize = 0;
        while k < RANK_COUNT
            invariant
                k <= RANK_COUNT,
                self.well_formed(),
                forall|i: int, j: int| 0 <= i < j < out@.len()
                    ==> rank_index(out@[i]) < rank_index(out@[j]),
                forall|i: int| 0 <= i < out@.len() ==> rank_index(#[trigger] out@[i]) < k,
                forall|x: Rank| rank_index(x) < k ==> (out@.contains(x)
                    <==> self.books_view().contains_key(x)),
                forall|x: Rank| rank_index(x) >= k ==> !#[trigger] out@.contains(x),
            decreases RANK_COUNT - k,
        {
            proof {
                lemma_rank_index_bijective();
            }
            let r = Rank::from_index(k);
            let ghost prev = out@;
            if self.books[k].is_some() {
                out.push(r);
                assert forall|x: Rank| #[trigger] out@.contains(x) <==> (prev.contains(x) || x == r) by {
                    if out@.contains(x) {
                        let i = choose|i: int| 0 <= i < out@.len() && out@[i] == x;
                        if i < prev.len() {
                            assert(prev[i] == x);
                        }
                    }
                    if prev.contains(x) {
                        let i = choose|i: int| 0 <= i < prev.len() && prev[i] == x;
                        assert(out@[i] == x);
                    }
                    if x == r {
                        assert(out@[prev.len() as int] == x);
                    }
                }
            }
            k = k + 1;
        }
        proof {
            lemma_rank_index_bijective();
        }
        out
    }

    fn sort_hand(&mut self)
        ensures
            final(self).hand_view() == sort_by_rank(old(self).hand_view()),
            sorted_by_rank(final(self).hand_view()),
            final(self).hand_view().len() == old(self).hand_view().len(),
            final(self).name_view() == old(self).name_view(),
            final(self).books == old(self).books,
    {
        self.hand = sorted_by_rank_vec(&self.hand);
        proof {
            lemma_sort_by_rank(old(self).hand@);
        }
    }

    /// Deals up to nine cards from `deck` into the hand, which is then sorted
    /// by rank; a short deck gives what it has.
    pub fn draw_starting_hand(&mut self, deck: &mut Deck)
        requires
            old(self).well_formed(),
        ensures
            ({
                let k = if old(deck)@.len() < 9 { old(deck)@.len() as int } else { 9 };
                &&& final(self).hand_view() == sort_by_rank(old(self).hand_view() + top_cards(old(deck)@, k))
                &&& final(deck)@ == after_dealing(old(deck)@, k)
                &&& final(self).hand_view().len() == old(self).hand_view().len() + k
            }),
            sorted_by_rank(final(self).hand_view()),
            final(self).well_formed(),
            final(self).name_view() == old(self).name_view(),
            final(self).books_view() == old(self).books_view(),
            old(deck).well_formed() ==> final(deck).well_formed(),
    {
        let dealt_cards = deck.multi_deal(STARTING_HAND);
        match dealt_cards {
            Some(cards) => {
                let mut cards = cards;
                self.hand.append(&mut cards);
            },
            None => {
                assert(self.hand@ =~= self.hand@ + top_cards(old(deck)@, 0));
            },
        }
        let ghost joined = self.hand@;
        self.sort_hand();
        proof {
            lemma_sort_by_rank(joined);
        }
    }

    /// Draws the top card of `deck` into the hand and sorts the hand again;
    /// with an empty deck nothing happens.
    pub fn go_fish(&mut self, deck: &mut Deck)
        requires
            old(self).well_formed(),
        ensures
            (final(self).hand_view(), final(deck)@) == fished(old(self).hand_view(), old(deck)@),
            final(self).well_formed(),
            final(self).name_view() == old(self).name_view(),
            final(self).books_view() == old(self).books_view(),
            old(deck).well_formed() ==> final(deck).well_formed(),
    {
        match deck.deal() {
            Some(new_card) => {
                self.hand.push(new_card);
                self.sort_hand();
            },
            None => {},
        }
    }

    /// Gives away every card of rank `rank`: returns them in hand order, or
    /// `None` when the hand has none. A hand left empty draws one card from
    /// `deck` at once.
    pub fn take(&mut self, rank: Rank, deck: &mut Deck) -> (r: Option<Vec<Card>>)
        requires
            old(self).well_formed(),
        ensures
            r is None <==> of_rank(old(self).hand_view(), rank).len() == 0,
            r matches Some(v) ==> v@ == of_rank(old(self).hand_view(), rank),
            (final(self).hand_view(), final(deck)@) == after_take(old(self).hand_view(), old(deck)@, rank),
            of_rank(old(self).hand_view(), rank).len() == 0 && old(self).hand_view().len() > 0
                ==> final(self).hand_view() == old(self).hand_view() && final(deck)@ == old(deck)@,
            without_rank(old(self).hand_view(), rank).len() == 0 && old(deck)@.len() > 0
                ==> final(self).hand_view() == seq![old(deck)@.last()]
                && final(deck)@ == old(deck)@.drop_last(),
            final(self).well_formed(),
            final(self).name_view() == old(self).name_view(),
            final(self).books_view() == old(self).books_view(),
            old(deck).well_formed() ==> final(deck).well_formed(),
    {
        let (matches, new_hand) = split_by_rank(&self.hand, rank);
        proof {
            lemma_lacks_rank(self.hand@, rank);
            lemma_without_rank(self.hand@, rank);
        }
        self.hand = new_hand;
        if self.hand.len() == 0 {
            if deck.len() > 0 {
                proof {
                    assert(self.hand@.push(deck@.last()) =~= seq![deck@.last()]);
                    lemma_sort_single(deck@.last());
                }
            }
            self.go_fish(deck);
        }
        if matches.len() == 0 {
            None
        } else {
            Some(matches)
        }
    }

    /// Asks `opponent` for rank `rank`. The cards it gives join the hand,
    /// which is sorted again; when it has none, the player draws from `deck`.
    pub fn ask_for(&mut self, rank: Rank, deck: &mut Deck, opponent: &mut Player)
        requires
            old(self).well_formed(),
            old(opponent).well_formed(),
        ensures
            (final(self).hand_view(), final(opponent).hand_view(), final(deck)@) == ask_outcome(
                old(self).hand_view(),
                old(opponent).hand_view(),
                old(deck)@,
                rank,
            ),
            final(self).well_formed(),
            final(opponent).well_formed(),
            final(self).name_view() == old(self).name_view(),
            final(self).books_view() == old(self).books_view(),
            final(opponent).name_view() == old(opponent).name_view(),
            final(opponent).books_view() == old(opponent).books_view(),
            old(deck).well_formed() ==> final(deck).well_formed(),
    {
        match opponent.take(rank, deck) {
            Some(cards) => {
                let mut cards = cards;
                self.hand.append(&mut cards);
                self.sort_hand();
            },
            None => {
                self.go_fish(deck);
            },
        }
    }

    /// Moves each rank held four times from the hand into the books, lowest
    /// rank first, and returns the ranks booked, or `None` when there were none.
    pub fn score_books(&mut self, deck: &mut Deck) -> (r: Option<Vec<Rank>>)
        requires
            old(self).well_formed(),
        ensures
            ({
                let st = scoring(old(self).hand_view(), old(deck)@, old(self).books_view(), 13);
                &&& final(self).hand_view() == st.hand
                &&& final(deck)@ == st.deck
                &&& final(self).books_view() == st.books
                &&& (r is None <==> st.scored.len() == 0)
                &&& (r matches Some(v) ==> v@ == st.scored)
            }),
            final(self).well_formed(),
            final(self).name_view() == old(self).name_view(),
            old(deck).well_formed() ==> final(deck).well_formed(),
    {
        let ghost h0 = self.hand_view();
        let ghost d0 = deck@;
        let ghost b0 = self.books_view();
        let mut scored_books: Vec<Rank> = Vec::new();
        let mut k: usize = 0;
        while k < RANK_COUNT
            invariant
                k <= RANK_COUNT,
                self.well_formed(),
                self.name_view() == old(self).name_view(),
                self.hand_view() == scoring(h0, d0, b0, k as int).hand,
                deck@ == scoring(h0, d0, b0, k as int).deck,
                self.books_view() == scoring(h0, d0, b0, k as int).books,
                scored_books@ == scoring(h0, d0, b0, k as int).scored,
                old(deck).well_formed() ==> deck.well_formed(),
            decreases RANK_COUNT - k,
        {
            let rank = Rank::from_index(k);
            if self.count_of(rank) == BOOK_SIZE {
                let ghost before = self.books_view();
                proof {
                    lemma_of_rank(self.hand@, rank);
                }
                let book = self.take(rank, deck);
                match book {
                    Some(cards) => {
                        self.books.set(k, Some(cards));
                        proof {
                            lemma_rank_index_bijective();
                        }
                        assert(self.books_view() =~= before.insert(rank, cards@));
                        assert(is_book_of(cards@, rank_at(k as int)));
                    },
                    None => {},
                }
                scored_books.push(rank);
            }
            k = k + 1;
        }
        if scored_books.len() == 0 {
            None
        } else {
            Some(scored_books)
        }
    }
}

} // verus!
