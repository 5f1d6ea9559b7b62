use vstd::prelude::*;
use vstd::string::*;
use vstd::std_specs::cmp::PartialEqSpec;

verus! {

/// The thirteen ranks, in increasing order.
#[derive(Clone, Copy, Debug, PartialEq, Eq, Structural, Hash, PartialOrd, Ord)]
pub enum Rank {
    Two,
    Three,
    Four,
    Five,
    Six,
    Seven,
    Eight,
    Nine,
    Ten,
    Jack,
    Queen,
    King,
    Ace,
}

/// The four suits; they carry no order.
#[derive(Clone, Copy, Debug, PartialEq, Eq, Structural)]
pub enum Suit {
    Diamonds,
    Clubs,
    Hearts,
    Spades,
}

/// Number of ranks.
pub const RANK_COUNT: usize = 13;

/// Number of suits.
pub const SUIT_COUNT: usize = 4;

/// Position of a rank in the order Two < Three < ... < Ace.
pub open spec fn rank_index(r: Rank) -> nat {
    match r {
        Rank::Two => 0,
        Rank::Three => 1,
        Rank::Four => 2,
        Rank::Five => 3,
        Rank::Six => 4,
        Rank::Seven => 5,
        Rank::Eight => 6,
        Rank::Nine => 7,
        Rank::Ten => 8,
        Rank::Jack => 9,
        Rank::Queen => 10,
        Rank::King => 11,
        Rank::Ace => 12,
    }
}

/// The rank at a position of the rank order (positions 0 to 12).
pub open spec fn rank_at(i: int) -> Rank {
    if i <= 0 {
        Rank::Two
    } else if i == 1 {
        Rank::Three
    } else if i == 2 {
        Rank::Four
    } else if i == 3 {
        Rank::Five
    } else if i == 4 {
        Rank::Six
    } else if i == 5 {
        Rank::Seven
    } else if i == 6 {
        Rank::Eight
    } else if i == 7 {
        Rank::Nine
    } else if i == 8 {
        Rank::Ten
    } else if i == 9 {
        Rank::Jack
    } else if i == 10 {
        Rank::Queen
    } else if i == 11 {
        Rank::King
    } else {
        Rank::Ace
    }
}

/// Position of a suit in the order in which a full deck is built.
pub open spec fn suit_index(s: Suit) -> nat {
    match s {
        Suit::Diamonds => 0,
        Suit::Clubs => 1,
        Suit::Hearts => 2,
        Suit::Spades => 3,
    }
}

/// The suit at a position of the construction order (positions 0 to 3).
pub open spec fn suit_at(i: int) -> Suit {
    if i <= 0 {
        Suit::Diamonds
    } else if i == 1 {
        Suit::Clubs
    } else if i == 2 {
        Suit::Hearts
    } else {
        Suit::Spades
    }
}

/// The set of every rank.
pub open spec fn every_rank() -> Set<Rank> {
    Set::new(|r: Rank| true)
}

/// `rank_at` undoes `rank_index`, and the other way round.
pub proof fn lemma_rank_index_bijective()
    ensures
        forall|r: Rank| #[trigger] rank_at(rank_index(r) as int) == r,
        forall|i: int| 0 <= i < 13 ==> rank_index(#[trigger] rank_at(i)) == i,
        forall|r: Rank| #[trigger] rank_index(r) < 13,
{
}

/// `suit_at` undoes `suit_index`, and the other way round.
pub proof fn lemma_suit_index_bijective()
    ensures
        forall|s: Suit| #[trigger] suit_at(suit_index(s) as int) == s,
        forall|i: int| 0 <= i < 4 ==> suit_index(#[trigger] suit_at(i)) == i,
        forall|s: Suit| #[trigger] suit_index(s) < 4,
{
}

impl Rank {
    /// Position of this rank in the rank order.
    pub fn index(self) -> (r: usize)
        ensures
            r == rank_index(self),
    {
        match self {
            Rank::Two => 0,
            Rank::Three => 1,
            Rank::Four => 2,
            Rank::Five => 3,
            Rank::Six => 4,
            Rank::Seven => 5,
            Rank::Eight => 6,
            Rank::Nine => 7,
            Rank::Ten => 8,
            Rank::Jack => 9,
            Rank::Queen => 10,
            Rank::King => 11,
            Rank::Ace => 12,
        }
    }

    /// The rank at position `i` of the rank order.
    pub fn from_index(i: usize) -> (r: Rank)
        requires
            i < RANK_COUNT,
        ensures
            r == rank_at(i as int),
            rank_index(r) == i,
    {
        if i == 0 {
            Rank::Two
        } else if i == 1 {
            Rank::Three
        } else if i == 2 {
            Rank::Four
        } else if i == 3 {
            Rank::Five
        } else if i == 4 {
            Rank::Six
        } else if i == 5 {
            Rank::Seven
        } else if i == 6 {
            Rank::Eight
        } else if i == 7 {
            Rank::Nine
        } else if i == 8 {
            Rank::Ten
        } else if i == 9 {
            Rank::Jack
        } else if i == 10 {
            Rank::Queen
        } else if i == 11 {
            Rank::King
        } else {
            Rank::Ace
        }
    }

    /// Every rank once, from Two up to Ace.
    pub fn all_ranks() -> (r: Vec<Rank>)
        ensures
            r@.len() == RANK_COUNT,
            forall|i: int| 0 <= i < r@.len() ==> #[trigger] r@[i] == rank_at(i),
            r@.to_set() == every_rank(),
            r@.no_duplicates(),
    {
        let mut result: Vec<Rank> = Vec::with_capacity(RANK_COUNT);
        let mut i: usize = 0;
        while i < RANK_COUNT
            invariant
                i <= RANK_COUNT,
                result@.len() == i,
                forall|j: int| 0 <= j < i ==> #[trigger] result@[j] == rank_at(j),
            decreases RANK_COUNT - i,
        {
            result.push(Rank::from_index(i));
            i = i + 1;
        }
        proof {
            lemma_rank_index_bijective();
            assert forall|r: Rank| #[trigger] result@.to_set().contains(r) by {
                assert(result@[rank_index(r) as int] == r);
            }
            assert(result@.to_set() =~= every_rank());
            assert forall|a: int, b: int|
                0 <= a < result@.len() && 0 <= b < result@.len() && a != b
                implies result@[a] != result@[b] by {
                assert(rank_index(result@[a]) == a);
                assert(rank_index(result@[b]) == b);
            }
        }
        result
    }
}

/// The rank that a guess token names: `2` to `10`, `J`, `Q`, `K` or `A`.
pub open spec fn rank_of_token(t: Seq<char>) -> Option<Rank> {
    if t == seq!['2'] {
        Some(Rank::Two)
    } else if t == seq!['3'] {
        Some(Rank::Three)
    } else if t == seq!['4'] {
        Some(Rank::Four)
    } else if t == seq!['5'] {
        Some(Rank::Five)
    } else if t == seq!['6'] {
        Some(Rank::Six)
    } else if t == seq!['7'] {
        Some(Rank::Seven)
    } else if t == seq!['8'] {
        Some(Rank::Eight)
    } else if t == seq!['9'] {
        Some(Rank::Nine)
    } else if t == seq!['1', '0'] {
        Some(Rank::Ten)
    } else if t == seq!['J'] {
        Some(Rank::Jack)
    } else if t == seq!['Q'] {
        Some(Rank::Queen)
    } else if t == seq!['K'] {
        Some(Rank::King)
    } else if t == seq!['A'] {
        Some(Rank::Ace)
    } else {
        None
    }
}

/// Reads a guess: the rank that `token` names, or `None` for any other text.
pub fn parse_rank(token: &str) -> (r: Option<Rank>)
    ensures
        r == rank_of_token(token@),
{
    let n = token.unicode_len();
    if n == 1 {
        let c = token.get_char(0);
        assert(token@ =~= seq![c]);
        if c == '2' {
            Some(Rank::Two)
        } else if c == '3' {
            Some(Rank::Three)
        } else if c == '4' {
            Some(Rank::Four)
        } else if c == '5' {
            Some(Rank::Five)
        } else if c == '6' {
            Some(Rank::Six)
        } else if c == '7' {
            Some(Rank::Seven)
        } else if c == '8' {
            Some(Rank::Eight)
        } else if c == '9' {
            Some(Rank::Nine)
        } else if c == 'J' {
            Some(Rank::Jack)
        } else if c == 'Q' {
            Some(Rank::Queen)
        } else if c == 'K' {
            Some(Rank::King)
        } else if c == 'A' {
            Some(Rank::Ace)
        } else {
            None
        }
    } else if n == 2 {
        let c0 = token.get_char(0);
        let c1 = token.get_char(1);
        assert(token@ =~= seq![c0, c1]);
        if c0 == '1' && c1 == '0' {
            Some(Rank::Ten)
        } else {
            None
        }
    } else {
        assert(token@.len() != 1 && token@.len() != 2);
        None
    }
}

/// A playing card. Cards are equal, and ordered, by rank alone: the suit is
/// carried along but never compared.
#[derive(Clone, Copy, Debug)]
pub struct Card {
    pub suit: Suit,
    pub rank: Rank,
}

/// Whether two cards count as the same card in play: their ranks agree.
pub open spec fn same_rank(a: Card, b: Card) -> bool {
    a.rank == b.rank
}

/// How two cards compare: by the positions of their ranks.
pub open spec fn compare_cards(a: Card, b: Card) -> Option<std::cmp::Ordering> {
    if rank_index(a.rank) < rank_index(b.rank) {
        Some(std::cmp::Ordering::Less)
    } else if rank_index(a.rank) == rank_index(b.rank) {
        Some(std::cmp::Ordering::Equal)
    } else {
        Some(std::cmp::Ordering::Greater)
    }
}

impl PartialEq for Card {
    fn eq(&self, other: &Card) -> (r: bool)
        ensures
            r == same_rank(*self, *other),
    {
        self.rank == other.rank
    }
}

impl vstd::std_specs::cmp::PartialEqSpecImpl for Card {
    open spec fn obeys_eq_spec() -> bool {
        true
    }

    open spec fn eq_spec(&self, other: &Card) -> bool {
        same_rank(*self, *other)
    }
}

impl PartialOrd for Card {
    fn partial_cmp(&self, other: &Card) -> (r: Option<std::cmp::Ordering>)
        ensures
            r == compare_cards(*self, *other),
    {
        let a = self.rank.index();
        let b = other.rank.index();
        if a < b {
            Some(std::cmp::Ordering::Less)
        } else if a == b {
            Some(std::cmp::Ordering::Equal)
        } else {
            Some(std::cmp::Ordering::Greater)
        }
    }
}

impl vstd::std_specs::cmp::PartialOrdSpecImpl for Card {
    open spec fn obeys_partial_cmp_spec() -> bool {
        true
    }

    open spec fn partial_cmp_spec(&self, other: &Card) -> Option<std::cmp::Ordering> {
        compare_cards(*self, *other)
    }
}

/// Card equality is suit-blind: for all cards, `==` holds exactly when the
/// ranks are equal, whatever the suits.
pub proof fn lemma_equality_ignores_suit(a: Card, b: Card)
    ensures
        a.eq_spec(&b) <==> a.rank == b.rank,
        forall|s: Suit, t: Suit| #![auto]
            (Card { suit: s, rank: a.rank }).eq_spec(&Card { suit: t, rank: b.rank })
                == a.eq_spec(&b),
{
}

} // verus!
