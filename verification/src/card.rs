//! The card model: ranks, suits, point values, and the rank-only ordering
//! used to decide trick winners.

use vstd::prelude::*;

verus! {

/// The thirteen ranks, ordered Two < Three < ... < Ace.
#[derive(Clone, Copy, Debug, PartialEq, Eq, Structural)]
pub enum Rank {
    Two,
    Three,
    Four,
    Five,
    Six,
    Seven,
    Eight,
    Nine,
    Ten,
    Jack,
    Queen,
    King,
    Ace,
}

/// The four suits; no suit outranks another.
#[derive(Clone, Copy, Debug, PartialEq, Eq, Structural)]
pub enum Suit {
    Hearts,
    Clubs,
    Diamonds,
    Spades,
}

/// Position of a rank in the Two < Three < ... < Ace order.
pub open spec fn rank_order(r: Rank) -> int {
    match r {
        Rank::Two => 0,
        Rank::Three => 1,
        Rank::Four => 2,
        Rank::Five => 3,
        Rank::Six => 4,
        Rank::Seven => 5,
        Rank::Eight => 6,
        Rank::Nine => 7,
        Rank::Ten => 8,
        Rank::Jack => 9,
        Rank::Queen => 10,
        Rank::King => 11,
        Rank::Ace => 12,
    }
}

/// The rank at a given position, inverse of `rank_order`.
pub open spec fn rank_from(i: int) -> Rank {
    if i == 0 { Rank::Two }
    else if i == 1 { Rank::Three }
    else if i == 2 { Rank::Four }
    else if i == 3 { Rank::Five }
    else if i == 4 { Rank::Six }
    else if i == 5 { Rank::Seven }
    else if i == 6 { Rank::Eight }
    else if i == 7 { Rank::Nine }
    else if i == 8 { Rank::Ten }
    else if i == 9 { Rank::Jack }
    else if i == 10 { Rank::Queen }
    else if i == 11 { Rank::King }
    else { Rank::Ace }
}

/// The suit at a given position in the fixed Hearts, Clubs, Diamonds, Spades
/// enumeration used to build a deck.
pub open spec fn suit_from(i: int) -> Suit {
    if i == 0 { Suit::Hearts }
    else if i == 1 { Suit::Clubs }
    else if i == 2 { Suit::Diamonds }
    else { Suit::Spades }
}

/// A playing card: a rank and a suit.
#[derive(Clone, Copy, Debug, PartialEq, Eq, Structural)]
pub struct Card {
    pub rank: Rank,
    pub suit: Suit,
}

/// Penalty points carried by a card: thirteen for the queen of spades, one
/// for every heart, zero otherwise.
pub open spec fn card_points(c: Card) -> int {
    if c.rank == Rank::Queen && c.suit == Suit::Spades {
        13
    } else if c.suit == Suit::Hearts {
        1
    } else {
        0
    }
}

/// The two of clubs, which must open the first trick of every round.
pub open spec fn two_of_clubs() -> Card {
    Card { rank: Rank::Two, suit: Suit::Clubs }
}

impl Card {
    pub fn new(rank: Rank, suit: Suit) -> (c: Card)
        ensures
            c == (Card { rank, suit }),
    {
        Card { rank, suit }
    }

    /// Penalty points of this card.
    pub fn score(&self) -> (s: u8)
        ensures
            s as int == card_points(*self),
    {
        if self.rank == Rank::Queen && self.suit == Suit::Spades {
            13
        } else if self.suit == Suit::Hearts {
            1
        } else {
            0
        }
    }

    pub fn is_two_of_clubs(&self) -> (b: bool)
        ensures
            b == (*self == two_of_clubs()),
    {
        self.rank == Rank::Two && self.suit == Suit::Clubs
    }

    pub fn is_hearts(&self) -> (b: bool)
        ensures
            b == (self.suit == Suit::Hearts),
    {
        self.suit == Suit::Hearts
    }

    /// Rank-only comparison: suits are ignored, because cards are only ever
    /// compared within the led suit of a trick.
    pub fn beats(&self, other: &Card) -> (b: bool)
        ensures
            b == (rank_order(self.rank) > rank_order(other.rank)),
    {
        self.rank_position() > other.rank_position()
    }

    /// Position of this card's rank in the rank order, as a machine integer.
    pub fn rank_position(&self) -> (v: u8)
        ensures
            v as int == rank_order(self.rank),
    {
        match self.rank {
            Rank::Two => 0,
            Rank::Three => 1,
            Rank::Four => 2,
            Rank::Five => 3,
            Rank::Six => 4,
            Rank::Seven => 5,
            Rank::Eight => 6,
            Rank::Nine => 7,
            Rank::Ten => 8,
            Rank::Jack => 9,
            Rank::Queen => 10,
            Rank::King => 11,
            Rank::Ace => 12,
        }
    }
}

/// Total penalty points over a sequence of cards.
pub open spec fn sum_points(s: Seq<Card>) -> int
    decreases s.len(),
{
    if s.len() == 0 {
        0
    } else {
        card_points(s[0]) + sum_points(s.drop_first())
    }
}

pub proof fn lemma_sum_points_nonneg(s: Seq<Card>)
    ensures
        0 <= sum_points(s),
    decreases s.len(),
{
    if s.len() > 0 {
        lemma_sum_points_nonneg(s.drop_first());
    }
}

pub proof fn lemma_sum_points_concat(a: Seq<Card>, b: Seq<Card>)
    ensures
        sum_points(a + b) == sum_points(a) + sum_points(b),
    decreases a.len(),
{
    if a.len() == 0 {
        assert(a + b =~= b);
    } else {
        assert((a + b).drop_first() =~= a.drop_first() + b);
        lemma_sum_points_concat(a.drop_first(), b);
    }
}

pub proof fn lemma_sum_points_drop_last(s: Seq<Card>)
    requires
        s.len() > 0,
    ensures
        sum_points(s) == sum_points(s.drop_last()) + card_points(s.last()),
    decreases s.len(),
{
    if s.len() == 1 {
        assert(s.drop_last() =~= Seq::<Card>::empty());
        assert(s.drop_first() =~= Seq::<Card>::empty());
        assert(s.last() == s[0]);
    } else {
        assert(s.drop_first().drop_last() =~= s.drop_last().drop_first());
        lemma_sum_points_drop_last(s.drop_first());
        assert(sum_points(s) == card_points(s[0]) + sum_points(s.drop_first()));
        assert(s.drop_first().last() == s.last());
        assert(s.drop_last()[0] == s[0]);
        assert(sum_points(s.drop_last()) == card_points(s.drop_last()[0]) + sum_points(
            s.drop_last().drop_first(),
        ));
    }
}

pub proof fn lemma_sum_points_remove(s: Seq<Card>, i: int)
    requires
        0 <= i < s.len(),
    ensures
        sum_points(s.remove(i)) == sum_points(s) - card_points(s[i]),
    decreases s.len(),
{
    if i == 0 {
        assert(s.remove(0) =~= s.drop_first());
    } else {
        assert(s.remove(i).drop_first() =~= s.drop_first().remove(i - 1));
        lemma_sum_points_remove(s.drop_first(), i - 1);
    }
}

/// Penalty points depend only on which cards are present, not on their
/// order: two sequences with the same multiset of cards carry the same
/// total.
pub proof fn lemma_sum_points_permutation(a: Seq<Card>, b: Seq<Card>)
    requires
        a.to_multiset() == b.to_multiset(),
    ensures
        sum_points(a) == sum_points(b),
    decreases a.len(),
{
    broadcast use vstd::seq_lib::group_to_multiset_ensures;

    if a.len() == 0 {
        assert(a.to_multiset().len() == a.len());
        assert(b.to_multiset().len() == b.len());
        assert(b.len() == 0);
    } else {
        let c = a.last();
        assert(a.to_multiset().count(c) > 0) by {
            assert(a.contains(c));
        }
        assert(b.contains(c));
        let j = choose|j: int| 0 <= j < b.len() && b[j] == c;
        assert(a.drop_last().push(c) =~= a);
        assert(a.drop_last().to_multiset() =~= a.to_multiset().remove(c));
        assert(b.remove(j).to_multiset() =~= b.to_multiset().remove(c));
        lemma_sum_points_permutation(a.drop_last(), b.remove(j));
        lemma_sum_points_drop_last(a);
        lemma_sum_points_remove(b, j);
    }
}

/// Removing one occurrence of a card from a hand removes exactly that
/// card's points, whatever order the hand is kept in.
pub proof fn lemma_sum_points_multiset_remove(a: Seq<Card>, b: Seq<Card>, c: Card)
    requires
        a.to_multiset().contains(c),
        b.to_multiset() == a.to_multiset().remove(c),
    ensures
        sum_points(b) == sum_points(a) - card_points(c),
{
    broadcast use vstd::seq_lib::group_to_multiset_ensures;

    assert(a.contains(c));
    let i = choose|i: int| 0 <= i < a.len() && a[i] == c;
    assert(a.remove(i).to_multiset() =~= a.to_multiset().remove(c));
    lemma_sum_points_permutation(a.remove(i), b);
    lemma_sum_points_remove(a, i);
}

} // verus!
