//! The deck: the 52-card set, shuffling, and dealing four hands of thirteen.

use vstd::prelude::*;

use rand::prelude::SliceRandom;

use crate::card::Card;
use crate::card::Rank;
use crate::card::Suit;
use crate::card::card_points;
use crate::card::rank_from;
use crate::card::rank_order;
use crate::card::suit_from;
use crate::card::sum_points;
use crate::player::Player;

verus! {

/// Position of a suit in the fixed Hearts, Clubs, Diamonds, Spades
/// enumeration, inverse of `suit_from`.
pub open spec fn suit_order(s: Suit) -> int {
    match s {
        Suit::Hearts => 0,
        Suit::Clubs => 1,
        Suit::Diamonds => 2,
        Suit::Spades => 3,
    }
}

/// The 52-card set in construction order: ranks outermost, the four suits
/// under each rank.
pub open spec fn full_deck() -> Seq<Card> {
    Seq::new(52, |i: int| Card { rank: rank_from(i / 4), suit: suit_from(i % 4) })
}

pub struct Deck {
    cards: Vec<Card>,
}

impl Deck {
    /// The deck's cards, in their current order.
    pub closed spec fn cards_seq(&self) -> Seq<Card> {
        self.cards@
    }

    /// The full 52-card set, one card for each rank and suit, unshuffled.
    pub fn new() -> (d: Deck)
        ensures
            d.cards_seq() == full_deck(),
    {
        let mut cards: Vec<Card> = Vec::new();
        let mut i: usize = 0;
        while i < 13
            invariant
                0 <= i <= 13,
                cards@.len() == 4 * i,
                forall|k: int| 0 <= k < 4 * i ==> cards@[k] == full_deck()[k],
            decreases 13 - i,
        {
            let rank = rank_at(i);
            cards.push(Card::new(rank, Suit::Hearts));
            cards.push(Card::new(rank, Suit::Clubs));
            cards.push(Card::new(rank, Suit::Diamonds));
            cards.push(Card::new(rank, Suit::Spades));
            proof {
                assert forall|k: int| 4 * i <= k < 4 * (i + 1) implies cards@[k] == full_deck()[k] by {
                    assert(k / 4 == i && full_deck()[k] == (Card {
                        rank: rank_from(i as int),
                        suit: suit_from(k % 4),
                    }));
                }
            }
            i = i + 1;
        }
        proof {
            assert(cards@ =~= full_deck());
        }
        Deck { cards }
    }

    /// Shuffle, then hand block `i` of thirteen cards to player `i`. The
    /// four blocks partition the shuffled deck; the deck keeps its cards
    /// (in the new order) and can deal again next round.
    pub fn deal(&mut self, players: &mut Vec<Player>)
        requires
            old(players).len() == 4,
            old(self).cards_seq().len() == 52,
        ensures
            final(self).cards_seq().to_multiset() == old(self).cards_seq().to_multiset(),
            final(self).cards_seq().len() == 52,
            final(players).len() == 4,
            forall|i: int|
                0 <= i < 4 ==> (#[trigger] final(players)[i]).hand_seq() == old(players)[i].hand_seq()
                    + final(self).cards_seq().subrange(13 * i, 13 * (i + 1)),
            forall|i: int|
                0 <= i < 4 ==> (#[trigger] final(players)[i]).score_val() == old(
                    players,
                )[i].score_val(),
            forall|i: int|
                0 <= i < 4 ==> (#[trigger] final(players)[i]).name_str() == old(
                    players,
                )[i].name_str(),
    {
        shuffle_cards(&mut self.cards);
        let ghost shuffled = self.cards@;
        let mut i: usize = 0;
        while i < 4
            invariant
                players.len() == 4,
                self.cards@ == shuffled,
                shuffled.len() == 52,
                0 <= i <= 4,
                forall|j: int|
                    i <= j < 4 ==> #[trigger] players@[j] == old(players)@[j],
                forall|j: int|
                    0 <= j < i ==> (#[trigger] players@[j]).hand_seq() == old(
                        players,
                    )@[j].hand_seq() + shuffled.subrange(13 * j, 13 * (j + 1)),
                forall|j: int|
                    0 <= j < i ==> (#[trigger] players@[j]).score_val() == old(
                        players,
                    )@[j].score_val(),
                forall|j: int|
                    0 <= j < i ==> (#[trigger] players@[j]).name_str() == old(
                        players,
                    )@[j].name_str(),
            decreases 4 - i,
        {
            let mut block: Vec<Card> = Vec::new();
            let mut k: usize = 13 * i;
            while k < 13 * (i + 1)
                invariant
                    self.cards@ == shuffled,
                    shuffled.len() == 52,
                    0 <= i < 4,
                    13 * i <= k <= 13 * (i + 1),
                    block@ == shuffled.subrange(13 * i as int, k as int),
                decreases 13 * (i + 1) - k,
            {
                block.push(self.cards[k]);
                proof {
                    assert(shuffled.subrange(13 * i as int, k + 1) =~= shuffled.subrange(
                        13 * i as int,
                        k as int,
                    ).push(shuffled[k as int]));
                }
                k = k + 1;
            }
            let player = &mut players[i];
            player.take(block);
            i = i + 1;
        }
    }
}

/// The rank at a given position of the rank order, Two first.
fn rank_at(i: usize) -> (r: Rank)
    requires
        i < 13,
    ensures
        r == rank_from(i as int),
{
    if i == 0 { Rank::Two }
    else if i == 1 { Rank::Three }
    else if i == 2 { Rank::Four }
    else if i == 3 { Rank::Five }
    else if i == 4 { Rank::Six }
    else if i == 5 { Rank::Seven }
    else if i == 6 { Rank::Eight }
    else if i == 7 { Rank::Nine }
    else if i == 8 { Rank::Ten }
    else if i == 9 { Rank::Jack }
    else if i == 10 { Rank::Queen }
    else if i == 11 { Rank::King }
    else { Rank::Ace }
}

/// Relies on rand's `SliceRandom::shuffle`: an in-place Fisher-Yates pass
/// that only swaps elements, so the cards present are unchanged and only
/// their order moves.
#[verifier::external_body]
fn shuffle_cards(cards: &mut Vec<Card>)
    ensures
        final(cards)@.to_multiset() == old(cards)@.to_multiset(),
        final(cards)@.len() == old(cards)@.len(),
{
    cards.shuffle(&mut rand::thread_rng());
}

/// No card appears twice in the full deck.
pub proof fn lemma_full_deck_no_duplicates()
    ensures
        full_deck().len() == 52,
        full_deck().no_duplicates(),
{
    assert forall|i: int, j: int|
        0 <= i < 52 && 0 <= j < 52 && i != j implies full_deck()[i] != full_deck()[j] by {
        if i / 4 == j / 4 {
            assert(i % 4 != j % 4);
            assert(suit_order(suit_from(i % 4)) == i % 4);
            assert(suit_order(suit_from(j % 4)) == j % 4);
        } else {
            assert(rank_order(rank_from(i / 4)) == i / 4);
            assert(rank_order(rank_from(j / 4)) == j / 4);
        }
    }
}

/// Every rank-and-suit combination appears in the full deck.
pub proof fn lemma_full_deck_complete()
    ensures
        forall|c: Card| full_deck().contains(c),
{
    assert forall|c: Card| full_deck().contains(c) by {
        let i = 4 * rank_order(c.rank) + suit_order(c.suit);
        assert(0 <= i < 52);
        assert(i / 4 == rank_order(c.rank) && i % 4 == suit_order(c.suit));
        assert(rank_from(rank_order(c.rank)) == c.rank);
        assert(suit_from(suit_order(c.suit)) == c.suit);
        assert(full_deck()[i] == c);
    }
}

/// The 26 penalty points of a round: thirteen hearts at one point each and
/// the queen of spades at thirteen.
pub proof fn lemma_full_deck_points()
    ensures
        sum_points(full_deck()) == 26,
{
    lemma_full_deck_tail_points(0);
    assert(full_deck().subrange(0, 52) =~= full_deck());
}

proof fn lemma_full_deck_tail_points(k: int)
    requires
        0 <= k <= 13,
    ensures
        sum_points(full_deck().subrange(4 * k, 52)) == (13 - k) + if k <= 10 {
            13int
        } else {
            0int
        },
    decreases 13 - k,
{
    let s = full_deck().subrange(4 * k, 52);
    if k == 13 {
        assert(s =~= Seq::<Card>::empty());
    } else {
        let s1 = full_deck().subrange(4 * k + 1, 52);
        let s2 = full_deck().subrange(4 * k + 2, 52);
        let s3 = full_deck().subrange(4 * k + 3, 52);
        let s4 = full_deck().subrange(4 * (k + 1), 52);
        assert(s.drop_first() =~= s1);
        assert(s1.drop_first() =~= s2);
        assert(s2.drop_first() =~= s3);
        assert(s3.drop_first() =~= s4);
        assert((4 * k) / 4 == k && (4 * k) % 4 == 0);
        assert((4 * k + 1) / 4 == k && (4 * k + 1) % 4 == 1);
        assert((4 * k + 2) / 4 == k && (4 * k + 2) % 4 == 2);
        assert((4 * k + 3) / 4 == k && (4 * k + 3) % 4 == 3);
        assert(card_points(s[0]) == 1);
        assert(card_points(s1[0]) == 0);
        assert(card_points(s2[0]) == 0);
        assert(card_points(s3[0]) == if k == 10 { 13int } else { 0int }) by {
            assert(s3[0] == (Card { rank: rank_from(k), suit: suit_from(3) }));
            assert(rank_order(rank_from(k)) == k);
        }
        lemma_full_deck_tail_points(k + 1);
        assert(sum_points(s) == card_points(s[0]) + sum_points(s1));
        assert(sum_points(s1) == card_points(s1[0]) + sum_points(s2));
        assert(sum_points(s2) == card_points(s2[0]) + sum_points(s3));
        assert(sum_points(s3) == card_points(s3[0]) + sum_points(s4));
    }
}

} // verus!
