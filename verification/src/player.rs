//! A player: a name, a mutable hand of cards, and an accumulated score.
//!
//! The hand is an unordered collection without duplicates during real play;
//! the operations here state exactly how each call changes it.

use vstd::prelude::*;

use crate::card::Card;
use crate::card::two_of_clubs;

verus! {

pub struct Player {
    pub name: String,
    hand: Vec<Card>,
    score: u8,
}

impl Player {
    /// The hand as a mathematical sequence.
    pub closed spec fn hand_seq(&self) -> Seq<Card> {
        self.hand@
    }

    /// The accumulated score.
    pub closed spec fn score_val(&self) -> u8 {
        self.score
    }

    /// The player's name.
    pub closed spec fn name_str(&self) -> String {
        self.name
    }

    pub fn new(name: String) -> (p: Player)
        ensures
            p.hand_seq() == Seq::<Card>::empty(),
            p.score_val() == 0,
            p.name_str() == name,
    {
        let p = Player { name, hand: Vec::new(), score: 0 };
        proof {
            assert(p.hand_seq() =~= Seq::<Card>::empty());
        }
        p
    }

    /// Read-only view of the hand; repeated calls without mutation in
    /// between return the same cards.
    pub fn hand(&self) -> (h: &Vec<Card>)
        ensures
            h@ == self.hand_seq(),
    {
        &self.hand
    }

    /// Read-only view of the score; repeated calls without mutation in
    /// between return the same value.
    pub fn score(&self) -> (s: u8)
        ensures
            s == self.score_val(),
    {
        self.score
    }

    /// Accumulate points; the score never decreases.
    pub fn add_score(&mut self, score: u8)
        requires
            old(self).score_val() + score <= u8::MAX,
        ensures
            final(self).score_val() == old(self).score_val() + score,
            final(self).hand_seq() == old(self).hand_seq(),
            final(self).name_str() == old(self).name_str(),
    {
        self.score = self.score + score;
    }

    pub fn has_two_of_clubs(&self) -> (b: bool)
        ensures
            b == self.hand_seq().contains(two_of_clubs()),
    {
        let n = self.hand.len();
        let mut i: usize = 0;
        while i < n
            invariant
                n == self.hand.len(),
                0 <= i <= n,
                forall|j: int| 0 <= j < i ==> self.hand@[j] != two_of_clubs(),
            decreases n - i,
        {
            if self.hand[i].is_two_of_clubs() {
                return true;
            }
            i = i + 1;
        }
        false
    }

    /// Partition the hand: cards matching one of `choices` leave the hand
    /// and are returned (in hand order); the rest are kept (in hand order).
    pub fn pass(&mut self, choices: &Vec<Card>) -> (passed: Vec<Card>)
        ensures
            passed@ == old(self).hand_seq().filter(|c: Card| choices@.contains(c)),
            final(self).hand_seq() == old(self).hand_seq().filter(
                |c: Card| !choices@.contains(c),
            ),
            final(self).score_val() == old(self).score_val(),
            final(self).name_str() == old(self).name_str(),
    {
        let ghost orig = self.hand@;
        let ghost give = |c: Card| choices@.contains(c);
        let ghost keep = |c: Card| !choices@.contains(c);
        let mut passed: Vec<Card> = Vec::new();
        let mut kept: Vec<Card> = Vec::new();
        proof {
            assert(orig.take(0) =~= Seq::<Card>::empty());
            reveal(Seq::filter);
        }
        let n = self.hand.len();
        let mut i: usize = 0;
        while i < n
            invariant
                n == self.hand.len(),
                self.hand@ == orig,
                0 <= i <= n,
                give == (|c: Card| choices@.contains(c)),
                keep == (|c: Card| !choices@.contains(c)),
                passed@ == orig.take(i as int).filter(give),
                kept@ == orig.take(i as int).filter(keep),
            decreases n - i,
        {
            let c = self.hand[i];
            proof {
                reveal(Seq::filter);
                assert(orig.take(i + 1).drop_last() =~= orig.take(i as int));
                assert(orig.take(i + 1).last() == c);
            }
            if contains_card(choices, &c) {
                passed.push(c);
            } else {
                kept.push(c);
            }
            i = i + 1;
        }
        proof {
            assert(orig.take(n as int) =~= orig);
        }
        self.hand = kept;
        passed
    }

    /// Append the given cards to the hand.
    pub fn take(&mut self, cards: Vec<Card>)
        ensures
            final(self).hand_seq() == old(self).hand_seq() + cards@,
            final(self).score_val() == old(self).score_val(),
            final(self).name_str() == old(self).name_str(),
    {
        let mut cards = cards;
        self.hand.append(&mut cards);
    }

    /// Remove the first occurrence of `choice` from the hand and return it;
    /// `None`, with the hand untouched, when the card is not held.
    pub fn place(&mut self, choice: &Card) -> (r: Option<Card>)
        ensures
            match r {
                Some(c) => {
                    &&& c == *choice
                    &&& old(self).hand_seq().contains(*choice)
                    &&& exists|k: int|
                        {
                            &&& 0 <= k < old(self).hand_seq().len()
                            &&& old(self).hand_seq()[k] == *choice
                            &&& final(self).hand_seq() == old(self).hand_seq().remove(k)
                        }
                    &&& final(self).hand_seq().to_multiset() == old(
                        self,
                    ).hand_seq().to_multiset().remove(*choice)
                    &&& final(self).hand_seq().len() + 1 == old(self).hand_seq().len()
                },
                None => {
                    &&& !old(self).hand_seq().contains(*choice)
                    &&& *final(self) == *old(self)
                },
            },
            final(self).score_val() == old(self).score_val(),
            final(self).name_str() == old(self).name_str(),
    {
        let n = self.hand.len();
        let mut i: usize = 0;
        while i < n
            invariant
                *self == *old(self),
                n == self.hand.len(),
                0 <= i <= n,
                forall|j: int| 0 <= j < i ==> self.hand@[j] != *choice,
            decreases n - i,
        {
            if self.hand[i] == *choice {
                let c = self.hand.remove(i);
                proof {
                    broadcast use vstd::seq_lib::group_to_multiset_ensures;

                    assert(old(self).hand_seq().remove(i as int).to_multiset() =~= old(
                        self,
                    ).hand_seq().to_multiset().remove(*choice));
                }
                return Some(c);
            }
            i = i + 1;
        }
        None
    }
}

/// Whether the vector holds the given card.
pub fn contains_card(cards: &Vec<Card>, c: &Card) -> (b: bool)
    ensures
        b == cards@.contains(*c),
{
    let n = cards.len();
    let mut i: usize = 0;
    while i < n
        invariant
            n == cards.len(),
            0 <= i <= n,
            forall|j: int| 0 <= j < i ==> cards@[j] != *c,
        decreases n - i,
    {
        if cards[i] == *c {
            return true;
        }
        i = i + 1;
    }
    false
}

} // verus!
