//! Game-wide laws, stated and proved over the same spec functions the
//! engine's contracts use.

use vstd::prelude::*;

use crate::card::Card;
use crate::card::Suit;
use crate::card::sum_points;
use crate::card::two_of_clubs;
use crate::deck::full_deck;
use crate::deck::lemma_full_deck_no_duplicates;
use crate::deck::lemma_full_deck_points;
use crate::game::card_legal;
use crate::game::hands_cards;
use crate::game::hands_partition_deck;
use crate::player::Player;

verus! {

/// However a round's cards are arranged, the 52-card set carries exactly
/// 26 penalty points: the 13 hearts at one each and the queen of spades at
/// thirteen. Any permutation of the full deck sums to 26.
pub proof fn lemma_deck_permutation_points(s: Seq<Card>)
    requires
        s.to_multiset() == full_deck().to_multiset(),
    ensures
        sum_points(s) == 26,
{
    crate::card::lemma_sum_points_permutation(s, full_deck());
    lemma_full_deck_points();
}

/// After dealing, the four hands are pairwise disjoint and together cover
/// the full 52-card set.
pub proof fn lemma_deal_partitions(players: Seq<Player>)
    requires
        players.len() == 4,
        hands_partition_deck(players),
    ensures
        forall|i: int, j: int, c: Card|
            0 <= i < 4 && 0 <= j < 4 && i != j && (#[trigger] players[i].hand_seq().contains(c))
                ==> !(#[trigger] players[j].hand_seq().contains(c)),
        forall|c: Card|
            full_deck().contains(c) <==> exists|i: int|
                0 <= i < 4 && (#[trigger] players[i]).hand_seq().contains(c),
{
    broadcast use vstd::seq_lib::group_to_multiset_ensures;
    broadcast use vstd::multiset::group_multiset_axioms;
    broadcast use vstd::seq_lib::lemma_multiset_commutative;

    let s = hands_cards(players);
    let h0 = players[0].hand_seq();
    let h1 = players[1].hand_seq();
    let h2 = players[2].hand_seq();
    let h3 = players[3].hand_seq();
    lemma_full_deck_no_duplicates();
    full_deck().lemma_multiset_has_no_duplicates();
    assert(s.to_multiset() == h0.to_multiset().add(h1.to_multiset()).add(h2.to_multiset()).add(
        h3.to_multiset(),
    )) by {
        assert((h0 + h1).to_multiset() == h0.to_multiset().add(h1.to_multiset()));
        assert(((h0 + h1) + h2).to_multiset() == (h0 + h1).to_multiset().add(h2.to_multiset()));
        assert((((h0 + h1) + h2) + h3).to_multiset() == ((h0 + h1) + h2).to_multiset().add(
            h3.to_multiset(),
        ));
    }
    assert forall|i: int, j: int, c: Card|
        0 <= i < 4 && 0 <= j < 4 && i != j && (#[trigger] players[i].hand_seq().contains(c))
        implies !(#[trigger] players[j].hand_seq().contains(c)) by {
        if players[j].hand_seq().contains(c) {
            assert(players[i].hand_seq().to_multiset().count(c) >= 1);
            assert(players[j].hand_seq().to_multiset().count(c) >= 1);
            assert(s.to_multiset().count(c) >= 2);
            assert(full_deck().to_multiset().contains(c));
            assert(full_deck().to_multiset().count(c) == 1);
        }
    }
    assert forall|c: Card|
        full_deck().contains(c) <==> exists|i: int|
            0 <= i < 4 && (#[trigger] players[i]).hand_seq().contains(c) by {
        if full_deck().contains(c) {
            assert(s.to_multiset().count(c) > 0);
            assert(h0.to_multiset().count(c) > 0 || h1.to_multiset().count(c) > 0
                || h2.to_multiset().count(c) > 0 || h3.to_multiset().count(c) > 0);
            if h0.to_multiset().count(c) > 0 {
                assert(players[0].hand_seq().contains(c));
            } else if h1.to_multiset().count(c) > 0 {
                assert(players[1].hand_seq().contains(c));
            } else if h2.to_multiset().count(c) > 0 {
                assert(players[2].hand_seq().contains(c));
            } else {
                assert(players[3].hand_seq().contains(c));
            }
        }
        if exists|i: int| 0 <= i < 4 && (#[trigger] players[i]).hand_seq().contains(c) {
            let i = choose|i: int| 0 <= i < 4 && (#[trigger] players[i]).hand_seq().contains(c);
            assert(players[i].hand_seq().to_multiset().count(c) > 0);
            assert(s.to_multiset().count(c) > 0);
            assert(full_deck().to_multiset().count(c) > 0);
            assert(full_deck().contains(c));
        }
    }
}

/// A filter that keeps exactly one target card: on a duplicate-free hand
/// that holds the target, the result is that single card.
proof fn lemma_filter_eq_single(hand: Seq<Card>, pred: spec_fn(Card) -> bool, target: Card)
    requires
        hand.no_duplicates(),
        forall|c: Card| #[trigger] pred(c) <==> c == target,
    ensures
        hand.contains(target) ==> hand.filter(pred) =~= seq![target],
        !hand.contains(target) ==> hand.filter(pred) =~= Seq::<Card>::empty(),
    decreases hand.len(),
{
    reveal(Seq::filter);
    if hand.len() == 0 {
    } else {
        let rest = hand.drop_last();
        let last = hand.last();
        assert(rest.no_duplicates());
        lemma_filter_eq_single(rest, pred, target);
        if last == target {
            assert(!rest.contains(target)) by {
                if rest.contains(target) {
                    let i = choose|i: int| 0 <= i < rest.len() && rest[i] == target;
                    assert(hand[i] == hand[hand.len() - 1]);
                }
            }
            assert(hand.contains(target)) by {
                assert(hand[hand.len() - 1] == target);
            }
            assert(hand.filter(pred) =~= seq![target]);
        } else {
            assert(!pred(last));
            if hand.contains(target) {
                let i = choose|i: int| 0 <= i < hand.len() && hand[i] == target;
                assert(rest[i] == target);
                assert(rest.contains(target));
            } else {
                assert(!rest.contains(target)) by {
                    if rest.contains(target) {
                        let i = choose|i: int| 0 <= i < rest.len() && rest[i] == target;
                        assert(hand[i] == target);
                    }
                }
            }
        }
    }
}

/// On the very first move of a round, a duplicate-free hand holding the
/// two of clubs has exactly one legal card: the two of clubs itself.
pub proof fn lemma_first_move_only_two_of_clubs(hand: Seq<Card>)
    requires
        hand.no_duplicates(),
        hand.contains(two_of_clubs()),
    ensures
        hand.filter(|c: Card| card_legal(c, None, true, false)) =~= seq![two_of_clubs()],
{
    let pred = |c: Card| card_legal(c, None, true, false);
    assert forall|c: Card| #[trigger] pred(c) <==> c == two_of_clubs() by {
        if c == two_of_clubs() {
            assert(c.suit == Suit::Clubs);
            assert(pred(c));
        }
    }
    lemma_filter_eq_single(hand, pred, two_of_clubs());
}

/// While hearts are unbroken, leading excludes every heart and keeps every
/// other card: a hand holding any non-heart keeps a non-empty, heart-free
/// set of legal leads (so the fallback never reopens hearts for it).
pub proof fn lemma_no_hearts_lead(hand: Seq<Card>, c: Card)
    ensures
        hand.filter(|c: Card| card_legal(c, None, false, false)).contains(c) ==> (c.suit
            != Suit::Hearts && hand.contains(c)),
        (hand.contains(c) && c.suit != Suit::Hearts) ==> hand.filter(
            |c: Card| card_legal(c, None, false, false),
        ).contains(c),
{
    let pred = |c: Card| card_legal(c, None, false, false);
    let filtered = hand.filter(pred);
    if filtered.contains(c) {
        let i = choose|i: int| 0 <= i < filtered.len() && filtered[i] == c;
        hand.lemma_filter_pred(pred, i);
        assert(pred(c));
        #[allow(deprecated)]
        hand.filter_lemma(pred);
        assert(hand.contains(c)) by {
            assert(forall|j: int|
                0 <= j < filtered.len() ==> hand.contains(#[trigger] filtered[j])) by {
                assert forall|j: int|
                    0 <= j < filtered.len() implies hand.contains(#[trigger] filtered[j]) by {
                    lemma_filter_subset(hand, pred, j);
                }
            }
        }
    }
    if hand.contains(c) && c.suit != Suit::Hearts {
        let i = choose|i: int| 0 <= i < hand.len() && hand[i] == c;
        assert(pred(hand[i]));
        hand.lemma_filter_contains(pred, i);
    }
}

/// Every card kept by a filter came from the hand.
proof fn lemma_filter_subset(hand: Seq<Card>, pred: spec_fn(Card) -> bool, j: int)
    requires
        0 <= j < hand.filter(pred).len(),
    ensures
        hand.contains(hand.filter(pred)[j]),
    decreases hand.len(),
{
    reveal(Seq::filter);
    if hand.len() > 0 {
        let rest = hand.drop_last();
        if pred(hand.last()) && j == hand.filter(pred).len() - 1 {
            assert(hand[hand.len() - 1] == hand.filter(pred)[j]);
        } else {
            lemma_filter_subset(rest, pred, j);
            let i = choose|i: int| 0 <= i < rest.len() && rest[i] == rest.filter(pred)[j];
            assert(hand[i] == hand.filter(pred)[j]);
        }
    }
}

} // verus!
