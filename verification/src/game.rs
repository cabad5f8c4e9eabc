//! The round and turn engine: passing rotation, legal-move filtering, trick
//! resolution, the hearts-exclusivity state, and scoring with the
//! shoot-the-moon rule.

use vstd::prelude::*;
use vstd::multiset::Multiset;

use crate::card::Card;
use crate::card::Suit;
use crate::card::card_points;
use crate::card::rank_order;
use crate::card::sum_points;
use crate::card::two_of_clubs;
use crate::controller::Controller;
use crate::deck::Deck;
use crate::deck::full_deck;
use crate::player::Player;

verus! {

/// Whether hearts have been played this round and, if so, whether a single
/// player (by index) has taken every heart-bearing trick so far.
#[derive(Clone, Copy, Debug, PartialEq, Eq, Structural)]
pub enum HeartsPlayedState {
    NoHeartsPlayed,
    HeartsPlayedOne(usize),
    HeartsPlayedMany,
}

/// The passing rotation, advanced one step per round: right, across, left,
/// then a round with no passing.
#[derive(Clone, Copy, Debug, PartialEq, Eq, Structural)]
pub enum PassingOrder {
    Right,
    Across,
    Left,
    Hold,
}

/// How a round or the game aborts: the collaborator failed at start-up,
/// during passing, or during play (including naming a card it does not
/// hold).
#[derive(Clone, Copy, Debug, PartialEq, Eq, Structural)]
pub enum GameError {
    StartError,
    PassError,
    TurnError,
}

impl GameError {
    /// A short description of the failure, for the layer that reports it.
    pub fn message(&self) -> (r: &'static str)
        ensures
            r@ == match *self {
                GameError::StartError => "Could not start game."@,
                GameError::PassError => "Could not pass cards."@,
                GameError::TurnError => "Could not complete turn."@,
            },
    {
        proof {
            reveal_strlit("Could not start game.");
            reveal_strlit("Could not pass cards.");
            reveal_strlit("Could not complete turn.");
        }
        match self {
            GameError::StartError => "Could not start game.",
            GameError::PassError => "Could not pass cards.",
            GameError::TurnError => "Could not complete turn.",
        }
    }
}

pub type GameResult<T> = Result<T, GameError>;

/// The rotation chosen for a given round, from the round counter.
pub open spec fn passing_order_at(cursor: int) -> PassingOrder {
    if cursor == 0 {
        PassingOrder::Right
    } else if cursor == 1 {
        PassingOrder::Across
    } else if cursor == 2 {
        PassingOrder::Left
    } else {
        PassingOrder::Hold
    }
}

/// The four (giver, receiver) index pairs of a rotation; `None` when the
/// round holds. The giver of pair `k` is always player `k`.
pub open spec fn spec_passing_indices(order: PassingOrder) -> Option<Seq<(usize, usize)>> {
    match order {
        PassingOrder::Right => Some(seq![(0usize, 1usize), (1usize, 2usize), (2usize, 3usize), (3usize, 0usize)]),
        PassingOrder::Across => Some(seq![(0usize, 2usize), (1usize, 3usize), (2usize, 0usize), (3usize, 1usize)]),
        PassingOrder::Left => Some(seq![(0usize, 3usize), (1usize, 0usize), (2usize, 1usize), (3usize, 2usize)]),
        PassingOrder::Hold => None,
    }
}

/// The suit led in the current trick, if a card has been played.
pub open spec fn led_suit(table: Seq<(usize, Card)>) -> Option<Suit> {
    if table.len() == 0 {
        None
    } else {
        Some(table[0].1.suit)
    }
}

/// Whether hearts have been played at all this round.
pub open spec fn hearts_broken(state: HeartsPlayedState) -> bool {
    state != HeartsPlayedState::NoHeartsPlayed
}

/// Whether a card passes the legality filter: the very first move of a
/// round must be the two of clubs; a led suit must be followed; hearts may
/// not be led before hearts are broken. (When the filter empties a hand,
/// the whole hand becomes legal instead: see `legal_cards`.)
pub open spec fn card_legal(
    c: Card,
    led: Option<Suit>,
    is_first_move: bool,
    broken: bool,
) -> bool {
    &&& (is_first_move ==> c == two_of_clubs())
    &&& match led {
        Some(s) => c.suit == s,
        None => broken || c.suit != Suit::Hearts,
    }
}

/// The legal choices from `hand` at this point of the trick. Every card of
/// the hand that passes the filter, in hand order; if none passes, the
/// restriction collapses and the whole hand is returned.
pub fn legal_cards(
    hand: &Vec<Card>,
    table: &Vec<(usize, Card)>,
    is_first_move: bool,
    state: &HeartsPlayedState,
) -> (r: Vec<Card>)
    ensures
        ({
            let filtered = hand@.filter(
                |c: Card| card_legal(c, led_suit(table@), is_first_move, hearts_broken(*state)),
            );
            r@ == if filtered.len() == 0 {
                hand@
            } else {
                filtered
            }
        }),
{
    let ghost pred = |c: Card| card_legal(
        c,
        led_suit(table@),
        is_first_move,
        hearts_broken(*state),
    );
    let led: Option<Suit> = if table.len() > 0 {
        Some(table[0].1.suit)
    } else {
        None
    };
    let broken: bool = !(*state == HeartsPlayedState::NoHeartsPlayed);
    let mut filtered: Vec<Card> = Vec::new();
    proof {
        assert(hand@.take(0) =~= Seq::<Card>::empty());
        reveal(Seq::filter);
    }
    let n = hand.len();
    let mut i: usize = 0;
    while i < n
        invariant
            n == hand.len(),
            0 <= i <= n,
            pred == (|c: Card| card_legal(
                c,
                led_suit(table@),
                is_first_move,
                hearts_broken(*state),
            )),
            led == led_suit(table@),
            broken == hearts_broken(*state),
            filtered@ == hand@.take(i as int).filter(pred),
        decreases n - i,
    {
        let c = hand[i];
        proof {
            reveal(Seq::filter);
            assert(hand@.take(i + 1).drop_last() =~= hand@.take(i as int));
            assert(hand@.take(i + 1).last() == c);
        }
        let first_ok = !is_first_move || c.is_two_of_clubs();
        let suit_ok = match led {
            Some(s) => c.suit == s,
            None => broken || !c.is_hearts(),
        };
        if first_ok && suit_ok {
            filtered.push(c);
        }
        i = i + 1;
    }
    proof {
        assert(hand@.take(n as int) =~= hand@);
    }
    if filtered.len() == 0 {
        let mut whole: Vec<Card> = Vec::new();
        let mut i: usize = 0;
        proof {
            assert(whole@ =~= hand@.take(0));
        }
        while i < n
            invariant
                n == hand.len(),
                0 <= i <= n,
                whole@ == hand@.take(i as int),
            decreases n - i,
        {
            whole.push(hand[i]);
            proof {
                assert(hand@.take(i + 1) =~= hand@.take(i as int).push(hand@[i as int]));
            }
            i = i + 1;
        }
        proof {
            assert(hand@.take(n as int) =~= hand@);
        }
        whole
    } else {
        filtered
    }
}

/// What it means for `(w, c)` to win a table: the pair was played, its card
/// follows the led suit, and no card of the led suit outranks it.
pub open spec fn trick_wins(table: Seq<(usize, Card)>, w: usize, c: Card) -> bool {
    &&& table.contains((w, c))
    &&& table.len() > 0
    &&& c.suit == table[0].1.suit
    &&& forall|j: int|
        0 <= j < table.len() && (#[trigger] table[j]).1.suit == table[0].1.suit ==> rank_order(
            table[j].1.rank,
        ) <= rank_order(c.rank)
}

/// The winner of a completed trick: the player of the highest-ranked card
/// in the led suit. Cards off the led suit never win.
pub fn resolve_trick(table: &Vec<(usize, Card)>) -> (r: (usize, Card))
    requires
        table@.len() == 4,
    ensures
        trick_wins(table@, r.0, r.1),
{
    let mut best: (usize, Card) = table[0];
    let n = table.len();
    let mut j: usize = 1;
    while j < n
        invariant
            n == table@.len() == 4,
            1 <= j <= n,
            table@.contains(best),
            best.1.suit == table@[0].1.suit,
            forall|k: int|
                0 <= k < j && (#[trigger] table@[k]).1.suit == table@[0].1.suit ==> rank_order(
                    table@[k].1.rank,
                ) <= rank_order(best.1.rank),
        decreases n - j,
    {
        let entry = table[j];
        if entry.1.suit == table[0].1.suit && entry.1.beats(&best.1) {
            best = entry;
        }
        j = j + 1;
    }
    best
}

/// The cards on a table, without the player indices.
pub open spec fn table_cards(table: Seq<(usize, Card)>) -> Seq<Card> {
    table.map_values(|p: (usize, Card)| p.1)
}

/// Total penalty points lying on the table.
pub fn trick_points(table: &Vec<(usize, Card)>) -> (s: u8)
    requires
        table@.len() <= 4,
    ensures
        s as int == sum_points(table_cards(table@)),
        s <= 52,
{
    let mut acc: u8 = 0;
    let n = table.len();
    let mut i: usize = 0;
    proof {
        assert(table_cards(table@.take(0)) =~= Seq::<Card>::empty());
    }
    while i < n
        invariant
            n == table@.len() <= 4,
            0 <= i <= n,
            acc as int == sum_points(table_cards(table@.take(i as int))),
            acc <= 13 * i,
        decreases n - i,
    {
        let pts = table[i].1.score();
        proof {
            let prefix = table_cards(table@.take(i as int));
            let next = table_cards(table@.take(i + 1));
            assert(next.drop_last() =~= prefix);
            assert(next.last() == table@[i as int].1);
            crate::card::lemma_sum_points_drop_last(next);
            crate::card::lemma_sum_points_nonneg(prefix);
        }
        acc = acc + pts;
        i = i + 1;
    }
    proof {
        assert(table@.take(n as int) =~= table@);
    }
    acc
}

/// Whether any card on the table is a heart.
pub open spec fn table_has_hearts(table: Seq<(usize, Card)>) -> bool {
    exists|j: int| 0 <= j < table.len() && (#[trigger] table[j]).1.suit == Suit::Hearts
}

pub fn table_hearts(table: &Vec<(usize, Card)>) -> (b: bool)
    ensures
        b == table_has_hearts(table@),
{
    let n = table.len();
    let mut i: usize = 0;
    while i < n
        invariant
            n == table@.len(),
            0 <= i <= n,
            forall|j: int| 0 <= j < i ==> (#[trigger] table@[j]).1.suit != Suit::Hearts,
        decreases n - i,
    {
        if table[i].1.is_hearts() {
            return true;
        }
        i = i + 1;
    }
    false
}

/// The next hearts-exclusivity state once a trick resolves: hearts in the
/// trick charge its winner; a second distinct winner of hearts ends the
/// exclusive state for good.
pub open spec fn spec_hearts_transition(
    state: HeartsPlayedState,
    winner: usize,
    hearts_played: bool,
) -> HeartsPlayedState {
    if !hearts_played {
        state
    } else {
        match state {
            HeartsPlayedState::NoHeartsPlayed => HeartsPlayedState::HeartsPlayedOne(winner),
            HeartsPlayedState::HeartsPlayedOne(p) => if p == winner {
                HeartsPlayedState::HeartsPlayedOne(p)
            } else {
                HeartsPlayedState::HeartsPlayedMany
            },
            HeartsPlayedState::HeartsPlayedMany => HeartsPlayedState::HeartsPlayedMany,
        }
    }
}

pub fn hearts_transition(
    state: HeartsPlayedState,
    winner: usize,
    hearts_played: bool,
) -> (r: HeartsPlayedState)
    ensures
        r == spec_hearts_transition(state, winner, hearts_played),
{
    if !hearts_played {
        state
    } else {
        match state {
            HeartsPlayedState::NoHeartsPlayed => HeartsPlayedState::HeartsPlayedOne(winner),
            HeartsPlayedState::HeartsPlayedOne(p) => if p == winner {
                HeartsPlayedState::HeartsPlayedOne(p)
            } else {
                HeartsPlayedState::HeartsPlayedMany
            },
            HeartsPlayedState::HeartsPlayedMany => HeartsPlayedState::HeartsPlayedMany,
        }
    }
}

/// All cards held by the four players, hand after hand.
pub open spec fn hands_cards(players: Seq<Player>) -> Seq<Card> {
    players[0].hand_seq() + players[1].hand_seq() + players[2].hand_seq() + players[3].hand_seq()
}

/// The four hands together hold exactly the 52-card set: no card is missing
/// and none appears twice.
pub open spec fn hands_partition_deck(players: Seq<Player>) -> bool {
    hands_cards(players).to_multiset() == full_deck().to_multiset()
}

/// One full game: the four players, the deck reused round after round, the
/// passing-rotation cursor, the hearts state the last completed round ended
/// with, and the collaborator consulted for decisions.
pub struct Game<C: Controller> {
    pub players: Vec<Player>,
    deck: Deck,
    passing_cursor: usize,
    hearts_state: HeartsPlayedState,
    round_points: Vec<u8>,
    controller: C,
}

impl<C: Controller> Game<C> {
    /// The players, as a mathematical sequence.
    pub closed spec fn players_seq(&self) -> Seq<Player> {
        self.players@
    }

    /// The deck's cards, in their current order.
    pub closed spec fn deck_cards(&self) -> Seq<Card> {
        self.deck.cards_seq()
    }

    /// Which rotation the next round uses: `passing_order_at` of this.
    pub closed spec fn cursor(&self) -> int {
        self.passing_cursor as int
    }

    /// The hearts state the last completed round ended with;
    /// `NoHeartsPlayed` before the first round.
    pub closed spec fn hearts_played_state(&self) -> HeartsPlayedState {
        self.hearts_state
    }

    /// Read-only view of the last completed round's hearts state.
    pub fn hearts_played(&self) -> (r: HeartsPlayedState)
        ensures
            r == self.hearts_played_state(),
    {
        self.hearts_state
    }

    /// The per-player trick totals of the last completed round; all zero
    /// before the first round.
    pub closed spec fn round_totals(&self) -> Seq<u8> {
        self.round_points@
    }

    /// Read-only view of the last completed round's per-player trick
    /// totals.
    pub fn trick_totals(&self) -> (r: &Vec<u8>)
        ensures
            r@ == self.round_totals(),
    {
        &self.round_points
    }

    /// Structural soundness of a game: four players, a full 52-card deck,
    /// and a rotation cursor within its cycle.
    pub open spec fn wf(&self) -> bool {
        &&& self.players_seq().len() == 4
        &&& self.deck_cards().to_multiset() == full_deck().to_multiset()
        &&& 0 <= self.cursor() < 4
    }

    /// Ask the collaborator for four names and seat one player per name,
    /// each with an empty hand and a zero score, over a fresh deck.
    pub fn new(controller: C) -> (r: GameResult<Game<C>>)
        ensures
            match r {
                Ok(g) => {
                    &&& g.wf()
                    &&& g.cursor() == 0
                    &&& g.hearts_played_state() == HeartsPlayedState::NoHeartsPlayed
                    &&& g.round_totals() == seq![0u8, 0u8, 0u8, 0u8]
                    &&& forall|i: int|
                        0 <= i < 4 ==> (#[trigger] g.players_seq()[i]).hand_seq().len() == 0
                    &&& forall|i: int|
                        0 <= i < 4 ==> (#[trigger] g.players_seq()[i]).score_val() == 0
                },
                Err(e) => e == GameError::StartError,
            },
    {
        let names = match controller.get_names() {
            Ok(names) => names,
            Err(_) => {
                return Err(GameError::StartError);
            },
        };
        if names.len() != 4 {
            return Err(GameError::StartError);
        }
        let mut round_points: Vec<u8> = Vec::new();
        round_points.push(0);
        round_points.push(0);
        round_points.push(0);
        round_points.push(0);
        proof {
            assert(round_points@ =~= seq![0u8, 0u8, 0u8, 0u8]);
        }
        let game = Game {
            players: seat_players(names),
            deck: Deck::new(),
            passing_cursor: 0,
            hearts_state: HeartsPlayedState::NoHeartsPlayed,
            round_points,
            controller,
        };
        Ok(game)
    }

    /// The highest accumulated score at the table; the caller repeats
    /// rounds while this stays under the game's threshold.
    pub fn max_score(&self) -> (m: u8)
        requires
            self.players_seq().len() == 4,
        ensures
            exists|i: int| 0 <= i < 4 && (#[trigger] self.players_seq()[i]).score_val() == m,
            forall|i: int| 0 <= i < 4 ==> (#[trigger] self.players_seq()[i]).score_val() <= m,
    {
        let mut m = self.players[0].score();
        let mut i: usize = 1;
        while i < 4
            invariant
                self.players_seq().len() == 4,
                1 <= i <= 4,
                exists|j: int| 0 <= j < i && (#[trigger] self.players_seq()[j]).score_val() == m,
                forall|j: int| 0 <= j < i ==> (#[trigger] self.players_seq()[j]).score_val() <= m,
            decreases 4 - i,
        {
            let s = self.players[i].score();
            if s > m {
                m = s;
            }
            i = i + 1;
        }
        m
    }
}

/// Play order for a trick: the starting player, then the other three in
/// fixed clockwise index order.
pub fn round_order(starting_index: usize) -> (r: Vec<usize>)
    requires
        starting_index < 4,
    ensures
        r@.len() == 4,
        forall|k: int| 0 <= k < 4 ==> #[trigger] r@[k] == (starting_index + k) % 4,
        forall|k: int| 0 <= k < 4 ==> #[trigger] r@[k] < 4,
{
    let mut r: Vec<usize> = Vec::new();
    r.push(starting_index % 4);
    r.push((starting_index + 1) % 4);
    r.push((starting_index + 2) % 4);
    r.push((starting_index + 3) % 4);
    r
}

/// The (giver, receiver) pairs of a rotation; `None` when the round holds.
pub fn passing_indices(order: &PassingOrder) -> (r: Option<Vec<(usize, usize)>>)
    ensures
        match spec_passing_indices(*order) {
            None => r is None,
            Some(ps) => r matches Some(v) && v@ == ps,
        },
{
    match order {
        PassingOrder::Right => {
            let mut v: Vec<(usize, usize)> = Vec::new();
            v.push((0, 1));
            v.push((1, 2));
            v.push((2, 3));
            v.push((3, 0));
            proof {
                assert(v@ =~= spec_passing_indices(PassingOrder::Right).unwrap());
            }
            Some(v)
        },
        PassingOrder::Across => {
            let mut v: Vec<(usize, usize)> = Vec::new();
            v.push((0, 2));
            v.push((1, 3));
            v.push((2, 0));
            v.push((3, 1));
            proof {
                assert(v@ =~= spec_passing_indices(PassingOrder::Across).unwrap());
            }
            Some(v)
        },
        PassingOrder::Left => {
            let mut v: Vec<(usize, usize)> = Vec::new();
            v.push((0, 3));
            v.push((1, 0));
            v.push((2, 1));
            v.push((3, 2));
            proof {
                assert(v@ =~= spec_passing_indices(PassingOrder::Left).unwrap());
            }
            Some(v)
        },
        PassingOrder::Hold => None,
    }
}

/// How many seats to the left a passed card travels under a rotation: the
/// giver of pair `k` is player `k` and its receiver is `(k + shift) % 4`.
pub open spec fn pass_shift(order: PassingOrder) -> int {
    match order {
        PassingOrder::Right => 1,
        PassingOrder::Across => 2,
        PassingOrder::Left => 3,
        PassingOrder::Hold => 0,
    }
}

/// The pairs of every rotation follow the shift formula.
pub proof fn lemma_passing_indices_shift(order: PassingOrder)
    ensures
        match spec_passing_indices(order) {
            None => order == PassingOrder::Hold,
            Some(ps) => {
                &&& ps.len() == 4
                &&& forall|k: int|
                    0 <= k < 4 ==> #[trigger] ps[k] == (
                        k as usize,
                        ((k + pass_shift(order)) % 4) as usize,
                    )
            },
        },
{
    match order {
        PassingOrder::Right => {
            let ps = spec_passing_indices(order).unwrap();
            assert(ps[0] == (0usize, 1usize));
            assert(ps[1] == (1usize, 2usize));
            assert(ps[2] == (2usize, 3usize));
            assert(ps[3] == (3usize, 0usize));
        },
        PassingOrder::Across => {
            let ps = spec_passing_indices(order).unwrap();
            assert(ps[0] == (0usize, 2usize));
            assert(ps[1] == (1usize, 3usize));
            assert(ps[2] == (2usize, 0usize));
            assert(ps[3] == (3usize, 1usize));
        },
        PassingOrder::Left => {
            let ps = spec_passing_indices(order).unwrap();
            assert(ps[0] == (0usize, 3usize));
            assert(ps[1] == (1usize, 0usize));
            assert(ps[2] == (2usize, 1usize));
            assert(ps[3] == (3usize, 2usize));
        },
        PassingOrder::Hold => {},
    }
}

/// A resolved pass phase: player `k` handed the three distinct cards
/// `gifts[k]`, all drawn from its pre-pass hand, to player
/// `(k + shift) % 4`; no other card moved.
pub open spec fn passes_resolved(
    before: Seq<Player>,
    after: Seq<Player>,
    shift: int,
    gifts: Seq<Seq<Card>>,
) -> bool {
    &&& before.len() == 4
    &&& after.len() == 4
    &&& gifts.len() == 4
    &&& forall|k: int| 0 <= k < 4 ==> (#[trigger] gifts[k]).len() == 3
    &&& forall|k: int| 0 <= k < 4 ==> (#[trigger] gifts[k]).no_duplicates()
    &&& forall|k: int, c: Card|
        0 <= k < 4 && #[trigger] gifts[k].contains(c) ==> before[k].hand_seq().contains(c)
    &&& forall|i: int|
        0 <= i < 4 ==> (#[trigger] after[i]).hand_seq().to_multiset().add(
            gifts[i].to_multiset(),
        ) == before[i].hand_seq().to_multiset().add(gifts[(i + 4 - shift) % 4].to_multiset())
}

/// The rotation for a given cursor position.
pub fn passing_order_of(cursor: usize) -> (r: PassingOrder)
    requires
        cursor < 4,
    ensures
        r == passing_order_at(cursor as int),
{
    if cursor == 0 {
        PassingOrder::Right
    } else if cursor == 1 {
        PassingOrder::Across
    } else if cursor == 2 {
        PassingOrder::Left
    } else {
        PassingOrder::Hold
    }
}

/// Seat one player per name, in order, each with an empty hand and a zero
/// score.
fn seat_players(names: Vec<String>) -> (players: Vec<Player>)
    requires
        names@.len() == 4,
    ensures
        players@.len() == 4,
        forall|i: int|
            0 <= i < 4 ==> (#[trigger] players@[i]).name_str() == names@[i]
                && players@[i].hand_seq().len() == 0 && players@[i].score_val() == 0,
{
    let ghost orig = names@;
    let mut names = names;
    let mut players: Vec<Player> = Vec::new();
    let mut i: usize = 0;
    while i < 4
        invariant
            orig.len() == 4,
            0 <= i <= 4,
            names@ == orig.subrange(i as int, 4),
            players@.len() == i,
            forall|j: int|
                0 <= j < i ==> (#[trigger] players@[j]).name_str() == orig[j]
                    && players@[j].hand_seq().len() == 0 && players@[j].score_val() == 0,
        decreases 4 - i,
    {
        let name = names.remove(0);
        proof {
            assert(name == orig[i as int]);
            assert(orig.subrange(i as int, 4).remove(0) =~= orig.subrange(i + 1, 4));
        }
        players.push(Player::new(name));
        i = i + 1;
    }
    players
}

/// A well-formed pass selection: three distinct cards, all in the hand.
pub open spec fn gift_ok(gift: Seq<Card>, hand: Seq<Card>) -> bool {
    &&& gift.len() == 3
    &&& gift.no_duplicates()
    &&& forall|c: Card| gift.contains(c) ==> hand.contains(c)
}

/// Remove a validated three-card selection from a hand and hand it back.
fn remove_gift(p: &mut Player, choices: &Vec<Card>) -> (gift: Vec<Card>)
    requires
        gift_ok(choices@, old(p).hand_seq()),
    ensures
        gift@ == choices@,
        final(p).hand_seq().to_multiset().add(choices@.to_multiset()) == old(
            p,
        ).hand_seq().to_multiset(),
        final(p).hand_seq().len() + 3 == old(p).hand_seq().len(),
        final(p).score_val() == old(p).score_val(),
        final(p).name_str() == old(p).name_str(),
{
    broadcast use vstd::seq_lib::group_to_multiset_ensures;
    broadcast use vstd::multiset::group_multiset_axioms;

    let c0 = choices[0];
    let c1 = choices[1];
    let c2 = choices[2];
    proof {
        assert(choices@.contains(c0));
        assert(choices@.contains(c1));
        assert(choices@.contains(c2));
        assert(c0 != c1 && c0 != c2 && c1 != c2);
    }
    let r0 = p.place(&c0);
    proof {
        assert(r0 is Some);
        assert(p.hand_seq().to_multiset().count(c1) == old(p).hand_seq().to_multiset().count(c1));
        assert(p.hand_seq().contains(c1));
    }
    let r1 = p.place(&c1);
    proof {
        assert(r1 is Some);
        assert(p.hand_seq().to_multiset().count(c2) == old(p).hand_seq().to_multiset().count(c2));
        assert(p.hand_seq().contains(c2));
    }
    let r2 = p.place(&c2);
    proof {
        assert(r2 is Some);
        assert(choices@ =~= Seq::<Card>::empty().push(c0).push(c1).push(c2));
        assert(choices@.to_multiset() =~= Multiset::<Card>::empty().insert(c0).insert(c1).insert(
            c2,
        ));
        assert(p.hand_seq().to_multiset().add(choices@.to_multiset()) =~= old(
            p,
        ).hand_seq().to_multiset());
    }
    let mut gift: Vec<Card> = Vec::new();
    gift.push(c0);
    gift.push(c1);
    gift.push(c2);
    proof {
        assert(gift@ =~= choices@);
    }
    gift
}

impl<C: Controller> Game<C> {
    /// The pass phase of a round. All four selections are gathered and
    /// validated (three distinct cards, each in the giver's current hand)
    /// before any hand changes; then every giver loses its selection and
    /// every mapped receiver gains it. On a `Hold` rotation, or on any
    /// failure, no hand changes at all.
    pub fn pass_cards(&mut self, passing_order: &PassingOrder) -> (r: GameResult<()>)
        requires
            old(self).players_seq().len() == 4,
        ensures
            final(self).players_seq().len() == 4,
            final(self).deck_cards() == old(self).deck_cards(),
            final(self).cursor() == old(self).cursor(),
            forall|i: int|
                0 <= i < 4 ==> (#[trigger] final(self).players_seq()[i]).score_val() == old(
                    self,
                ).players_seq()[i].score_val(),
            forall|i: int|
                0 <= i < 4 ==> (#[trigger] final(self).players_seq()[i]).name_str() == old(
                    self,
                ).players_seq()[i].name_str(),
            match r {
                Ok(()) => match spec_passing_indices(*passing_order) {
                    None => forall|i: int|
                        0 <= i < 4 ==> (#[trigger] final(self).players_seq()[i]).hand_seq() == old(
                            self,
                        ).players_seq()[i].hand_seq(),
                    Some(_) => exists|gifts: Seq<Seq<Card>>|
                        passes_resolved(
                            old(self).players_seq(),
                            final(self).players_seq(),
                            pass_shift(*passing_order),
                            gifts,
                        ),
                },
                Err(e) => {
                    &&& e == GameError::PassError
                    &&& forall|i: int|
                        0 <= i < 4 ==> (#[trigger] final(self).players_seq()[i]).hand_seq() == old(
                            self,
                        ).players_seq()[i].hand_seq()
                },
            },
            r is Ok ==> forall|i: int|
                0 <= i < 4 ==> (#[trigger] final(self).players_seq()[i]).hand_seq().len() == old(
                    self,
                ).players_seq()[i].hand_seq().len(),
            r is Ok ==> hands_cards(final(self).players_seq()).to_multiset() == hands_cards(
                old(self).players_seq(),
            ).to_multiset(),
            spec_passing_indices(*passing_order) is None ==> r is Ok,
    {
        broadcast use vstd::seq_lib::group_to_multiset_ensures;
        broadcast use vstd::multiset::group_multiset_axioms;
        broadcast use vstd::seq_lib::lemma_multiset_commutative;

        let pairs = match passing_indices(passing_order) {
            None => {
                return Ok(());
            },
            Some(p) => p,
        };
        proof {
            lemma_passing_indices_shift(*passing_order);
        }
        let ghost shift = pass_shift(*passing_order);
        let ghost before = self.players@;

        // Gather and validate all four selections before touching any hand.
        let mut chosen: Vec<Vec<Card>> = Vec::new();
        let mut k: usize = 0;
        while k < 4
            invariant
                *self == *old(self),
                self.players@.len() == 4,
                spec_passing_indices(*passing_order) is Some,
                pairs@.len() == 4,
                forall|j: int|
                    0 <= j < 4 ==> #[trigger] pairs@[j] == (
                        j as usize,
                        ((j + shift) % 4) as usize,
                    ),
                0 <= shift < 4,
                0 <= k <= 4,
                chosen@.len() == k,
                forall|j: int|
                    0 <= j < k ==> gift_ok(
                        (#[trigger] chosen@[j])@,
                        self.players@[j].hand_seq(),
                    ),
            decreases 4 - k,
        {
            let giver = pairs[k].0;
            let receiver = pairs[k].1;
            let choices = match self.controller.get_cards_to_pass(
                &self.players[giver],
                &self.players[receiver],
            ) {
                Ok(choices) => choices,
                Err(_) => {
                    return Err(GameError::PassError);
                },
            };
            if choices.len() != 3 {
                return Err(GameError::PassError);
            }
            let c0 = choices[0];
            let c1 = choices[1];
            let c2 = choices[2];
            if c0 == c1 || c0 == c2 || c1 == c2 {
                return Err(GameError::PassError);
            }
            let hand = self.players[giver].hand();
            if !(crate::player::contains_card(hand, &c0) && crate::player::contains_card(hand, &c1)
                && crate::player::contains_card(hand, &c2)) {
                return Err(GameError::PassError);
            }
            proof {
                assert(choices@ =~= Seq::<Card>::empty().push(c0).push(c1).push(c2));
                assert forall|c: Card| choices@.contains(c) implies self.players@[k as int].hand_seq().contains(c) by {
                    let ix = choose|ix: int| 0 <= ix < 3 && choices@[ix] == c;
                }
                assert(choices@.no_duplicates());
            }
            chosen.push(choices);
            k = k + 1;
        }

        // Apply the removals: every giver loses its selection.
        let mut outgoing: Vec<Vec<Card>> = Vec::new();
        let mut k: usize = 0;
        while k < 4
            invariant
                self.players@.len() == 4,
                before.len() == 4,
                self.deck == old(self).deck,
                self.passing_cursor == old(self).passing_cursor,
                before == old(self).players@,
                chosen@.len() == 4,
                0 <= k <= 4,
                outgoing@.len() == k,
                forall|j: int| 0 <= j < k ==> (#[trigger] outgoing@[j])@ == chosen@[j]@,
                forall|j: int| k <= j < 4 ==> #[trigger] self.players@[j] == before[j],
                forall|j: int|
                    0 <= j < 4 ==> gift_ok((#[trigger] chosen@[j])@, before[j].hand_seq()),
                forall|j: int|
                    0 <= j < k ==> (#[trigger] self.players@[j]).hand_seq().to_multiset().add(
                        chosen@[j]@.to_multiset(),
                    ) == before[j].hand_seq().to_multiset(),
                forall|j: int|
                    0 <= j < k ==> (#[trigger] self.players@[j]).hand_seq().len() + 3 == before[j].hand_seq().len(),
                forall|j: int|
                    0 <= j < 4 ==> (#[trigger] self.players@[j]).score_val()
                        == before[j].score_val() && self.players@[j].name_str()
                        == before[j].name_str(),
            decreases 4 - k,
        {
            let choices = &chosen[k];
            let giver = &mut self.players[k];
            let gift = remove_gift(giver, choices);
            outgoing.push(gift);
            k = k + 1;
        }

        // Apply the gains: every receiver takes its mapped gift.
        let ghost mid = self.players@;
        let mut k: usize = 0;
        while k < 4
            invariant
                self.players@.len() == 4,
                mid.len() == 4,
                before.len() == 4,
                self.deck == old(self).deck,
                self.passing_cursor == old(self).passing_cursor,
                before == old(self).players@,
                pairs@.len() == 4,
                forall|j: int|
                    0 <= j < 4 ==> #[trigger] pairs@[j] == (
                        j as usize,
                        ((j + shift) % 4) as usize,
                    ),
                0 <= shift < 4,
                chosen@.len() == 4,
                0 <= k <= 4,
                outgoing@.len() == 4 - k,
                forall|j: int|
                    0 <= j < 4 - k ==> (#[trigger] outgoing@[j])@ == chosen@[j + k]@,
                forall|i: int|
                    0 <= i < 4 && (i + 4 - shift) % 4 < k ==> (#[trigger] self.players@[i]).hand_seq() == mid[i].hand_seq() + chosen@[(i + 4 - shift) % 4]@,
                forall|i: int|
                    0 <= i < 4 && (i + 4 - shift) % 4 >= k ==> #[trigger] self.players@[i] == mid[i],
                forall|j: int|
                    0 <= j < 4 ==> (#[trigger] self.players@[j]).score_val()
                        == mid[j].score_val() && self.players@[j].name_str() == mid[j].name_str(),
            decreases 4 - k,
        {
            let gift = outgoing.remove(0);
            let receiver_index = pairs[k].1;
            proof {
                assert(receiver_index == ((k + shift) % 4) as usize);
                assert((receiver_index + 4 - shift) % 4 == k);
            }
            let receiver = &mut self.players[receiver_index];
            receiver.take(gift);
            k = k + 1;
        }

        proof {
            let after = self.players@;
            let gifts = Seq::new(4, |j: int| chosen@[j]@);
            assert forall|i: int| 0 <= i < 4 implies (#[trigger] after[i]).hand_seq().to_multiset().add(
                gifts[i].to_multiset(),
            ) == before[i].hand_seq().to_multiset().add(
                gifts[(i + 4 - shift) % 4].to_multiset(),
            ) by {
                let s = (i + 4 - shift) % 4;
                assert(0 <= s < 4);
                assert(after[i].hand_seq() == mid[i].hand_seq() + chosen@[s]@);
                assert(after[i].hand_seq().to_multiset() == mid[i].hand_seq().to_multiset().add(
                    chosen@[s]@.to_multiset(),
                ));
                assert(mid[i].hand_seq().to_multiset().add(chosen@[i]@.to_multiset())
                    == before[i].hand_seq().to_multiset());
                assert(after[i].hand_seq().to_multiset().add(gifts[i].to_multiset()) =~= before[
                    i
                ].hand_seq().to_multiset().add(gifts[s].to_multiset()));
            }
            assert(passes_resolved(before, after, shift, gifts));
            assert(before == old(self).players_seq());
            assert(after == self.players_seq());
            assert(exists|g: Seq<Seq<Card>>|
                passes_resolved(
                    old(self).players_seq(),
                    self.players_seq(),
                    pass_shift(*passing_order),
                    g,
                ));
            assert forall|i: int| 0 <= i < 4 implies (#[trigger] after[i]).hand_seq().len()
                == before[i].hand_seq().len() by {
                let s = (i + 4 - shift) % 4;
                assert(after[i].hand_seq() == mid[i].hand_seq() + chosen@[s]@);
                assert(chosen@[s]@.len() == 3);
                assert(mid[i].hand_seq().len() + 3 == before[i].hand_seq().len());
            }
            assert(hands_cards(after).to_multiset() =~= hands_cards(before).to_multiset()) by {
                let a01 = after[0].hand_seq() + after[1].hand_seq();
                let a012 = a01 + after[2].hand_seq();
                let b01 = before[0].hand_seq() + before[1].hand_seq();
                let b012 = b01 + before[2].hand_seq();
                assert(hands_cards(after) == a012 + after[3].hand_seq());
                assert(hands_cards(before) == b012 + before[3].hand_seq());
                assert forall|i: int| 0 <= i < 4 implies forall|c: Card|
                    (#[trigger] after[i]).hand_seq().to_multiset().count(c) + chosen@[i]@.to_multiset().count(c)
                        == before[i].hand_seq().to_multiset().count(c) + chosen@[(i + 4 - shift) % 4]@.to_multiset().count(c) by {
                    let gifts2 = Seq::new(4, |j: int| chosen@[j]@);
                    assert(after[i].hand_seq().to_multiset().add(gifts2[i].to_multiset())
                        == before[i].hand_seq().to_multiset().add(gifts2[(i + 4 - shift) % 4].to_multiset()));
                    assert forall|c: Card| after[i].hand_seq().to_multiset().count(c) + chosen@[i]@.to_multiset().count(c)
                        == before[i].hand_seq().to_multiset().count(c) + chosen@[(i + 4 - shift) % 4]@.to_multiset().count(c) by {
                        assert(after[i].hand_seq().to_multiset().add(gifts2[i].to_multiset()).count(c)
                            == before[i].hand_seq().to_multiset().add(gifts2[(i + 4 - shift) % 4].to_multiset()).count(c));
                    }
                }
                assert forall|c: Card| hands_cards(after).to_multiset().count(c)
                    == hands_cards(before).to_multiset().count(c) by {
                    assert((0 + 4 - shift) % 4 == (4 - shift) % 4);
                    let s0 = (0 + 4 - shift) % 4;
                    let s1 = (1 + 4 - shift) % 4;
                    let s2 = (2 + 4 - shift) % 4;
                    let s3 = (3 + 4 - shift) % 4;
                    assert(seq![s0, s1, s2, s3].no_duplicates());
                    assert(chosen@[s0]@.to_multiset().count(c) + chosen@[s1]@.to_multiset().count(c)
                        + chosen@[s2]@.to_multiset().count(c) + chosen@[s3]@.to_multiset().count(c)
                        == chosen@[0]@.to_multiset().count(c) + chosen@[1]@.to_multiset().count(c)
                        + chosen@[2]@.to_multiset().count(c) + chosen@[3]@.to_multiset().count(c));
                }
            }
        }
        Ok(())
    }
}

/// A completed trick, seen from the engine: `played[k]` is the card played
/// by player `(start + k) % 4`, drawn from that player's hand; the winner
/// holds the best card of the led suit; the trick is worth the points of
/// the four cards; hearts appeared iff one of them is a heart.
pub open spec fn trick_played(
    before: Seq<Player>,
    after: Seq<Player>,
    start: int,
    played: Seq<Card>,
    w: usize,
    c: Card,
    pts: int,
    hp: bool,
) -> bool {
    let table = Seq::new(4, |k: int| ((((start + k) % 4) as usize), played[k]));
    &&& played.len() == 4
    &&& w < 4
    &&& forall|k: int|
        0 <= k < 4 ==> before[(start + k) % 4].hand_seq().contains(#[trigger] played[k])
    &&& forall|k: int|
        0 <= k < 4 ==> after[(start + k) % 4].hand_seq().to_multiset() == before[(start + k)
            % 4].hand_seq().to_multiset().remove(#[trigger] played[k])
    &&& forall|i: int|
        0 <= i < 4 ==> (#[trigger] after[i]).hand_seq().len() + 1 == before[i].hand_seq().len()
    &&& trick_wins(table, w, c)
    &&& pts == sum_points(played)
    &&& hp == exists|k: int| 0 <= k < 4 && (#[trigger] played[k]).suit == Suit::Hearts
}

/// What an aborted trick leaves behind: the plays already made persist,
/// so every hand either is untouched or lost exactly one card it held;
/// nothing else changed.
pub open spec fn at_most_one_card_played(before: Seq<Player>, after: Seq<Player>) -> bool {
    &&& after.len() == before.len()
    &&& forall|i: int|
        0 <= i < before.len() ==> ((#[trigger] after[i]).hand_seq() == before[i].hand_seq()
            || exists|c: Card|
                #[trigger] before[i].hand_seq().contains(c) && after[i].hand_seq().to_multiset()
                    == before[i].hand_seq().to_multiset().remove(c))
}

/// The plays of a cut-short trick leave each hand untouched or one held
/// card lighter.
proof fn lemma_turn_partial_hands(
    before: Seq<Player>,
    current: Seq<Player>,
    start: int,
    table: Seq<(usize, Card)>,
    k: int,
)
    requires
        before.len() == 4,
        current.len() == 4,
        0 <= start < 4,
        0 <= k <= 4,
        table.len() == k,
        forall|j: int|
            0 <= j < k ==> before[(start + j) % 4].hand_seq().contains((#[trigger] table[j]).1),
        forall|j: int|
            0 <= j < k ==> current[(start + j) % 4].hand_seq().to_multiset() == before[(start + j)
                % 4].hand_seq().to_multiset().remove((#[trigger] table[j]).1),
        forall|j: int|
            k <= j < 4 ==> #[trigger] current[(start + j) % 4] == before[(start + j) % 4],
    ensures
        at_most_one_card_played(before, current),
{
    assert forall|i: int|
        0 <= i < before.len() implies ((#[trigger] current[i]).hand_seq() == before[i].hand_seq()
            || exists|c: Card|
                #[trigger] before[i].hand_seq().contains(c) && current[i].hand_seq().to_multiset()
                    == before[i].hand_seq().to_multiset().remove(c)) by {
        let j = ((i - start) + 4) % 4;
        assert(0 <= j < 4 && (start + j) % 4 == i);
        if j < k {
            let c = table[j].1;
            assert(before[i].hand_seq().contains(c));
            assert(current[i].hand_seq().to_multiset() == before[i].hand_seq().to_multiset().remove(
                c,
            ));
        } else {
            assert(current[(start + j) % 4] == before[(start + j) % 4]);
        }
    }
}

/// Everything `turn` promises of a completed trick: some four played
/// cards form it, the hands lost exactly the trick's points, and the
/// points fit the four-card bound.
pub open spec fn turn_outcome(
    before: Seq<Player>,
    after: Seq<Player>,
    start: int,
    w: usize,
    c: Card,
    pts: int,
    hp: bool,
) -> bool {
    &&& exists|played: Seq<Card>| trick_played(before, after, start, played, w, c, pts, hp)
    &&& sum_points(hands_cards(after)) + pts == sum_points(hands_cards(before))
    &&& 0 <= pts <= 52
}

impl<C: Controller> Game<C> {
    /// One trick. Starting with `starting_index` and going clockwise, each
    /// player is asked for a card (checked against the hand: a card the
    /// player does not hold aborts with `TurnError`) and plays it onto the
    /// table; the table then resolves to its winner, the trick's points and
    /// whether hearts appeared.
    #[verifier::rlimit(60)]
    pub fn turn(
        &mut self,
        starting_index: usize,
        is_first_turn: bool,
        hearts_played_state: &HeartsPlayedState,
    ) -> (r: GameResult<(usize, Card, u8, bool)>)
        requires
            starting_index < 4,
            old(self).players_seq().len() == 4,
        ensures
            final(self).players_seq().len() == 4,
            final(self).deck_cards() == old(self).deck_cards(),
            final(self).cursor() == old(self).cursor(),
            forall|i: int|
                0 <= i < 4 ==> (#[trigger] final(self).players_seq()[i]).score_val() == old(
                    self,
                ).players_seq()[i].score_val(),
            forall|i: int|
                0 <= i < 4 ==> (#[trigger] final(self).players_seq()[i]).name_str() == old(
                    self,
                ).players_seq()[i].name_str(),
            match r {
                Ok((w, c, pts, hp)) => turn_outcome(
                    old(self).players_seq(),
                    final(self).players_seq(),
                    starting_index as int,
                    w,
                    c,
                    pts as int,
                    hp,
                ),
                Err(e) => {
                    &&& e == GameError::TurnError
                    &&& at_most_one_card_played(
                        old(self).players_seq(),
                        final(self).players_seq(),
                    )
                },
            },
    {
        broadcast use vstd::seq_lib::group_to_multiset_ensures;
        broadcast use vstd::multiset::group_multiset_axioms;
        broadcast use vstd::seq_lib::lemma_multiset_commutative;

        let ghost before = self.players@;
        let order = round_order(starting_index);
        let mut table: Vec<(usize, Card)> = Vec::new();
        let mut is_first_move = is_first_turn;
        let mut k: usize = 0;
        while k < 4
            invariant
                self.players@.len() == 4,
                before.len() == 4,
                before == old(self).players@,
                self.deck == old(self).deck,
                self.passing_cursor == old(self).passing_cursor,
                starting_index < 4,
                order@.len() == 4,
                forall|j: int| 0 <= j < 4 ==> #[trigger] order@[j] == (starting_index + j) % 4,
                0 <= k <= 4,
                table@.len() == k,
                forall|j: int|
                    0 <= j < k ==> (#[trigger] table@[j]).0 == order@[j],
                forall|j: int|
                    0 <= j < k ==> before[(starting_index + j) % 4].hand_seq().contains(
                        (#[trigger] table@[j]).1,
                    ),
                forall|j: int|
                    0 <= j < k ==> self.players@[(starting_index + j) % 4].hand_seq().to_multiset()
                        == before[(starting_index + j) % 4].hand_seq().to_multiset().remove(
                        (#[trigger] table@[j]).1,
                    ) && self.players@[(starting_index + j) % 4].hand_seq().len() + 1 == before[(
                        starting_index + j) % 4].hand_seq().len(),
                forall|j: int|
                    k <= j < 4 ==> #[trigger] self.players@[(starting_index + j) % 4] == before[(
                    starting_index + j) % 4],
                forall|i: int|
                    0 <= i < 4 ==> (#[trigger] self.players@[i]).score_val()
                        == before[i].score_val() && self.players@[i].name_str()
                        == before[i].name_str(),
            decreases 4 - k,
        {
            let ghost iter_players = self.players@;
            let idx = order[k];
            let choice = match self.controller.get_card_to_place(
                &self.players[idx],
                &table,
                is_first_move,
                hearts_played_state,
            ) {
                Ok(choice) => choice,
                Err(_) => {
                    proof {
                        lemma_turn_partial_hands(
                            before,
                            self.players@,
                            starting_index as int,
                            table@,
                            k as int,
                        );
                        assert(at_most_one_card_played(
                            old(self).players_seq(),
                            self.players_seq(),
                        ));
                    }
                    return Err(GameError::TurnError);
                },
            };
            let player = &mut self.players[idx];
            let placed = match player.place(&choice) {
                Some(placed) => placed,
                None => {
                    proof {
                        assert forall|x: int| 0 <= x < 4 implies #[trigger] self.players@[x]
                            == iter_players[x] by {}
                        assert(self.players@ =~= iter_players);
                        lemma_turn_partial_hands(
                            before,
                            self.players@,
                            starting_index as int,
                            table@,
                            k as int,
                        );
                        assert(at_most_one_card_played(
                            old(self).players_seq(),
                            self.players_seq(),
                        ));
                    }
                    return Err(GameError::TurnError);
                },
            };
            table.push((idx, placed));
            proof {
                assert forall|j: int|
                    k + 1 <= j < 4 implies #[trigger] self.players@[(starting_index + j) % 4]
                    == before[(starting_index + j) % 4] by {
                    assert((starting_index + j) % 4 != (starting_index + k) % 4);
                }
            }
            is_first_move = false;
            k = k + 1;
        }
        let winner = resolve_trick(&table);
        let pts = trick_points(&table);
        let hearts = table_hearts(&table);
        proof {
            let played = table@.map_values(|p: (usize, Card)| p.1);
            let start = starting_index as int;
            assert(table@ =~= Seq::new(4, |j: int| ((((start + j) % 4) as usize), played[j])));
            assert(table@.contains((winner.0, winner.1)));
            let wj = choose|wj: int| 0 <= wj < 4 && table@[wj] == (winner.0, winner.1);
            assert(winner.0 == order@[wj]);
            assert(winner.0 < 4);
            assert(table_cards(table@) == played);
            assert forall|j: int| 0 <= j < 4 implies (#[trigger] played[j]) == table@[j].1 by {}
            if hearts {
                let j = choose|j: int|
                    0 <= j < table@.len() && (#[trigger] table@[j]).1.suit == Suit::Hearts;
                assert(played[j].suit == Suit::Hearts);
            }
            if exists|j: int| 0 <= j < 4 && (#[trigger] played[j]).suit == Suit::Hearts {
                let j = choose|j: int| 0 <= j < 4 && (#[trigger] played[j]).suit == Suit::Hearts;
                assert(table@[j].1.suit == Suit::Hearts);
                assert(table_has_hearts(table@));
            }
            assert(hearts == exists|j: int|
                0 <= j < 4 && (#[trigger] played[j]).suit == Suit::Hearts);
            assert forall|j: int| 0 <= j < 4 implies before[(start + j) % 4].hand_seq().contains(
                #[trigger] played[j],
            ) by {
                assert(played[j] == (#[trigger] table@[j]).1);
            }
            assert forall|j: int| 0 <= j < 4 implies self.players@[(start + j)
                % 4].hand_seq().to_multiset() == before[(start + j)
                % 4].hand_seq().to_multiset().remove(#[trigger] played[j]) by {
                assert(played[j] == (#[trigger] table@[j]).1);
            }
            assert forall|i: int| 0 <= i < 4 implies (#[trigger] self.players@[i]).hand_seq().len()
                + 1 == before[i].hand_seq().len() by {
                let j = ((i - start) + 4) % 4;
                assert(0 <= j < 4 && (start + j) % 4 == i);
                assert(played[j] == (#[trigger] table@[j]).1);
            }
            assert(trick_played(
                before,
                self.players@,
                start,
                played,
                winner.0,
                winner.1,
                pts as int,
                hearts,
            ));
            lemma_turn_hand_sums(before, self.players@, start, played);
            assert(before == old(self).players_seq());
            assert(self.players@ == self.players_seq());
            assert(trick_played(
                old(self).players_seq(),
                self.players_seq(),
                start,
                played,
                winner.0,
                winner.1,
                pts as int,
                hearts,
            ));
            assert(exists|p2: Seq<Card>|
                trick_played(
                    old(self).players_seq(),
                    self.players_seq(),
                    start,
                    p2,
                    winner.0,
                    winner.1,
                    pts as int,
                    hearts,
                ));
            assert(turn_outcome(
                old(self).players_seq(),
                self.players_seq(),
                start,
                winner.0,
                winner.1,
                pts as int,
                hearts,
            ));
        }
        Ok((winner.0, winner.1, pts, hearts))
    }
}

/// Summing hands before and after a trick: the four removed cards carry
/// exactly the trick's points out of the hands.
proof fn lemma_turn_hand_sums(before: Seq<Player>, after: Seq<Player>, start: int, played: Seq<Card>)
    requires
        before.len() == 4,
        after.len() == 4,
        0 <= start < 4,
        played.len() == 4,
        forall|k: int|
            0 <= k < 4 ==> before[(start + k) % 4].hand_seq().contains(#[trigger] played[k]),
        forall|k: int|
            0 <= k < 4 ==> after[(start + k) % 4].hand_seq().to_multiset() == before[(start + k)
                % 4].hand_seq().to_multiset().remove(#[trigger] played[k]),
    ensures
        sum_points(hands_cards(after)) + sum_points(played) == sum_points(hands_cards(before)),
{
    broadcast use vstd::seq_lib::group_to_multiset_ensures;
    broadcast use vstd::multiset::group_multiset_axioms;

    assert forall|k: int| 0 <= k < 4 implies sum_points(
        after[(start + k) % 4].hand_seq(),
    ) + card_points(#[trigger] played[k]) == sum_points(before[(start + k) % 4].hand_seq()) by {
        let i = (start + k) % 4;
        assert(before[i].hand_seq().to_multiset().contains(played[k]));
        crate::card::lemma_sum_points_multiset_remove(
            before[i].hand_seq(),
            after[i].hand_seq(),
            played[k],
        );
    }
    let k0 = ((0 - start) + 4) % 4;
    let k1 = ((1 - start) + 4) % 4;
    let k2 = ((2 - start) + 4) % 4;
    let k3 = ((3 - start) + 4) % 4;
    assert((start + k0) % 4 == 0 && (start + k1) % 4 == 1 && (start + k2) % 4 == 2 && (start + k3)
        % 4 == 3);
    assert(sum_points(after[0].hand_seq()) + card_points(played[k0]) == sum_points(
        before[0].hand_seq(),
    ));
    assert(sum_points(after[1].hand_seq()) + card_points(played[k1]) == sum_points(
        before[1].hand_seq(),
    ));
    assert(sum_points(after[2].hand_seq()) + card_points(played[k2]) == sum_points(
        before[2].hand_seq(),
    ));
    assert(sum_points(after[3].hand_seq()) + card_points(played[k3]) == sum_points(
        before[3].hand_seq(),
    ));
    assert(card_points(played[k0]) + card_points(played[k1]) + card_points(played[k2])
        + card_points(played[k3]) == card_points(played[0]) + card_points(played[1]) + card_points(
        played[2],
    ) + card_points(played[3])) by {
        assert(seq![k0, k1, k2, k3].no_duplicates());
    }
    assert(sum_points(played) == card_points(played[0]) + card_points(played[1]) + card_points(
        played[2],
    ) + card_points(played[3])) by {
        let d1 = played.drop_first();
        let d2 = d1.drop_first();
        let d3 = d2.drop_first();
        assert(d3.drop_first() =~= Seq::<Card>::empty());
        assert(d1[0] == played[1] && d2[0] == played[2] && d3[0] == played[3]);
        assert(sum_points(played) == card_points(played[0]) + sum_points(d1));
        assert(sum_points(d1) == card_points(d1[0]) + sum_points(d2));
        assert(sum_points(d2) == card_points(d2[0]) + sum_points(d3));
        assert(sum_points(d3) == card_points(d3[0]) + sum_points(d3.drop_first()));
        assert(sum_points(d3.drop_first()) == 0);
    }
    lemma_hands_sum_split(before);
    lemma_hands_sum_split(after);
}

/// The points of four hands together are the four hands' points added up.
proof fn lemma_hands_sum_split(players: Seq<Player>)
    requires
        players.len() == 4,
    ensures
        sum_points(hands_cards(players)) == sum_points(players[0].hand_seq()) + sum_points(
            players[1].hand_seq(),
        ) + sum_points(players[2].hand_seq()) + sum_points(players[3].hand_seq()),
{
    let h01 = players[0].hand_seq() + players[1].hand_seq();
    let h012 = h01 + players[2].hand_seq();
    crate::card::lemma_sum_points_concat(players[0].hand_seq(), players[1].hand_seq());
    crate::card::lemma_sum_points_concat(h01, players[2].hand_seq());
    crate::card::lemma_sum_points_concat(h012, players[3].hand_seq());
}

/// A completed round's scoring, over the round's per-player trick totals
/// `t` (they carry exactly the round's 26 penalty points) and the hearts
/// state `state` the round ended with. When that state says a single
/// player took every heart-bearing trick, the shooter gains nothing and
/// the other three gain 26 each; otherwise each player gains exactly its
/// own total.
pub open spec fn round_scored(
    before: Seq<Player>,
    after: Seq<Player>,
    state: HeartsPlayedState,
    t: Seq<u8>,
) -> bool {
    &&& t.len() == 4
    &&& t[0] + t[1] + t[2] + t[3] == 26
    &&& match state {
        HeartsPlayedState::HeartsPlayedOne(shooter) => shooter < 4 && moon_scored(
            before,
            after,
            shooter as int,
        ),
        _ => forall|i: int|
            0 <= i < 4 ==> (#[trigger] after[i]).score_val() == before[i].score_val() + t[i],
    }
}

/// A moon shot scored: the shooter gained nothing and each other player
/// gained the whole 26-point penalty.
pub open spec fn moon_scored(before: Seq<Player>, after: Seq<Player>, shooter: int) -> bool {
    forall|i: int|
        0 <= i < 4 ==> (#[trigger] after[i]).score_val() == before[i].score_val() + (if i
            == shooter {
            0int
        } else {
            26int
        })
}

/// A partitioned table of hands holds the two of clubs somewhere.
proof fn lemma_partition_has_two_of_clubs(players: Seq<Player>)
    requires
        players.len() == 4,
        hands_partition_deck(players),
    ensures
        exists|i: int| 0 <= i < 4 && (#[trigger] players[i]).hand_seq().contains(two_of_clubs()),
{
    broadcast use vstd::seq_lib::group_to_multiset_ensures;
    broadcast use vstd::multiset::group_multiset_axioms;

    let c = two_of_clubs();
    crate::deck::lemma_full_deck_complete();
    assert(full_deck().contains(c));
    assert(full_deck().to_multiset().count(c) > 0);
    let s = hands_cards(players);
    assert(s.to_multiset().count(c) > 0);
    assert(s.contains(c));
    let pos = choose|p: int| 0 <= p < s.len() && s[p] == c;
    let h0 = players[0].hand_seq();
    let h1 = players[1].hand_seq();
    let h2 = players[2].hand_seq();
    let h3 = players[3].hand_seq();
    if pos < h0.len() {
        assert(h0[pos] == c);
        assert(players[0].hand_seq().contains(c));
    } else if pos < h0.len() + h1.len() {
        assert(h1[pos - h0.len()] == c);
        assert(players[1].hand_seq().contains(c));
    } else if pos < h0.len() + h1.len() + h2.len() {
        assert(h2[pos - h0.len() - h1.len()] == c);
        assert(players[2].hand_seq().contains(c));
    } else {
        assert(h3[pos - h0.len() - h1.len() - h2.len()] == c);
        assert(players[3].hand_seq().contains(c));
    }
}

/// The index of a player holding the two of clubs, scanning from seat 0.
fn find_starter(players: &Vec<Player>) -> (r: Option<usize>)
    requires
        players@.len() == 4,
    ensures
        match r {
            Some(i) => i < 4 && players@[i as int].hand_seq().contains(two_of_clubs()),
            None => forall|i: int|
                0 <= i < 4 ==> !(#[trigger] players@[i]).hand_seq().contains(two_of_clubs()),
        },
{
    let mut i: usize = 0;
    while i < 4
        invariant
            players@.len() == 4,
            0 <= i <= 4,
            forall|j: int|
                0 <= j < i ==> !(#[trigger] players@[j]).hand_seq().contains(two_of_clubs()),
        decreases 4 - i,
    {
        if players[i].has_two_of_clubs() {
            return Some(i);
        }
        i = i + 1;
    }
    None
}

impl<C: Controller> Game<C> {
    /// One full round: deal, advance the rotation and pass, play the 13
    /// tricks from the two-of-clubs holder on, then score. With no moon
    /// shot, every player gains exactly its own trick points and the four
    /// gains total 26; when a single player took every heart-bearing trick,
    /// that player gains nothing and the other three gain 26 each. Returns
    /// the highest accumulated score.
    #[verifier::rlimit(60)]
    pub fn round(&mut self) -> (r: GameResult<u8>)
        requires
            old(self).wf(),
            forall|i: int|
                0 <= i < 4 ==> (#[trigger] old(self).players_seq()[i]).hand_seq().len() == 0,
            forall|i: int|
                0 <= i < 4 ==> (#[trigger] old(self).players_seq()[i]).score_val() + 26
                    <= u8::MAX,
        ensures
            final(self).wf(),
            final(self).cursor() == (old(self).cursor() + 1) % 4,
            forall|i: int|
                0 <= i < 4 ==> (#[trigger] final(self).players_seq()[i]).name_str() == old(
                    self,
                ).players_seq()[i].name_str(),
            forall|i: int|
                0 <= i < 4 ==> (#[trigger] final(self).players_seq()[i]).score_val() >= old(
                    self,
                ).players_seq()[i].score_val(),
            match r {
                Ok(m) => {
                    &&& forall|i: int|
                        0 <= i < 4 ==> (#[trigger] final(self).players_seq()[i]).hand_seq().len()
                            == 0
                    &&& exists|i: int|
                        0 <= i < 4 && (#[trigger] final(self).players_seq()[i]).score_val() == m
                    &&& forall|i: int|
                        0 <= i < 4 ==> (#[trigger] final(self).players_seq()[i]).score_val() <= m
                    &&& round_scored(
                        old(self).players_seq(),
                        final(self).players_seq(),
                        final(self).hearts_played_state(),
                        final(self).round_totals(),
                    )
                },
                Err(e) => {
                    &&& (e == GameError::PassError || e == GameError::TurnError)
                    &&& forall|i: int|
                        0 <= i < 4 ==> (#[trigger] final(self).players_seq()[i]).score_val()
                            == old(self).players_seq()[i].score_val()
                },
            },
    {
        broadcast use vstd::seq_lib::group_to_multiset_ensures;
        broadcast use vstd::multiset::group_multiset_axioms;
        broadcast use vstd::seq_lib::lemma_multiset_commutative;

        let ghost entry = self.players@;

        // Deal: every hand becomes one 13-card block of the shuffled deck.
        proof {
            assert(self.deck.cards_seq().to_multiset().len() == 52);
        }
        self.deck.deal(&mut self.players);
        proof {
            let dk = self.deck.cards_seq();
            let b0 = dk.subrange(0, 13);
            let b1 = dk.subrange(13, 26);
            let b2 = dk.subrange(26, 39);
            let b3 = dk.subrange(39, 52);
            assert(self.players@[0].hand_seq() =~= b0);
            assert(self.players@[1].hand_seq() =~= b1);
            assert(self.players@[2].hand_seq() =~= b2);
            assert(self.players@[3].hand_seq() =~= b3);
            assert(hands_cards(self.players@) =~= dk);
            assert(hands_partition_deck(self.players@));
            assert(self.players@[0].hand_seq().len() == 13);
            assert(self.players@[1].hand_seq().len() == 13);
            assert(self.players@[2].hand_seq().len() == 13);
            assert(self.players@[3].hand_seq().len() == 13);
        }

        // Advance the rotation and pass.
        let order = passing_order_of(self.passing_cursor);
        self.passing_cursor = (self.passing_cursor + 1) % 4;
        self.controller.display_passing_order(&order);
        match self.pass_cards(&order) {
            Ok(()) => {},
            Err(e) => {
                return Err(e);
            },
        }
        proof {
            assert(hands_partition_deck(self.players@));
            assert forall|i: int| 0 <= i < 4 implies (
            #[trigger] self.players@[i]).hand_seq().len() == 13 by {}
            assert forall|i: int| 0 <= i < 4 implies (#[trigger] self.players@[i]).score_val()
                == entry[i].score_val() && self.players@[i].name_str() == entry[i].name_str() by {}
        }

        self.controller.display_round_start();

        // The two-of-clubs holder leads the first trick.
        let mut starting_index = match find_starter(&self.players) {
            Some(i) => i,
            None => {
                proof {
                    lemma_partition_has_two_of_clubs(self.players@);
                    assert(false);
                }
                return Err(GameError::TurnError);
            },
        };

        let ghost post_pass = self.players@;
        let mut hearts_state = HeartsPlayedState::NoHeartsPlayed;
        let mut s0: u8 = 0;
        let mut s1: u8 = 0;
        let mut s2: u8 = 0;
        let mut s3: u8 = 0;
        let mut t: usize = 1;
        proof {
            crate::card::lemma_sum_points_permutation(hands_cards(self.players@), full_deck());
            crate::deck::lemma_full_deck_points();
            assert(sum_points(hands_cards(self.players@)) == 26);
        }
        while t <= 13
            invariant
                self.players@.len() == 4,
                self.deck.cards_seq().to_multiset() == full_deck().to_multiset(),
                self.passing_cursor == (old(self).passing_cursor + 1) % 4,
                starting_index < 4,
                1 <= t <= 14,
                s0 as int + s1 as int + s2 as int + s3 as int + sum_points(
                    hands_cards(self.players@),
                ) == 26,
                0 <= sum_points(hands_cards(self.players@)),
                forall|i: int|
                    0 <= i < 4 ==> (#[trigger] self.players@[i]).hand_seq().len() == 14 - t,
                post_pass.len() == 4,
                entry.len() == 4,
                entry == old(self).players_seq(),
                forall|i: int|
                    0 <= i < 4 ==> (#[trigger] post_pass[i]).score_val() == entry[i].score_val()
                        && post_pass[i].name_str() == entry[i].name_str(),
                forall|i: int|
                    0 <= i < 4 ==> (#[trigger] self.players@[i]).score_val() == post_pass[
                        i
                    ].score_val() && self.players@[i].name_str() == post_pass[i].name_str(),
                match hearts_state {
                    HeartsPlayedState::HeartsPlayedOne(p) => p < 4,
                    _ => true,
                },
            decreases 14 - t,
        {
            let ghost pre = self.players@;
            let outcome = match self.turn(starting_index, t == 1, &hearts_state) {
                Ok(outcome) => outcome,
                Err(e) => {
                    proof {
                        assert(entry == old(self).players_seq());
                        assert forall|i: int| 0 <= i < 4 implies (
                        #[trigger] self.players_seq()[i]).score_val() == entry[i].score_val()
                            && self.players_seq()[i].name_str() == entry[i].name_str() by {
                            assert(self.players_seq()[i].score_val() == pre[i].score_val());
                            assert(self.players_seq()[i].name_str() == pre[i].name_str());
                            assert(pre[i].score_val() == post_pass[i].score_val());
                            assert(pre[i].name_str() == post_pass[i].name_str());
                        }
                    }
                    return Err(e);
                },
            };
            let (w, wc, pts, hp) = outcome;
            proof {
                let played = choose|played: Seq<Card>|
                    trick_played(
                        pre,
                        self.players@,
                        starting_index as int,
                        played,
                        w,
                        wc,
                        pts as int,
                        hp,
                    );
                assert(trick_played(
                    pre,
                    self.players@,
                    starting_index as int,
                    played,
                    w,
                    wc,
                    pts as int,
                    hp,
                ));
            }
            hearts_state = hearts_transition(hearts_state, w, hp);
            self.controller.display_winner(&self.players[w], wc, pts);
            proof {
                crate::card::lemma_sum_points_nonneg(hands_cards(self.players@));
            }
            if w == 0 {
                s0 = s0 + pts;
            } else if w == 1 {
                s1 = s1 + pts;
            } else if w == 2 {
                s2 = s2 + pts;
            } else {
                s3 = s3 + pts;
            }
            starting_index = w;
            t = t + 1;
        }
        self.hearts_state = hearts_state;
        let mut round_points: Vec<u8> = Vec::new();
        round_points.push(s0);
        round_points.push(s1);
        round_points.push(s2);
        round_points.push(s3);
        self.round_points = round_points;
        proof {
            assert(self.round_points@ =~= seq![s0, s1, s2, s3]);
            assert(hands_cards(self.players@).len() == 0);
            assert(sum_points(hands_cards(self.players@)) == 0);
            assert(s0 as int + s1 as int + s2 as int + s3 as int == 26);
        }

        // Score: a lone heart-taker shifts the whole penalty to the others.
        match hearts_state {
            HeartsPlayedState::HeartsPlayedOne(shooter) => {
                let mut i: usize = 0;
                while i < 4
                    invariant
                        self.players@.len() == 4,
                        self.deck.cards_seq().to_multiset() == full_deck().to_multiset(),
                        self.passing_cursor == (old(self).passing_cursor + 1) % 4,
                        self.hearts_state == hearts_state,
                        self.round_points@ == seq![s0, s1, s2, s3],
                        hearts_state == HeartsPlayedState::HeartsPlayedOne(shooter),
                        shooter < 4,
                        0 <= i <= 4,
                        forall|j: int|
                            0 <= j < 4 ==> (#[trigger] self.players@[j]).hand_seq().len() == 0,
                        post_pass.len() == 4,
                        entry.len() == 4,
                        entry == old(self).players_seq(),
                        forall|j: int|
                            0 <= j < 4 ==> (#[trigger] self.players@[j]).name_str() == post_pass[
                                j
                            ].name_str(),
                        forall|j: int|
                            0 <= j < 4 ==> (#[trigger] post_pass[j]).score_val() == entry[
                                j
                            ].score_val() && post_pass[j].name_str() == entry[j].name_str(),
                        forall|j: int|
                            0 <= j < 4 ==> (#[trigger] post_pass[j]).score_val() + 26 <= u8::MAX,
                        forall|j: int|
                            0 <= j < i ==> (#[trigger] self.players@[j]).score_val()
                                == post_pass[j].score_val() + (if j == shooter as int {
                                0int
                            } else {
                                26int
                            }),
                        forall|j: int|
                            i <= j < 4 ==> (#[trigger] self.players@[j]).score_val() == post_pass[
                                j
                            ].score_val(),
                    decreases 4 - i,
                {
                    if i != shooter {
                        let p = &mut self.players[i];
                        p.add_score(26);
                    }
                    i = i + 1;
                }
                proof {
                    assert(moon_scored(entry, self.players@, shooter as int));
                    assert(round_scored(entry, self.players@, hearts_state, self.round_points@));
                }
            },
            _ => {
                let p0 = &mut self.players[0];
                p0.add_score(s0);
                let p1 = &mut self.players[1];
                p1.add_score(s1);
                let p2 = &mut self.players[2];
                p2.add_score(s2);
                let p3 = &mut self.players[3];
                p3.add_score(s3);
                proof {
                    assert(self.players@[0].score_val() == entry[0].score_val() + s0 as int);
                    assert(self.players@[1].score_val() == entry[1].score_val() + s1 as int);
                    assert(self.players@[2].score_val() == entry[2].score_val() + s2 as int);
                    assert(self.players@[3].score_val() == entry[3].score_val() + s3 as int);
                    let t = self.round_points@;
                    assert forall|i: int| 0 <= i < 4 implies (
                    #[trigger] self.players@[i]).score_val() == entry[i].score_val() + t[i] by {}
                    assert(round_scored(entry, self.players@, hearts_state, t));
                }
            },
        }
        self.controller.display_scores(&self.players);
        proof {
            assert(entry == old(self).players_seq());
            assert(self.hearts_played_state() == hearts_state);
            assert(round_scored(
                old(self).players_seq(),
                self.players_seq(),
                self.hearts_played_state(),
                self.round_totals(),
            ));
            assert forall|i: int| 0 <= i < 4 implies (#[trigger] self.players@[i]).hand_seq().len()
                == 0 by {}
            assert forall|i: int| 0 <= i < 4 implies (#[trigger] self.players@[i]).score_val()
                >= entry[i].score_val() by {}
        }
        let m = self.max_score();
        Ok(m)
    }
}

/// How far the hearts state has progressed; it only ever moves forward.
pub open spec fn hearts_state_level(state: HeartsPlayedState) -> int {
    match state {
        HeartsPlayedState::NoHeartsPlayed => 0,
        HeartsPlayedState::HeartsPlayedOne(_) => 1,
        HeartsPlayedState::HeartsPlayedMany => 2,
    }
}

/// The hearts state never reverts within a round, and the exclusive state
/// stays keyed to one player: it only ever follows that same player or
/// gives way to `HeartsPlayedMany`.
pub proof fn lemma_hearts_transition_monotonic(
    state: HeartsPlayedState,
    winner: usize,
    hearts_played: bool,
)
    ensures
        hearts_state_level(spec_hearts_transition(state, winner, hearts_played))
            >= hearts_state_level(state),
        forall|p: usize|
            state == HeartsPlayedState::HeartsPlayedOne(p) ==> (spec_hearts_transition(
                state,
                winner,
                hearts_played,
            ) == HeartsPlayedState::HeartsPlayedOne(p) || spec_hearts_transition(
                state,
                winner,
                hearts_played,
            ) == HeartsPlayedState::HeartsPlayedMany),
{
}

} // verus!
