use std::cell::RefCell;

use hearts::card::{Card, Rank, Suit};
use hearts::controller::{Controller, ControllerError, ControllerResult};
use hearts::deck::Deck;
use hearts::game::{
    legal_cards, passing_indices, resolve_trick, round_order, table_hearts, trick_points,
    hearts_transition, Game, GameError, HeartsPlayedState, PassingOrder,
};
use hearts::player::Player;

fn card(rank: Rank, suit: Suit) -> Card {
    Card::new(rank, suit)
}

fn all_ranks() -> Vec<Rank> {
    vec![
        Rank::Two,
        Rank::Three,
        Rank::Four,
        Rank::Five,
        Rank::Six,
        Rank::Seven,
        Rank::Eight,
        Rank::Nine,
        Rank::Ten,
        Rank::Jack,
        Rank::Queen,
        Rank::King,
        Rank::Ace,
    ]
}

fn all_suits() -> Vec<Suit> {
    vec![Suit::Hearts, Suit::Clubs, Suit::Diamonds, Suit::Spades]
}

#[test]
fn card_scores() {
    assert_eq!(card(Rank::Queen, Suit::Spades).score(), 13);
    assert_eq!(card(Rank::Two, Suit::Hearts).score(), 1);
    assert_eq!(card(Rank::Ace, Suit::Hearts).score(), 1);
    assert_eq!(card(Rank::Queen, Suit::Hearts).score(), 1);
    assert_eq!(card(Rank::Queen, Suit::Clubs).score(), 0);
    assert_eq!(card(Rank::Ace, Suit::Spades).score(), 0);
}

#[test]
fn card_predicates() {
    assert!(card(Rank::Two, Suit::Clubs).is_two_of_clubs());
    assert!(!card(Rank::Two, Suit::Spades).is_two_of_clubs());
    assert!(!card(Rank::Three, Suit::Clubs).is_two_of_clubs());
    assert!(card(Rank::Nine, Suit::Hearts).is_hearts());
    assert!(!card(Rank::Nine, Suit::Diamonds).is_hearts());
}

#[test]
fn card_order_ignores_suit() {
    assert!(card(Rank::King, Suit::Hearts).beats(&card(Rank::Queen, Suit::Spades)));
    assert!(!card(Rank::Queen, Suit::Spades).beats(&card(Rank::King, Suit::Hearts)));
    // equal ranks of different suits compare equal: neither beats the other
    assert!(!card(Rank::Seven, Suit::Clubs).beats(&card(Rank::Seven, Suit::Hearts)));
    assert!(!card(Rank::Seven, Suit::Hearts).beats(&card(Rank::Seven, Suit::Clubs)));
}

#[test]
fn full_deck_has_26_points_and_52_distinct_cards() {
    let mut deck = Deck::new();
    let mut players = vec![
        Player::new("a".to_string()),
        Player::new("b".to_string()),
        Player::new("c".to_string()),
        Player::new("d".to_string()),
    ];
    deck.deal(&mut players);
    let mut seen: Vec<Card> = Vec::new();
    let mut points: u32 = 0;
    for p in &players {
        assert_eq!(p.hand().len(), 13);
        for c in p.hand().iter() {
            assert!(!seen.contains(c), "dealt twice: {:?}", c);
            seen.push(*c);
            points += c.score() as u32;
        }
    }
    assert_eq!(seen.len(), 52);
    assert_eq!(points, 26);
    for r in all_ranks() {
        for s in all_suits() {
            assert!(seen.contains(&card(r, s)));
        }
    }
}

#[test]
fn deal_refills_reused_deck() {
    let mut deck = Deck::new();
    let mut players = vec![
        Player::new("a".to_string()),
        Player::new("b".to_string()),
        Player::new("c".to_string()),
        Player::new("d".to_string()),
    ];
    deck.deal(&mut players);
    for p in &mut players {
        let hand: Vec<Card> = p.hand().clone();
        for c in hand {
            p.place(&c);
        }
        assert_eq!(p.hand().len(), 0);
    }
    deck.deal(&mut players);
    for p in &players {
        assert_eq!(p.hand().len(), 13);
    }
}

#[test]
fn player_take_place_and_accessors() {
    let mut p = Player::new("n".to_string());
    assert_eq!(p.hand().len(), 0);
    assert_eq!(p.score(), 0);
    p.take(vec![card(Rank::Two, Suit::Clubs), card(Rank::Ace, Suit::Hearts)]);
    assert_eq!(p.hand().len(), 2);
    assert!(p.has_two_of_clubs());
    let got = p.place(&card(Rank::Two, Suit::Clubs));
    assert_eq!(got, Some(card(Rank::Two, Suit::Clubs)));
    assert!(!p.has_two_of_clubs());
    assert_eq!(p.hand().len(), 1);
    // a card not in the hand is refused and nothing changes
    assert_eq!(p.place(&card(Rank::Five, Suit::Spades)), None);
    assert_eq!(p.hand().len(), 1);
}

#[test]
fn player_add_score_accumulates() {
    let mut p = Player::new("n".to_string());
    p.add_score(13);
    p.add_score(13);
    assert_eq!(p.score(), 26);
}

#[test]
fn player_pass_partitions_hand() {
    let mut p = Player::new("n".to_string());
    let keep1 = card(Rank::Four, Suit::Diamonds);
    let give1 = card(Rank::Queen, Suit::Spades);
    let give2 = card(Rank::Nine, Suit::Hearts);
    let keep2 = card(Rank::Ace, Suit::Clubs);
    p.take(vec![keep1, give1, give2, keep2]);
    let passed = p.pass(&vec![give1, give2]);
    assert_eq!(passed, vec![give1, give2]);
    assert_eq!(p.hand().clone(), vec![keep1, keep2]);
}

#[test]
fn score_and_hand_accessors_are_idempotent() {
    let mut p = Player::new("n".to_string());
    p.take(vec![card(Rank::Jack, Suit::Clubs)]);
    p.add_score(7);
    let h1 = p.hand().clone();
    let h2 = p.hand().clone();
    let s1 = p.score();
    let s2 = p.score();
    assert_eq!(h1, h2);
    assert_eq!(s1, s2);
}

#[test]
fn first_move_allows_only_two_of_clubs() {
    let hand = vec![
        card(Rank::Nine, Suit::Hearts),
        card(Rank::Two, Suit::Clubs),
        card(Rank::Ace, Suit::Spades),
    ];
    let table: Vec<(usize, Card)> = Vec::new();
    let legal = legal_cards(&hand, &table, true, &HeartsPlayedState::NoHeartsPlayed);
    assert_eq!(legal, vec![card(Rank::Two, Suit::Clubs)]);
}

#[test]
fn hearts_cannot_be_led_before_broken() {
    let hand = vec![
        card(Rank::Nine, Suit::Hearts),
        card(Rank::Four, Suit::Diamonds),
        card(Rank::Two, Suit::Hearts),
    ];
    let table: Vec<(usize, Card)> = Vec::new();
    let legal = legal_cards(&hand, &table, false, &HeartsPlayedState::NoHeartsPlayed);
    assert_eq!(legal, vec![card(Rank::Four, Suit::Diamonds)]);
}

#[test]
fn hearts_can_be_led_once_broken() {
    let hand = vec![card(Rank::Nine, Suit::Hearts), card(Rank::Four, Suit::Diamonds)];
    let table: Vec<(usize, Card)> = Vec::new();
    let legal = legal_cards(&hand, &table, false, &HeartsPlayedState::HeartsPlayedOne(2));
    assert_eq!(legal, hand);
}

#[test]
fn all_hearts_hand_may_lead_hearts() {
    let hand = vec![card(Rank::Nine, Suit::Hearts), card(Rank::Two, Suit::Hearts)];
    let table: Vec<(usize, Card)> = Vec::new();
    let legal = legal_cards(&hand, &table, false, &HeartsPlayedState::NoHeartsPlayed);
    assert_eq!(legal, hand, "the restriction collapses to the whole hand");
}

#[test]
fn must_follow_led_suit_or_anything_when_void() {
    let hand = vec![
        card(Rank::Nine, Suit::Clubs),
        card(Rank::Four, Suit::Diamonds),
        card(Rank::King, Suit::Clubs),
    ];
    let table = vec![(2usize, card(Rank::Five, Suit::Clubs))];
    let legal = legal_cards(&hand, &table, false, &HeartsPlayedState::NoHeartsPlayed);
    assert_eq!(legal, vec![card(Rank::Nine, Suit::Clubs), card(Rank::King, Suit::Clubs)]);

    let void_hand = vec![card(Rank::Four, Suit::Diamonds), card(Rank::Nine, Suit::Hearts)];
    let legal = legal_cards(&void_hand, &table, false, &HeartsPlayedState::NoHeartsPlayed);
    assert_eq!(legal, void_hand, "void in the led suit: the whole hand is legal");
}

#[test]
fn trick_winner_is_highest_of_led_suit() {
    let table = vec![
        (0usize, card(Rank::Ten, Suit::Clubs)),
        (1usize, card(Rank::Ace, Suit::Spades)),
        (2usize, card(Rank::King, Suit::Clubs)),
        (3usize, card(Rank::Five, Suit::Hearts)),
    ];
    let (winner, winning_card) = resolve_trick(&table);
    assert_eq!(winner, 2);
    assert_eq!(winning_card, card(Rank::King, Suit::Clubs));
    assert_eq!(trick_points(&table), 1);
    assert!(table_hearts(&table));
}

#[test]
fn off_suit_cards_never_win() {
    let table = vec![
        (3usize, card(Rank::Two, Suit::Diamonds)),
        (0usize, card(Rank::Ace, Suit::Spades)),
        (1usize, card(Rank::Ace, Suit::Hearts)),
        (2usize, card(Rank::Ace, Suit::Clubs)),
    ];
    let (winner, winning_card) = resolve_trick(&table);
    assert_eq!(winner, 3);
    assert_eq!(winning_card, card(Rank::Two, Suit::Diamonds));
    assert_eq!(trick_points(&table), 1);
}

#[test]
fn hearts_state_transitions_are_monotonic_and_keyed() {
    let none = HeartsPlayedState::NoHeartsPlayed;
    let one = HeartsPlayedState::HeartsPlayedOne(1);
    let many = HeartsPlayedState::HeartsPlayedMany;
    assert_eq!(hearts_transition(none, 1, false), none);
    assert_eq!(hearts_transition(none, 1, true), one);
    assert_eq!(hearts_transition(one, 1, true), one);
    assert_eq!(hearts_transition(one, 2, true), many);
    assert_eq!(hearts_transition(one, 2, false), one);
    assert_eq!(hearts_transition(many, 0, true), many);
}

#[test]
fn passing_pairs_follow_the_rotation() {
    assert_eq!(
        passing_indices(&PassingOrder::Right),
        Some(vec![(0, 1), (1, 2), (2, 3), (3, 0)])
    );
    assert_eq!(
        passing_indices(&PassingOrder::Across),
        Some(vec![(0, 2), (1, 3), (2, 0), (3, 1)])
    );
    assert_eq!(
        passing_indices(&PassingOrder::Left),
        Some(vec![(0, 3), (1, 0), (2, 1), (3, 2)])
    );
    assert_eq!(passing_indices(&PassingOrder::Hold), None);
}

#[test]
fn round_order_is_clockwise_from_start() {
    assert_eq!(round_order(0), vec![0, 1, 2, 3]);
    assert_eq!(round_order(2), vec![2, 3, 0, 1]);
    assert_eq!(round_order(3), vec![3, 0, 1, 2]);
}

/// Plays the lowest-index card of the legal set, passes its first three
/// cards; used to drive whole rounds deterministically (given the shuffle).
struct FirstLegal;

impl Controller for FirstLegal {
    fn get_names(&self) -> ControllerResult<Vec<String>> {
        Ok(vec!["p1".to_string(), "p2".to_string(), "p3".to_string(), "p4".to_string()])
    }

    fn get_cards_to_pass(&self, from: &Player, _to: &Player) -> ControllerResult<Vec<Card>> {
        Ok(from.hand().iter().take(3).copied().collect())
    }

    fn get_card_to_place(
        &self,
        player: &Player,
        table: &Vec<(usize, Card)>,
        is_first_move: bool,
        hearts_played_state: &HeartsPlayedState,
    ) -> ControllerResult<Card> {
        let legal = legal_cards(player.hand(), table, is_first_move, hearts_played_state);
        legal.first().copied().ok_or(ControllerError)
    }

    fn display_passing_order(&self, _passing_order: &PassingOrder) {}

    fn display_round_start(&self) {}

    fn display_winner(&self, _player: &Player, _card: Card, _score: u8) {}

    fn display_scores(&self, _players: &Vec<Player>) {}
}

/// A controller whose name list is too short.
struct TooFewNames;

impl Controller for TooFewNames {
    fn get_names(&self) -> ControllerResult<Vec<String>> {
        Ok(vec!["only".to_string(), "three".to_string(), "names".to_string()])
    }

    fn get_cards_to_pass(&self, _from: &Player, _to: &Player) -> ControllerResult<Vec<Card>> {
        Err(ControllerError)
    }

    fn get_card_to_place(
        &self,
        _player: &Player,
        _table: &Vec<(usize, Card)>,
        _is_first_move: bool,
        _hearts_played_state: &HeartsPlayedState,
    ) -> ControllerResult<Card> {
        Err(ControllerError)
    }

    fn display_passing_order(&self, _passing_order: &PassingOrder) {}

    fn display_round_start(&self) {}

    fn display_winner(&self, _player: &Player, _card: Card, _score: u8) {}

    fn display_scores(&self, _players: &Vec<Player>) {}
}

#[test]
fn error_messages() {
    assert_eq!(GameError::StartError.message(), "Could not start game.");
    assert_eq!(GameError::PassError.message(), "Could not pass cards.");
    assert_eq!(GameError::TurnError.message(), "Could not complete turn.");
    assert_eq!(ControllerError.message(), "Controller failure.");
}

#[test]
fn game_new_seats_four_players() {
    let game = Game::new(FirstLegal).unwrap();
    assert_eq!(game.players.len(), 4);
    assert_eq!(game.hearts_played(), HeartsPlayedState::NoHeartsPlayed);
    assert_eq!(game.trick_totals().clone(), vec![0, 0, 0, 0]);
    for p in &game.players {
        assert_eq!(p.hand().len(), 0);
        assert_eq!(p.score(), 0);
    }
}

#[test]
fn game_new_rejects_missing_names() {
    match Game::new(TooFewNames) {
        Err(GameError::StartError) => {}
        other => panic!("expected StartError, got {:?}", other.is_ok()),
    }
}

#[test]
fn full_round_distributes_exactly_26_points_or_a_moon() {
    let mut game = Game::new(FirstLegal).unwrap();
    assert_eq!(game.hearts_played(), HeartsPlayedState::NoHeartsPlayed);
    let max = game.round().unwrap();
    let scores: Vec<u8> = game.players.iter().map(|p| p.score()).collect();
    let total: u32 = scores.iter().map(|s| *s as u32).sum();
    let totals = game.trick_totals().clone();
    let trick_sum: u32 = totals.iter().map(|s| *s as u32).sum();
    assert_eq!(trick_sum, 26, "the tricks always carry 26 points: {:?}", totals);
    match game.hearts_played() {
        HeartsPlayedState::HeartsPlayedOne(shooter) => {
            assert!(shooter < 4);
            for (i, s) in scores.iter().enumerate() {
                assert_eq!(*s, if i == shooter { 0 } else { 26 });
            }
        }
        _ => {
            assert_eq!(total, 26, "scores were {:?}", scores);
            assert_eq!(scores, totals, "each player gains its own trick points");
        }
    }
    assert_eq!(max, *scores.iter().max().unwrap());
    for p in &game.players {
        assert_eq!(p.hand().len(), 0, "hands must be played out");
    }
}

#[test]
fn many_rounds_accumulate_monotonically() {
    let mut game = Game::new(FirstLegal).unwrap();
    let mut previous: Vec<u8> = vec![0, 0, 0, 0];
    for _ in 0..4 {
        game.round().unwrap();
        let scores: Vec<u8> = game.players.iter().map(|p| p.score()).collect();
        for (new, old) in scores.iter().zip(previous.iter()) {
            assert!(new >= old, "scores never decrease");
        }
        previous = scores;
    }
}

/// A scripted single trick: each player plays the first card of its hand.
struct PlayFirstOfHand;

impl Controller for PlayFirstOfHand {
    fn get_names(&self) -> ControllerResult<Vec<String>> {
        Ok(vec!["a".to_string(), "b".to_string(), "c".to_string(), "d".to_string()])
    }

    fn get_cards_to_pass(&self, _from: &Player, _to: &Player) -> ControllerResult<Vec<Card>> {
        Err(ControllerError)
    }

    fn get_card_to_place(
        &self,
        player: &Player,
        _table: &Vec<(usize, Card)>,
        _is_first_move: bool,
        _hearts_played_state: &HeartsPlayedState,
    ) -> ControllerResult<Card> {
        player.hand().first().copied().ok_or(ControllerError)
    }

    fn display_passing_order(&self, _passing_order: &PassingOrder) {}

    fn display_round_start(&self) {}

    fn display_winner(&self, _player: &Player, _card: Card, _score: u8) {}

    fn display_scores(&self, _players: &Vec<Player>) {}
}

#[test]
fn single_trick_scenario_matches_hand_computation() {
    let mut game = Game::new(PlayFirstOfHand).unwrap();
    game.players[0].take(vec![card(Rank::Ten, Suit::Clubs)]);
    game.players[1].take(vec![card(Rank::Ace, Suit::Spades)]);
    game.players[2].take(vec![card(Rank::King, Suit::Clubs)]);
    game.players[3].take(vec![card(Rank::Five, Suit::Hearts)]);
    let (winner, winning_card, score, hearts_played) = game
        .turn(0, false, &HeartsPlayedState::NoHeartsPlayed)
        .unwrap();
    assert_eq!(winner, 2);
    assert_eq!(winning_card, card(Rank::King, Suit::Clubs));
    assert_eq!(score, 1);
    assert!(hearts_played);
    let next = hearts_transition(HeartsPlayedState::NoHeartsPlayed, winner, hearts_played);
    assert_eq!(next, HeartsPlayedState::HeartsPlayedOne(2));
    for p in &game.players {
        assert_eq!(p.hand().len(), 0);
    }
}

/// Passes three fixed, known cards per giver so the movement is checkable.
struct ScriptedPass {
    gifts: RefCell<Vec<Vec<Card>>>,
}

impl Controller for ScriptedPass {
    fn get_names(&self) -> ControllerResult<Vec<String>> {
        Ok(vec!["a".to_string(), "b".to_string(), "c".to_string(), "d".to_string()])
    }

    fn get_cards_to_pass(&self, _from: &Player, _to: &Player) -> ControllerResult<Vec<Card>> {
        Ok(self.gifts.borrow_mut().remove(0))
    }

    fn get_card_to_place(
        &self,
        _player: &Player,
        _table: &Vec<(usize, Card)>,
        _is_first_move: bool,
        _hearts_played_state: &HeartsPlayedState,
    ) -> ControllerResult<Card> {
        Err(ControllerError)
    }

    fn display_passing_order(&self, _passing_order: &PassingOrder) {}

    fn display_round_start(&self) {}

    fn display_winner(&self, _player: &Player, _card: Card, _score: u8) {}

    fn display_scores(&self, _players: &Vec<Player>) {}
}

#[test]
fn passing_right_moves_three_named_cards_each() {
    // give player i the four cards of rank (i-th of four chosen ranks)
    let ranks = [Rank::Two, Rank::Five, Rank::Nine, Rank::King];
    let gifts: Vec<Vec<Card>> = ranks
        .iter()
        .map(|r| {
            vec![card(*r, Suit::Hearts), card(*r, Suit::Clubs), card(*r, Suit::Diamonds)]
        })
        .collect();
    let controller = ScriptedPass { gifts: RefCell::new(gifts.clone()) };
    let mut game = Game::new(controller).unwrap();
    for (i, r) in ranks.iter().enumerate() {
        game.players[i].take(vec![
            card(*r, Suit::Hearts),
            card(*r, Suit::Clubs),
            card(*r, Suit::Diamonds),
            card(*r, Suit::Spades),
        ]);
    }
    game.pass_cards(&PassingOrder::Right).unwrap();
    for i in 0..4 {
        let p = &game.players[i];
        assert_eq!(p.hand().len(), 4, "each hand keeps its size");
        // kept its own spade
        assert!(p.hand().contains(&card(ranks[i], Suit::Spades)));
        // received the three gifts of the left neighbour
        let from = (i + 3) % 4;
        for c in &gifts[from] {
            assert!(p.hand().contains(c), "player {} should hold {:?}", i, c);
        }
        // no longer holds what it gave away
        for c in &gifts[i] {
            assert!(!p.hand().contains(c));
        }
    }
}

#[test]
fn pass_cards_hold_changes_nothing() {
    let controller = ScriptedPass { gifts: RefCell::new(vec![]) };
    let mut game = Game::new(controller).unwrap();
    game.players[0].take(vec![card(Rank::Two, Suit::Clubs)]);
    game.pass_cards(&PassingOrder::Hold).unwrap();
    assert_eq!(game.players[0].hand().clone(), vec![card(Rank::Two, Suit::Clubs)]);
}

#[test]
fn pass_cards_rejects_a_card_not_held() {
    let gifts = vec![vec![
        card(Rank::Two, Suit::Hearts),
        card(Rank::Three, Suit::Hearts),
        card(Rank::Four, Suit::Hearts),
    ]];
    let controller = ScriptedPass { gifts: RefCell::new(gifts) };
    let mut game = Game::new(controller).unwrap();
    // nobody holds anything: the selection cannot be honoured
    match game.pass_cards(&PassingOrder::Left) {
        Err(GameError::PassError) => {}
        other => panic!("expected PassError, got ok={:?}", other.is_ok()),
    }
    for p in &game.players {
        assert_eq!(p.hand().len(), 0, "a failed pass changes no hand");
    }
}
