//! The collaborator interface: the decision-making and display layer that
//! chooses names, cards to pass and cards to play. It is implemented outside
//! the engine (an interactive front end, or a deterministic stand-in in
//! tests); the engine validates every choice it hands back.

use vstd::prelude::*;

use crate::card::Card;
use crate::game::HeartsPlayedState;
use crate::game::PassingOrder;
use crate::player::Player;

verus! {

/// The collaborator failed to produce a decision.
#[derive(Clone, Copy, Debug, PartialEq, Eq, Structural)]
pub struct ControllerError;

impl ControllerError {
    /// A short description of the failure, for the layer that reports it.
    pub fn message(&self) -> (r: &'static str)
        ensures
            r@ == "Controller failure."@,
    {
        proof {
            reveal_strlit("Controller failure.");
        }
        "Controller failure."
    }
}

pub type ControllerResult<T> = Result<T, ControllerError>;

/// Decision points and notifications consulted by the engine. Nothing is
/// assumed of an implementation: the engine checks the name count, each
/// pass selection (count, distinctness, hand membership) and each play's
/// hand membership before acting. It does not re-check a play against the
/// legality filter; an implementation chooses from `legal_cards` (or not).
pub trait Controller {
    /// Names for the four players, in seating order.
    fn get_names(&self) -> ControllerResult<Vec<String>>;

    /// Three cards `from` wants to hand to `to`.
    fn get_cards_to_pass(&self, from: &Player, to: &Player) -> ControllerResult<Vec<Card>>;

    /// The card `player` plays onto the current table.
    fn get_card_to_place(
        &self,
        player: &Player,
        table: &Vec<(usize, Card)>,
        is_first_move: bool,
        hearts_played_state: &HeartsPlayedState,
    ) -> ControllerResult<Card>;

    /// Display-only: the passing rotation chosen for this round.
    fn display_passing_order(&self, passing_order: &PassingOrder);

    /// Display-only: a round is about to begin.
    fn display_round_start(&self);

    /// Display-only: who took the trick, with which card, for how much.
    fn display_winner(&self, player: &Player, card: Card, score: u8);

    /// Display-only: the standings after a round.
    fn display_scores(&self, players: &Vec<Player>);
}

} // verus!
