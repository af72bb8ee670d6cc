//! Game-level rules that decide when a session ends and who won. The
//! session orchestration itself (event store, random in-game events,
//! terminal loop) lives with the program, not the library.

use vstd::prelude::*;

use crate::domain::aggregates::Port;

verus! {

/// How a game session is played.
#[derive(Debug, Clone, Copy, PartialEq, Eq, Structural)]
pub enum GameMode {
    /// Player against the search engine.
    VersusAI,
    /// Learning mode.
    Tutorial,
    /// Free play.
    Sandbox,
}

/// Whether the session is over: a score above a thousand wins, more than
/// ten waiting ships lose, and thirty turns end the game either way.
pub fn is_game_over(player_port: &Port, current_turn: u32) -> (r: bool)
    ensures
        r == (player_port@.score > 1000 || player_port@.waiting().len() > 10 || current_turn
            >= 30),
{
    if player_port.score > 1000 {
        return true;
    }
    let waiting = player_port.waiting_ships();
    if waiting.len() > 10 {
        return true;
    }
    current_turn >= 30
}

/// Who stands higher: the label of the side with the larger score, or a
/// tie.
pub fn winner_label(player_score: i32, ai_score: i32) -> (r: &'static str)
    ensures
        player_score > ai_score ==> r@ == "player"@,
        ai_score > player_score ==> r@ == "ai"@,
        player_score == ai_score ==> r@ == "tie"@,
{
    if player_score > ai_score {
        "player"
    } else if ai_score > player_score {
        "ai"
    } else {
        "tie"
    }
}

} // verus!
