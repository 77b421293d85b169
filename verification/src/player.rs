use vstd::prelude::*;

use crate::game::pool::Rack;

verus! {

/// What a finished turn produced: points scored, a tile swap, or a request to
/// leave the game.
pub enum TurnResult {
    Score(i64),
    Swap,
    Exit,
}

/// What one interactive command left behind: keep reading, leave, a
/// committed play's score, or a swap; `Refused` marks a command that could
/// not be carried out.
pub enum ShellStatus {
    Continue,
    Exit,
    Submit(i64),
    Swap,
    Refused,
}

/// One participant: a rack, an identifier, a running score, and whether the
/// player is rackless (a helper with no own tiles) or computer-driven.
pub struct Player {
    pub rack: Rack,
    pub id: i32,
    pub score: i64,
    pub rackless: bool,
    pub cpu: bool,
}

impl Player {
    /// A fresh player with an empty rack and no points. A computer player
    /// must own a rack, so a rackless computer configuration is refused.
    pub fn new(id: i32, rackless: bool, cpu: bool) -> (r: Option<Player>)
        ensures
            (r is Some) == !(rackless && cpu),
            r matches Some(p) ==> p.id == id && p.score == 0 && p.rackless == rackless && p.cpu
                == cpu && p.rack.wf() && p.rack.size == 0,
    {
        if rackless && cpu {
            return None;
        }
        Some(Player { rack: Rack::new(), id, score: 0, rackless, cpu })
    }
}

} // verus!
