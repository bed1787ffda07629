use vstd::prelude::*;
use crate::tetris::Command;

verus! {

/// How often, in milliseconds, the falling piece is moved down.
pub const FALL_MS: u64 = 500;

/// How often, in milliseconds, the players are sent the state of the game.
pub const REFRESH_MS: u64 = 50;

/// What wakes the driver of a game.
#[derive(PartialEq, Eq, Structural, Debug, Clone, Copy)]
pub enum Tick {
    /// The fall period has passed.
    Fall,
    /// The refresh period has passed.
    Refresh,
    /// The game reported that the falling piece stopped.
    PieceStopped,
}

/// The command the driver sends to the game for `t`: the piece falls one cell,
/// the state is sent to the players, or a new piece is placed.
pub fn driver_command(t: Tick) -> (c: Command)
    ensures
        c == match t {
            Tick::Fall => Command::Move('D'),
            Tick::Refresh => Command::Refresh,
            Tick::PieceStopped => Command::InsertPiece,
        },
{
    match t {
        Tick::Fall => Command::Move('D'),
        Tick::Refresh => Command::Refresh,
        Tick::PieceStopped => Command::InsertPiece,
    }
}

/// Whether the copy of a player's state sent to the player at `receiver` is
/// marked as the opponent's: every player but the owner, at `owner`, sees it
/// as the opponent's.
pub fn is_opponent(receiver: usize, owner: usize) -> (b: bool)
    ensures
        b == (receiver != owner),
{
    receiver != owner
}

/// The score to record at the end of a game: none when it is 0.
pub fn score_to_record(score: u16) -> (r: Option<u16>)
    ensures
        r == (if score > 0 { Some(score) } else { None::<u16> }),
{
    if score > 0 {
        Some(score)
    } else {
        None
    }
}

} // verus!
