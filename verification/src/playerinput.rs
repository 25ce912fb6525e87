//! The actions a player may take on their turn, and the reasons an action
//! can be rejected. Reading an action from the outside world is left to the
//! surrounding program; the game logic only consumes the parsed value.
use vstd::prelude::*;

verus! {

#[derive(Copy, Clone, Debug, PartialEq, Eq, Structural)]
pub enum Action {
    Check,
    Raise(u32),
    Call,
    Fold,
}

/// Why an action was rejected. A rejected action never changes the game:
/// the caller reports the reason and asks the player again.
#[derive(Copy, Clone, Debug, PartialEq, Eq, Structural)]
pub enum ActionError {
    /// Checking while the player's street contribution is below the table bet.
    CheckNotAllowed,
    /// Raising to an amount that does not exceed the current table bet.
    RaiseTooLow,
    /// The chips the action would move exceed the player's balance.
    InsufficientFunds,
}

} // verus!
