use vstd::prelude::*;

verus! {

/// What a player can do in a betting round.
#[derive(Debug, PartialEq, Eq, Structural)]
pub enum PlayerAction {
    Fold,
    Check,
    Call,
    Raise { value: u32 },
    Bet { value: u32 },
    CheckFold,
    AllIn,
}

} // verus!
