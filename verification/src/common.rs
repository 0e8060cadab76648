use vstd::prelude::*;

verus! {

/// The action that passes the turn.
pub const PASS_ACTION_ID: usize = 0;

/// The seat of the agent being trained.
pub const TRAIN_AGENT_ID: usize = 0;

/// Number of actions in the action table.
pub const ACTION_SIZE: usize = 462;

/// The action that plays one joker alone.
pub const JOKER_SINGLE_ACTION_ID: usize = 460;

/// The action that plays both jokers as a pair.
pub const JOKER_PAIR_ACTION_ID: usize = 461;

/// Length of the observation vector fed to the network.
pub const INPUT_STATE_DIM: usize = 126;

/// Number of seats at the table.
pub const NUM_PLAYERS: usize = 4;

} // verus!
