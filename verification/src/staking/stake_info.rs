//! The staking instruction payload and stake lifecycle states.

use vstd::prelude::*;

verus! {

/// One staking instruction payload: the variant byte selects the
/// on-chain handler (initialize, stake, redeem, or unstake).
pub struct StakeInfo {
    /// The instruction's variant byte.
    pub varint: u8,
}

impl StakeInfo {
    /// A fresh payload for the handler selected by `varint`.
    pub fn new(varint: u8) -> (s: StakeInfo)
        ensures
            s.varint == varint,
    {
        StakeInfo { varint }
    }
}

/// Whether a stake account currently holds a stake.
#[derive(Debug, PartialEq, Eq, Structural)]
pub enum StakeState {
    /// Tokens are staked.
    Staked,
    /// Tokens have been withdrawn.
    Unstaked,
}

/// A stake account's stored state, with addresses as base58 text and
/// times as Unix timestamps.
pub struct StakeInfoAccountState {
    /// Whether the account has been initialized on chain.
    pub is_initialized: bool,
    /// The staked token account's address.
    pub token_account: String,
    /// When the stake began.
    pub stake_start_time: i64,
    /// When rewards were last redeemed.
    pub last_stake_redeem: i64,
    /// The staking user's address.
    pub user_pubkey: String,
    /// Where the account stands in the stake lifecycle.
    pub stake_state: StakeState,
}

} // verus!
