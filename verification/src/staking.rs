//! Data carried by the staking instructions.

pub mod stake_info;
