//! The review payload with a caller-chosen variant byte.
//!
//! The on-chain program multiplexes several handlers over one payload
//! layout: adding, updating, or administering reviews differ only in
//! the leading variant byte, which this form of the payload leaves to
//! the caller.

use vstd::prelude::*;

verus! {

/// One review payload, headed by the instruction's variant byte.
pub struct Movie {
    /// The instruction's variant byte.
    pub varint: u8,
    /// The reviewed title.
    pub title: String,
    /// The review's rating.
    pub rating: u8,
    /// The review text.
    pub description: String,
}

impl Movie {
    /// A fresh payload for the handler selected by `varint`.
    pub fn new(varint: u8, title: String, rating: u8, description: String) -> (m: Movie)
        ensures
            m.varint == varint,
            m.title == title,
            m.rating == rating,
            m.description == description,
    {
        Movie { varint, title, rating, description }
    }
}

/// A review account's stored state.
pub struct MovieAccountState {
    /// Whether the account has been initialized on chain.
    pub is_initialized: bool,
    /// The review's rating.
    pub rating: u8,
    /// The reviewed title.
    pub title: String,
    /// The review text.
    pub description: String,
}

} // verus!
