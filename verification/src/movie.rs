//! Data carried by the movie-review instructions.
//!
//! A [`Movie`] is the payload sent with a review instruction; the
//! leading variant byte selects the on-chain handler (0 adds a review).
//! [`MovieAccountState`] is the review account's stored layout as read
//! back from the chain.

use vstd::prelude::*;

pub mod movie_account;

verus! {

/// One review payload, headed by the instruction's variant byte.
pub struct Movie {
    /// The instruction's variant byte.
    pub varint: u8,
    /// The reviewed title.
    pub title: String,
    /// The review's rating.
    pub rating: u8,
    /// The review text.
    pub description: String,
}

impl Movie {
    /// A fresh add-review payload (variant byte 0).
    pub fn new(title: String, rating: u8, description: String) -> (m: Movie)
        ensures
            m.varint == 0,
            m.title == title,
            m.rating == rating,
            m.description == description,
    {
        Movie { varint: 0, title, rating, description }
    }
}

/// A review account's stored state.
pub struct MovieAccountState {
    /// Whether the account has been initialized on chain.
    pub is_initialized: bool,
    /// The review's rating.
    pub rating: u8,
    /// The reviewed title.
    pub title: String,
    /// The review text.
    pub description: String,
}

} // verus!
