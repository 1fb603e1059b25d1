//! Validation of the run's ledger identifiers.
//!
//! Account addresses and transaction signatures travel through the
//! analyzer as base58 strings. Whether such a string is well formed is
//! decided by the ledger SDK's parsers; the library relies on them
//! through the two named predicates below and keeps its own logic — a
//! malformed address is fatal before the run starts, a malformed
//! signature only drops that one fetch — in verified code.

use std::str::FromStr;

use vstd::prelude::*;

verus! {

/// Whether `s` is a well-formed account address (base58 text decoding
/// to exactly 32 bytes). The outcome is a function of the characters
/// alone.
pub uninterp spec fn pubkey_str_valid(s: Seq<char>) -> bool;

/// Whether `s` is a well-formed transaction signature (base58 text
/// decoding to exactly 64 bytes). The outcome is a function of the
/// characters alone.
pub uninterp spec fn signature_str_valid(s: Seq<char>) -> bool;

/// Relies on solana_pubkey::Pubkey::from_str: a length check and a
/// base58 decode, accepting or rejecting on the characters alone,
/// never panicking.
#[verifier::external_body]
fn pubkey_parses(s: &str) -> (r: bool)
    ensures
        r == pubkey_str_valid(s@),
{
    solana_pubkey::Pubkey::from_str(s).is_ok()
}

/// Relies on solana_signature::Signature::from_str: a length check and
/// a base58 decode, accepting or rejecting on the characters alone,
/// never panicking.
#[verifier::external_body]
fn signature_parses(s: &str) -> (r: bool)
    ensures
        r == signature_str_valid(s@),
{
    solana_signature::Signature::from_str(s).is_ok()
}

/// True exactly when `address` is a well-formed account address.
pub fn account_id_valid(address: &String) -> (r: bool)
    ensures
        r == pubkey_str_valid(address@),
{
    pubkey_parses(address.as_str())
}

/// True exactly when `sig` is a well-formed transaction signature. A
/// fetch is attempted only for signatures this accepts; the rest are
/// dropped, matching the pool's silent-skip rule.
pub fn signature_valid(sig: &String) -> (r: bool)
    ensures
        r == signature_str_valid(sig@),
{
    signature_parses(sig.as_str())
}

/// Check every configured account address before the run starts:
/// accepts exactly when all are well formed, and otherwise reports the
/// first malformed one, on which the run aborts with no partial output.
pub fn check_account_ids(addresses: &Vec<String>) -> (r: Result<(), usize>)
    ensures
        r is Ok <==> (forall|i: int|
            0 <= i < addresses@.len() ==> pubkey_str_valid((#[trigger] addresses@[i])@)),
        r is Err ==> {
            &&& r->Err_0 < addresses@.len()
            &&& !pubkey_str_valid(addresses@[r->Err_0 as int]@)
            &&& forall|i: int|
                0 <= i < r->Err_0 ==> pubkey_str_valid((#[trigger] addresses@[i])@)
        },
{
    let mut i: usize = 0;
    while i < addresses.len()
        invariant
            i <= addresses@.len(),
            forall|j: int| 0 <= j < i ==> pubkey_str_valid((#[trigger] addresses@[j])@),
        decreases addresses@.len() - i,
    {
        if !account_id_valid(&addresses[i]) {
            return Err(i);
        }
        i = i + 1;
    }
    Ok(())
}

} // verus!
