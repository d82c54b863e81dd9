use anchor_lang::prelude::{Clock, ProgramError, SolanaSysvar};
use vstd::prelude::*;

verus! {

/// The error type of the Solana program library, `ProgramError`. The
/// library hands such an error on and never looks inside.
#[verifier::external_type_specification]
#[verifier::external_body]
pub struct ExProgramError(anchor_lang::prelude::ProgramError);

/// Reads the ledger's clock through `Clock::get` of the Solana program
/// library and hands on its Unix timestamp, or the error that the call
/// returned. Nothing is claimed of either: the time is whatever the ledger
/// reports, and two calls may differ.
#[verifier::external_body]
pub(crate) fn unix_timestamp() -> (r: Result<i64, ProgramError>) {
    match Clock::get() {
        Ok(clock) => Ok(clock.unix_timestamp),
        Err(e) => Err(e),
    }
}

} // verus!
