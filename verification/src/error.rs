//! The errors which are exposed to the users of the crate.

use vstd::prelude::*;

verus! {

/// Why a transaction was skipped. No error aborts a run: the offending row is
/// skipped and processing continues.
#[derive(Debug)]
pub enum Error {
    /// A malformed input row.
    Csv { message: String },
    /// A well-formed row violating domain invariants, e.g. a deposit with a
    /// non-positive amount.
    Validation { client_id: u16, tx_id: u32, message: String },
    /// A well-formed, domain-valid transaction inconsistent with the current
    /// account state, e.g. a withdrawal exceeding the available amount.
    Processing { client_id: u16, tx_id: u32, message: String },
}

impl Error {
    /// A human-readable description of the error.
    pub fn describe(&self) -> (r: String)
        ensures
            self is Csv ==> r@ == self->Csv_message@,
            self is Validation ==> r@ == self->Validation_message@,
            self is Processing ==> r@ == self->Processing_message@,
    {
        match self {
            Error::Csv { message } => message.clone(),
            Error::Validation { message, .. } => message.clone(),
            Error::Processing { message, .. } => message.clone(),
        }
    }
}

pub(crate) fn validation_error(client_id: u16, tx_id: u32, message: String) -> (r: Error)
    ensures
        r == (Error::Validation { client_id, tx_id, message }),
{
    Error::Validation { client_id, tx_id, message }
}

pub(crate) fn processing_error(client_id: u16, tx_id: u32, message: String) -> (r: Error)
    ensures
        r == (Error::Processing { client_id, tx_id, message }),
{
    Error::Processing { client_id, tx_id, message }
}

} // verus!
