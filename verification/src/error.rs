use vstd::prelude::*;

verus! {

/// The failures this client reports to its callers.
#[derive(Debug, PartialEq, Eq)]
pub enum Error {
    /// The base URL or the assembled request was malformed; raised before
    /// any network activity.
    InvalidParams,
    /// A single-row fetch found zero rows.
    RowNotFound,
    /// The stream ended while a buffered row was still incomplete.
    NotEnoughData,
    /// The count of bound arguments and `?` placeholders disagree, or
    /// `?fields` and the bound field list do not match up.
    BindMismatch,
    /// The transport failed; the payload carries its message bytes verbatim.
    Transport(Vec<u8>),
}

} // verus!
