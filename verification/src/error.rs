use vstd::prelude::*;

verus! {

/// Error taxonomy shared by the record store, the ledger and the lifecycle
/// engine. Every operation either succeeds completely or fails with one of
/// these and leaves no partial effect.
#[derive(Clone, Copy, Debug, PartialEq, Eq, Structural)]
pub enum EscrowError {
    /// An active escrow record already occupies the derived address.
    AlreadyExists,
    /// No record (or no holding account) exists where one was required.
    NotFound,
    /// The asset types supplied to settle do not match the stored record.
    RecordMismatch,
    /// The caller is not the record's maker, or an authority does not match
    /// the owner of the account it tries to move funds from.
    Unauthorized,
    /// A holding account's asset type disagrees with the asset type of the
    /// requested transfer.
    AssetTypeMismatch,
    /// The source holding account holds less than the requested amount.
    InsufficientFunds,
    /// The taker's asset-b balance is below the escrow's required amount.
    EscrowInsufficientFunds,
    /// Close was attempted on a holding account that still holds funds.
    NonZeroBalance,
}

} // verus!
