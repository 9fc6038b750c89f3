use vstd::prelude::*;

verus! {

/// Why a ledger operation was refused.
#[derive(PartialEq, Eq, Structural, Clone, Copy, Debug)]
pub enum LedgerError {
    /// The side is not one of buy, sell, dividend, deposit, withdrawal.
    InvalidSide,
    /// The asset type is not one of stock, etf, crypto.
    InvalidAssetType,
    /// The quantity is zero or negative.
    NonPositiveQty,
    /// The price or the fee is negative.
    NegativePriceOrFee,
    /// No asset carries the symbol, or no asset has the id.
    NotFound,
    /// More than one asset type carries the symbol.
    Ambiguous,
    /// An asset with the same symbol and type is already registered.
    Duplicate,
    /// A total or a value does not fit the integer width of a position.
    Overflow,
}

} // verus!
