use vstd::prelude::*;
use crate::error::LedgerError;
use crate::text::text_eq;

verus! {

/// The kinds of instrument the registry accepts.
#[derive(PartialEq, Eq, Structural, Clone, Copy, Debug)]
pub enum AssetType {
    Stock,
    Etf,
    Crypto,
}

/// The kind of a ledger event. Only buys and sells move a position; the
/// other three are cash flows outside the position model.
#[derive(PartialEq, Eq, Structural, Clone, Copy, Debug)]
pub enum Side {
    Buy,
    Sell,
    Dividend,
    Deposit,
    Withdrawal,
}

/// The lowercase form of a text, as `str::to_lowercase` gives it.
pub uninterp spec fn lower_of(s: Seq<char>) -> Seq<char>;

/// Relies on `str::to_lowercase`: the result depends on the characters alone.
#[verifier::external_body]
pub(crate) fn lowercase(s: &str) -> (r: String)
    ensures
        r@ == lower_of(s@),
{
    s.to_lowercase()
}

/// The asset type spelled exactly `t`, if any.
pub open spec fn asset_type_named(t: Seq<char>) -> Option<AssetType> {
    if t == "stock"@ {
        Some(AssetType::Stock)
    } else if t == "etf"@ {
        Some(AssetType::Etf)
    } else if t == "crypto"@ {
        Some(AssetType::Crypto)
    } else {
        None
    }
}

/// The side spelled exactly `t`, if any.
pub open spec fn side_named(t: Seq<char>) -> Option<Side> {
    if t == "buy"@ {
        Some(Side::Buy)
    } else if t == "sell"@ {
        Some(Side::Sell)
    } else if t == "dividend"@ {
        Some(Side::Dividend)
    } else if t == "deposit"@ {
        Some(Side::Deposit)
    } else if t == "withdrawal"@ {
        Some(Side::Withdrawal)
    } else {
        None
    }
}

/// The asset type whose lowercase name is `t`.
pub fn asset_type_from_lower(t: &str) -> (r: Option<AssetType>)
    ensures
        r == asset_type_named(t@),
{
    if text_eq(t, "stock") {
        Some(AssetType::Stock)
    } else if text_eq(t, "etf") {
        Some(AssetType::Etf)
    } else if text_eq(t, "crypto") {
        Some(AssetType::Crypto)
    } else {
        None
    }
}

/// The side whose lowercase name is `t`.
pub fn side_from_lower(t: &str) -> (r: Option<Side>)
    ensures
        r == side_named(t@),
{
    if text_eq(t, "buy") {
        Some(Side::Buy)
    } else if text_eq(t, "sell") {
        Some(Side::Sell)
    } else if text_eq(t, "dividend") {
        Some(Side::Dividend)
    } else if text_eq(t, "deposit") {
        Some(Side::Deposit)
    } else if text_eq(t, "withdrawal") {
        Some(Side::Withdrawal)
    } else {
        None
    }
}

/// Reads an asset type, ignoring case.
pub fn parse_asset_type(s: &str) -> (r: Result<AssetType, LedgerError>)
    ensures
        r == (match asset_type_named(lower_of(s@)) {
            Some(t) => Ok(t),
            None => Err(LedgerError::InvalidAssetType),
        }),
{
    let lower = lowercase(s);
    match asset_type_from_lower(lower.as_str()) {
        Some(t) => Ok(t),
        None => Err(LedgerError::InvalidAssetType),
    }
}

/// Reads a side, ignoring case.
pub fn parse_side(s: &str) -> (r: Result<Side, LedgerError>)
    ensures
        r == (match side_named(lower_of(s@)) {
            Some(t) => Ok(t),
            None => Err(LedgerError::InvalidSide),
        }),
{
    let lower = lowercase(s);
    match side_from_lower(lower.as_str()) {
        Some(t) => Ok(t),
        None => Err(LedgerError::InvalidSide),
    }
}

impl AssetType {
    /// The lowercase name under which the type is stored.
    pub fn name(&self) -> (r: &'static str)
        ensures
            asset_type_named(r@) == Some(*self),
    {
        let r = match self {
            AssetType::Stock => "stock",
            AssetType::Etf => "etf",
            AssetType::Crypto => "crypto",
        };
        proof {
            reveal_strlit("stock");
            reveal_strlit("etf");
            reveal_strlit("crypto");
            assert("stock"@.len() != "etf"@.len());
            assert("stock"@.len() != "crypto"@.len());
            assert("etf"@.len() != "crypto"@.len());
        }
        r
    }
}

impl Side {
    /// The lowercase name under which the side is stored.
    pub fn name(&self) -> (r: &'static str)
        ensures
            side_named(r@) == Some(*self),
    {
        let r = match self {
            Side::Buy => "buy",
            Side::Sell => "sell",
            Side::Dividend => "dividend",
            Side::Deposit => "deposit",
            Side::Withdrawal => "withdrawal",
        };
        proof {
            reveal_strlit("buy");
            reveal_strlit("sell");
            reveal_strlit("dividend");
            reveal_strlit("deposit");
            reveal_strlit("withdrawal");
            assert("buy"@.len() != "sell"@.len());
            assert("buy"@.len() != "dividend"@.len());
            assert("buy"@.len() != "deposit"@.len());
            assert("buy"@.len() != "withdrawal"@.len());
            assert("sell"@.len() != "dividend"@.len());
            assert("sell"@.len() != "deposit"@.len());
            assert("sell"@.len() != "withdrawal"@.len());
            assert("dividend"@.len() != "withdrawal"@.len());
            assert("deposit"@.len() != "withdrawal"@.len());
            assert("dividend"@[1] != "deposit"@[1]);
        }
        r
    }
}

} // verus!
