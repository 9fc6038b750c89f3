//! A personal investment ledger: an asset registry, an append-only log of
//! buy, sell and cash-flow events, daily closing prices, and the engine that
//! folds the events into a snapshot of holdings.

pub mod db;
pub mod engine;
pub mod error;
pub mod kinds;
pub mod order;
pub mod prices;
pub mod registry;
pub mod text;

pub use db::{
    compute_position, find_asset_id_by_symbol, insert_asset, insert_txn, lastest_price,
    list_assets, list_txns, upsert_price, validate_txn, Db, Transaction, TxnRow,
};
pub use engine::{portfolio_totals, positions_from, LedgerEntry, Position, Quote};
pub use error::LedgerError;
pub use kinds::{asset_type_from_lower, parse_asset_type, parse_side, side_from_lower, AssetType, Side};
pub use prices::PriceSample;
pub use registry::{resolve_matches, AssetRow};
