use portfolio::{
    compute_position, insert_asset, insert_txn, portfolio_totals, positions_from, upsert_price,
    AssetType, Db,
    LedgerEntry, LedgerError, Position, Quote, Side,
};

// Quantities in thousandths of a unit, prices in thousandths of the currency;
// costs, fees and values are then in millionths of the currency.
const Q: i64 = 1_000;
const P: i64 = 1_000;
const C: i64 = Q * P;

fn store_with(symbols: &[(&str, AssetType)]) -> Db {
    let mut db = Db::new();
    for (s, t) in symbols {
        insert_asset(&mut db, s, *t, "USD", None).unwrap();
    }
    db
}

fn txn(db: &mut Db, sym: &str, side: &str, qty: i64, price: i64, fee: i64, ts: &str) {
    insert_txn(db, "you", sym, side, qty * Q, price * P, fee * C, ts, None).unwrap();
}

#[test]
fn closed_position_is_omitted() {
    let mut db = store_with(&[("AAPL", AssetType::Stock)]);
    txn(&mut db, "AAPL", "buy", 10, 100, 0, "2025-01-01T00:00:00Z");
    txn(&mut db, "AAPL", "sell", 10, 120, 0, "2025-01-02T00:00:00Z");
    let v = compute_position(&db, "you").unwrap();
    assert!(v.is_empty());
}

#[test]
fn average_cost_counts_fees_and_ignores_sells() {
    let mut db = store_with(&[("AAPL", AssetType::Stock)]);
    txn(&mut db, "AAPL", "buy", 10, 100, 10, "2025-01-01T00:00:00Z");
    txn(&mut db, "AAPL", "buy", 10, 120, 0, "2025-01-02T00:00:00Z");
    let v = compute_position(&db, "you").unwrap();
    assert_eq!(v.len(), 1);
    assert_eq!(v[0].net_qty, (20 * Q) as i128);
    assert_eq!(v[0].avg_cost, 110_500);
    txn(&mut db, "AAPL", "sell", 5, 130, 0, "2025-01-03T00:00:00Z");
    let v = compute_position(&db, "you").unwrap();
    assert_eq!(v[0].net_qty, (15 * Q) as i128);
    assert_eq!(v[0].avg_cost, 110_500);
}

#[test]
fn buy_totals_are_exact() {
    let rows = vec![
        entry(1, "AAPL", Side::Buy, 10 * Q, 100 * P, 10 * C),
        entry(1, "AAPL", Side::Buy, 10 * Q, 120 * P, 0),
    ];
    let v = positions_from(&rows, &vec![]).unwrap();
    // buy_cost = 1000 + 10 + 1200 = 2210, over buy_qty = 20
    assert_eq!(v[0].avg_cost * v[0].net_qty, 2_210 * C as i128);
    assert_eq!(v[0].last_price, None);
    assert_eq!(v[0].market_value, 0);
    assert_eq!(v[0].unrealized_pl, 0);
}

#[test]
fn short_position_has_no_market_value() {
    let mut db = store_with(&[("AAPL", AssetType::Stock)]);
    txn(&mut db, "AAPL", "sell", 5, 100, 0, "2025-01-01T00:00:00Z");
    upsert_price(&mut db, 1, "2025-01-02", 120 * P, "fixture").unwrap();
    let v = compute_position(&db, "you").unwrap();
    assert_eq!(v.len(), 1);
    assert_eq!(v[0].net_qty, -(5 * Q) as i128);
    assert_eq!(v[0].last_price, Some(120 * P));
    assert_eq!(v[0].market_value, 0);
    assert_eq!(v[0].avg_cost, 0);
    assert_eq!(v[0].unrealized_pl, -(5 * 120 * C) as i128);
}

#[test]
fn value_and_profit_use_latest_close() {
    let mut db = store_with(&[("AAPL", AssetType::Stock)]);
    txn(&mut db, "AAPL", "buy", 10, 100, 0, "2025-01-01T00:00:00Z");
    upsert_price(&mut db, 1, "2025-01-02", 150 * P, "fixture").unwrap();
    upsert_price(&mut db, 1, "2025-01-03", 130 * P, "fixture").unwrap();
    let v = compute_position(&db, "you").unwrap();
    assert_eq!(v[0].last_price, Some(130 * P));
    assert_eq!(v[0].market_value, (10 * 130 * C) as i128);
    assert_eq!(v[0].unrealized_pl, (10 * 30 * C) as i128);
}

#[test]
fn cash_flows_do_not_move_positions() {
    let mut db = store_with(&[("AAPL", AssetType::Stock)]);
    txn(&mut db, "AAPL", "buy", 10, 100, 0, "2025-01-01T00:00:00Z");
    let before = compute_position(&db, "you").unwrap();
    txn(&mut db, "AAPL", "dividend", 3, 7, 1, "2025-01-02T00:00:00Z");
    txn(&mut db, "AAPL", "deposit", 1000, 1, 0, "2025-01-03T00:00:00Z");
    txn(&mut db, "AAPL", "withdrawal", 50, 99, 2, "2025-01-04T00:00:00Z");
    let after = compute_position(&db, "you").unwrap();
    assert_eq!(before.len(), 1);
    assert_eq!(after.len(), 1);
    assert_eq!(after[0].net_qty, before[0].net_qty);
    assert_eq!(after[0].avg_cost, before[0].avg_cost);
}

#[test]
fn cash_flows_alone_hold_nothing() {
    let mut db = store_with(&[("AAPL", AssetType::Stock)]);
    txn(&mut db, "AAPL", "deposit", 10, 100, 0, "2025-01-01T00:00:00Z");
    assert!(compute_position(&db, "you").unwrap().is_empty());
}

#[test]
fn positions_sorted_by_symbol_once_each() {
    let mut db = store_with(&[
        ("MSFT", AssetType::Stock),
        ("AAPL", AssetType::Stock),
        ("GOOG", AssetType::Stock),
    ]);
    txn(&mut db, "MSFT", "buy", 1, 300, 0, "2025-01-01T00:00:00Z");
    txn(&mut db, "AAPL", "buy", 2, 100, 0, "2025-01-02T00:00:00Z");
    txn(&mut db, "GOOG", "buy", 3, 150, 0, "2025-01-03T00:00:00Z");
    txn(&mut db, "AAPL", "buy", 1, 110, 0, "2025-01-04T00:00:00Z");
    let v = compute_position(&db, "you").unwrap();
    let symbols: Vec<&str> = v.iter().map(|p: &Position| p.symbol.as_str()).collect();
    assert_eq!(symbols, vec!["AAPL", "GOOG", "MSFT"]);
    assert_eq!(v[0].net_qty, (3 * Q) as i128);
}

#[test]
fn positions_only_of_the_user() {
    let mut db = store_with(&[("AAPL", AssetType::Stock)]);
    insert_txn(&mut db, "ann", "AAPL", "buy", Q, P, 0, "2025-01-01T00:00:00Z", None).unwrap();
    assert!(compute_position(&db, "you").unwrap().is_empty());
    assert_eq!(compute_position(&db, "ann").unwrap().len(), 1);
}

fn entry(id: i64, sym: &str, side: Side, qty: i64, price: i64, fee: i64) -> LedgerEntry {
    LedgerEntry {
        asset_id: id,
        symbol: sym.to_string(),
        asset_type: AssetType::Stock,
        currency: "USD".to_string(),
        side,
        qty,
        price,
        fee,
    }
}

#[test]
fn engine_uses_first_quote_of_each_asset() {
    let rows = vec![entry(7, "X", Side::Buy, 2, 5, 0)];
    let quotes = vec![Quote { asset_id: 7, close: 9 }, Quote { asset_id: 7, close: 1 }];
    let v = positions_from(&rows, &quotes).unwrap();
    assert_eq!(v[0].last_price, Some(9));
    assert_eq!(v[0].market_value, 18);
    assert_eq!(v[0].unrealized_pl, 8);
}

#[test]
fn engine_reports_overflow() {
    let rows = vec![
        entry(1, "X", Side::Buy, i64::MAX, i64::MAX, i64::MAX),
        entry(1, "X", Side::Buy, i64::MAX, i64::MAX, i64::MAX),
        entry(1, "X", Side::Buy, i64::MAX, i64::MAX, i64::MAX),
    ];
    assert_eq!(positions_from(&rows, &vec![]).err(), Some(LedgerError::Overflow));
}

#[test]
fn engine_reports_value_overflow() {
    // net quantity 3 * i64::MAX times a close of i64::MAX exceeds i128
    let rows = vec![
        entry(1, "X", Side::Buy, i64::MAX, 1, 0),
        entry(1, "X", Side::Buy, i64::MAX, 1, 0),
        entry(1, "X", Side::Buy, i64::MAX, 1, 0),
    ];
    let quotes = vec![Quote { asset_id: 1, close: i64::MAX }];
    assert_eq!(positions_from(&rows, &quotes).err(), Some(LedgerError::Overflow));
    assert!(positions_from(&rows, &vec![]).is_ok());
}

#[test]
fn totals_sum_every_position() {
    let mut db = store_with(&[("AAPL", AssetType::Stock), ("BTC", AssetType::Crypto)]);
    txn(&mut db, "AAPL", "buy", 10, 100, 0, "2025-01-01T00:00:00Z");
    txn(&mut db, "BTC", "buy", 2, 1000, 0, "2025-01-01T00:00:00Z");
    upsert_price(&mut db, 1, "2025-01-02", 110 * P, "fixture").unwrap();
    upsert_price(&mut db, 2, "2025-01-02", 900 * P, "fixture").unwrap();
    let v = compute_position(&db, "you").unwrap();
    let (tv, tpl) = portfolio_totals(&v).unwrap();
    assert_eq!(tv, ((1100 + 1800) * C) as i128);
    assert_eq!(tpl, ((100 - 200) * C) as i128);
    assert_eq!(portfolio_totals(&vec![]), Some((0, 0)));
}

#[test]
fn totals_report_overflow() {
    let rows = vec![entry(1, "A", Side::Buy, i64::MAX, 1, 0), entry(2, "B", Side::Buy, i64::MAX, 1, 0)];
    let quotes = vec![Quote { asset_id: 1, close: i64::MAX }, Quote { asset_id: 2, close: i64::MAX }];
    let v = positions_from(&rows, &quotes).unwrap();
    let mut many = Vec::new();
    for _ in 0..3 {
        for p in &v {
            many.push(Position { symbol: p.symbol.clone(), currency: p.currency.clone(), ..*p });
        }
    }
    assert_eq!(portfolio_totals(&many), None);
}
