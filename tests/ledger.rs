use portfolio::{
    insert_asset, insert_txn, list_txns, parse_side, side_from_lower, validate_txn, AssetType, Db,
    LedgerError, Side,
};

fn store() -> Db {
    let mut db = Db::new();
    insert_asset(&mut db, "AAPL", AssetType::Stock, "USD", None).unwrap();
    insert_asset(&mut db, "SPY", AssetType::Stock, "USD", None).unwrap();
    insert_asset(&mut db, "SPY", AssetType::Etf, "USD", None).unwrap();
    db
}

#[test]
fn append_gives_sequential_ids() {
    let mut db = store();
    assert_eq!(insert_txn(&mut db, "you", "AAPL", "buy", 10, 100, 0, "2025-01-01T00:00:00Z", None), Ok(1));
    assert_eq!(
        insert_txn(&mut db, "you", "AAPL", "SELL", 5, 120, 1, "2025-01-02T00:00:00Z", Some("half")),
        Ok(2)
    );
}

#[test]
fn append_rejects_bad_fields_before_resolving() {
    let mut db = store();
    let ts = "2025-01-01T00:00:00Z";
    assert_eq!(insert_txn(&mut db, "you", "NONE", "hold", 1, 1, 0, ts, None), Err(LedgerError::InvalidSide));
    assert_eq!(insert_txn(&mut db, "you", "NONE", "buy", 0, 1, 0, ts, None), Err(LedgerError::NonPositiveQty));
    assert_eq!(insert_txn(&mut db, "you", "NONE", "buy", -3, 1, 0, ts, None), Err(LedgerError::NonPositiveQty));
    assert_eq!(
        insert_txn(&mut db, "you", "NONE", "buy", 1, -1, 0, ts, None),
        Err(LedgerError::NegativePriceOrFee)
    );
    assert_eq!(
        insert_txn(&mut db, "you", "NONE", "buy", 1, 1, -1, ts, None),
        Err(LedgerError::NegativePriceOrFee)
    );
    assert_eq!(insert_txn(&mut db, "you", "NONE", "buy", 1, 1, 0, ts, None), Err(LedgerError::NotFound));
    assert_eq!(insert_txn(&mut db, "you", "SPY", "buy", 1, 1, 0, ts, None), Err(LedgerError::Ambiguous));
    assert!(list_txns(&db, "you", 10).is_empty());
    assert_eq!(insert_txn(&mut db, "you", "AAPL", "buy", 1, 0, 0, ts, None), Ok(1));
}

#[test]
fn listing_is_most_recent_first_and_limited() {
    let mut db = store();
    insert_txn(&mut db, "you", "AAPL", "buy", 1, 10, 0, "2025-01-02T00:00:00Z", None).unwrap();
    insert_txn(&mut db, "you", "AAPL", "sell", 2, 20, 0, "2025-01-03T00:00:00Z", Some("trim")).unwrap();
    insert_txn(&mut db, "ann", "AAPL", "buy", 3, 30, 0, "2025-01-04T00:00:00Z", None).unwrap();
    insert_txn(&mut db, "you", "AAPL", "dividend", 4, 40, 0, "2025-01-01T00:00:00Z", None).unwrap();
    let all = list_txns(&db, "you", 20);
    let ids: Vec<i64> = all.iter().map(|t| t.id).collect();
    assert_eq!(ids, vec![2, 1, 4]);
    assert_eq!(all[0].symbol, "AAPL");
    assert_eq!(all[0].side, Side::Sell);
    assert_eq!(all[0].note, Some("trim".to_string()));
    assert_eq!(all[0].qty, 2);
    assert_eq!(all[2].side, Side::Dividend);
    let two = list_txns(&db, "you", 2);
    let ids: Vec<i64> = two.iter().map(|t| t.id).collect();
    assert_eq!(ids, vec![2, 1]);
    assert!(list_txns(&db, "you", 0).is_empty());
    assert_eq!(list_txns(&db, "ann", 5).len(), 1);
}

#[test]
fn side_read_ignoring_case() {
    assert_eq!(parse_side("BUY"), Ok(Side::Buy));
    assert_eq!(parse_side("Withdrawal"), Ok(Side::Withdrawal));
    assert_eq!(parse_side("deposit"), Ok(Side::Deposit));
    assert_eq!(parse_side("short"), Err(LedgerError::InvalidSide));
    assert_eq!(side_from_lower("SELL"), None);
    assert_eq!(side_from_lower("sell"), Some(Side::Sell));
    assert_eq!(Side::Dividend.name(), "dividend");
}

#[test]
fn field_checks_in_order() {
    assert_eq!(validate_txn("buy", 1, 0, 0), Ok(Side::Buy));
    assert_eq!(validate_txn("Buy", 1, 0, 0), Err(LedgerError::InvalidSide));
    assert_eq!(validate_txn("sell", 0, -1, -1), Err(LedgerError::NonPositiveQty));
    assert_eq!(validate_txn("sell", 1, 0, -1), Err(LedgerError::NegativePriceOrFee));
}
