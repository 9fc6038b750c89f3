use portfolio::{insert_asset, lastest_price, upsert_price, AssetType, Db, LedgerError};

fn store() -> Db {
    let mut db = Db::new();
    insert_asset(&mut db, "AAPL", AssetType::Stock, "USD", None).unwrap();
    insert_asset(&mut db, "BTC", AssetType::Crypto, "USD", None).unwrap();
    db
}

#[test]
fn second_upsert_overwrites_the_first() {
    let mut db = store();
    upsert_price(&mut db, 1, "2025-01-01", 199, "a").unwrap();
    upsert_price(&mut db, 1, "2025-01-01", 205, "b").unwrap();
    assert_eq!(lastest_price(&db, 1), Some(("2025-01-01".to_string(), 205)));
}

#[test]
fn latest_is_the_greatest_date() {
    let mut db = store();
    upsert_price(&mut db, 1, "2025-01-03", 3, "x").unwrap();
    upsert_price(&mut db, 1, "2025-01-10", 10, "x").unwrap();
    upsert_price(&mut db, 1, "2024-12-31", 1, "x").unwrap();
    upsert_price(&mut db, 2, "2026-01-01", 99, "x").unwrap();
    assert_eq!(lastest_price(&db, 1), Some(("2025-01-10".to_string(), 10)));
    assert_eq!(lastest_price(&db, 2), Some(("2026-01-01".to_string(), 99)));
}

#[test]
fn no_samples_no_latest() {
    let db = store();
    assert_eq!(lastest_price(&db, 1), None);
    assert_eq!(lastest_price(&db, 7), None);
}

#[test]
fn upsert_on_unknown_asset_fails() {
    let mut db = store();
    assert_eq!(upsert_price(&mut db, 3, "2025-01-01", 1, "x"), Err(LedgerError::NotFound));
    assert_eq!(upsert_price(&mut db, 0, "2025-01-01", 1, "x"), Err(LedgerError::NotFound));
    assert_eq!(lastest_price(&db, 3), None);
}
