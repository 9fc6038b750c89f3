use portfolio::{
    asset_type_from_lower, find_asset_id_by_symbol, insert_asset, list_assets, parse_asset_type,
    resolve_matches, AssetType, Db, LedgerError,
};

#[test]
fn register_then_resolve_gives_the_id() {
    let mut db = Db::new();
    let a = insert_asset(&mut db, "AAPL", AssetType::Stock, "USD", Some("Apple")).unwrap();
    let b = insert_asset(&mut db, "BTC", AssetType::Crypto, "USD", None).unwrap();
    assert_eq!(a, 1);
    assert_eq!(b, 2);
    assert_eq!(find_asset_id_by_symbol(&db, "AAPL"), Ok(a));
    assert_eq!(find_asset_id_by_symbol(&db, "BTC"), Ok(b));
}

#[test]
fn registering_a_pair_twice_fails() {
    let mut db = Db::new();
    insert_asset(&mut db, "AAPL", AssetType::Stock, "USD", None).unwrap();
    assert_eq!(
        insert_asset(&mut db, "AAPL", AssetType::Stock, "EUR", None),
        Err(LedgerError::Duplicate)
    );
    assert_eq!(list_assets(&db).len(), 1);
}

#[test]
fn shared_symbol_is_ambiguous() {
    let mut db = Db::new();
    insert_asset(&mut db, "SPY", AssetType::Stock, "USD", None).unwrap();
    insert_asset(&mut db, "SPY", AssetType::Etf, "USD", None).unwrap();
    assert_eq!(find_asset_id_by_symbol(&db, "SPY"), Err(LedgerError::Ambiguous));
}

#[test]
fn unknown_symbol_is_not_found() {
    let mut db = Db::new();
    assert_eq!(find_asset_id_by_symbol(&db, "AAPL"), Err(LedgerError::NotFound));
    insert_asset(&mut db, "AAPL", AssetType::Stock, "USD", None).unwrap();
    assert_eq!(find_asset_id_by_symbol(&db, "aapl"), Err(LedgerError::NotFound));
}

#[test]
fn resolve_counts_matches() {
    assert_eq!(resolve_matches(&vec![]), Err(LedgerError::NotFound));
    assert_eq!(resolve_matches(&vec![4]), Ok(4));
    assert_eq!(resolve_matches(&vec![4, 9]), Err(LedgerError::Ambiguous));
}

#[test]
fn assets_listed_by_symbol() {
    let mut db = Db::new();
    insert_asset(&mut db, "MSFT", AssetType::Stock, "USD", None).unwrap();
    insert_asset(&mut db, "BTC", AssetType::Crypto, "USD", Some("Bitcoin")).unwrap();
    insert_asset(&mut db, "AAPL", AssetType::Stock, "EUR", None).unwrap();
    let rows = list_assets(&db);
    let symbols: Vec<&str> = rows.iter().map(|a| a.symbol.as_str()).collect();
    assert_eq!(symbols, vec!["AAPL", "BTC", "MSFT"]);
    assert_eq!(rows[0].id, 3);
    assert_eq!(rows[0].currency, "EUR");
    assert_eq!(rows[1].name, Some("Bitcoin".to_string()));
    assert_eq!(rows[1].asset_type, AssetType::Crypto);
}

#[test]
fn asset_type_read_ignoring_case() {
    assert_eq!(parse_asset_type("STOCK"), Ok(AssetType::Stock));
    assert_eq!(parse_asset_type("Etf"), Ok(AssetType::Etf));
    assert_eq!(parse_asset_type("crypto"), Ok(AssetType::Crypto));
    assert_eq!(parse_asset_type("bond"), Err(LedgerError::InvalidAssetType));
    assert_eq!(parse_asset_type(""), Err(LedgerError::InvalidAssetType));
}

#[test]
fn asset_type_from_lower_is_exact() {
    assert_eq!(asset_type_from_lower("etf"), Some(AssetType::Etf));
    assert_eq!(asset_type_from_lower("ETF"), None);
    assert_eq!(AssetType::Crypto.name(), "crypto");
}
