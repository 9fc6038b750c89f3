use vstd::prelude::*;
use crate::error::LedgerError;
use crate::kinds::AssetType;

verus! {

/// A registered instrument.
pub struct AssetRow {
    pub id: i64,
    pub symbol: String,
    pub asset_type: AssetType,
    pub currency: String,
    pub name: Option<String>,
}

/// The ids, in registration order, of the assets that carry `symbol`.
pub open spec fn ids_with_symbol(assets: Seq<AssetRow>, symbol: Seq<char>) -> Seq<i64>
    decreases assets.len(),
{
    if assets.len() == 0 {
        Seq::empty()
    } else if assets.last().symbol@ == symbol {
        ids_with_symbol(assets.drop_last(), symbol).push(assets.last().id)
    } else {
        ids_with_symbol(assets.drop_last(), symbol)
    }
}

/// What resolving a symbol gives, from the ids of the assets that carry it.
pub open spec fn resolve_ids(ids: Seq<i64>) -> Result<i64, LedgerError> {
    if ids.len() == 0 {
        Err(LedgerError::NotFound)
    } else if ids.len() == 1 {
        Ok(ids[0])
    } else {
        Err(LedgerError::Ambiguous)
    }
}

/// Some asset carries both `symbol` and `asset_type`.
pub open spec fn has_pair(assets: Seq<AssetRow>, symbol: Seq<char>, asset_type: AssetType) -> bool {
    exists|i: int|
        0 <= i < assets.len() && #[trigger] assets[i].symbol@ == symbol && assets[i].asset_type
            == asset_type
}

/// Resolves a symbol from the ids of the assets that carry it: exactly one
/// gives that id, none fails `NotFound`, more fail `Ambiguous`.
pub fn resolve_matches(ids: &Vec<i64>) -> (r: Result<i64, LedgerError>)
    ensures
        r == resolve_ids(ids@),
{
    if ids.len() == 0 {
        Err(LedgerError::NotFound)
    } else if ids.len() == 1 {
        Ok(ids[0])
    } else {
        Err(LedgerError::Ambiguous)
    }
}

/// No asset carries `symbol`: no id is found.
pub proof fn lemma_ids_absent(assets: Seq<AssetRow>, symbol: Seq<char>)
    requires
        forall|i: int| 0 <= i < assets.len() ==> #[trigger] assets[i].symbol@ != symbol,
    ensures
        ids_with_symbol(assets, symbol).len() == 0,
    decreases assets.len(),
{
    if assets.len() > 0 {
        let init = assets.drop_last();
        assert forall|i: int| 0 <= i < init.len() implies #[trigger] init[i].symbol@ != symbol by {
            assert(init[i] == assets[i]);
        }
        assert(assets[assets.len() - 1].symbol@ != symbol);
        lemma_ids_absent(init, symbol);
    }
}

/// Each asset that carries `symbol` adds one id.
pub proof fn lemma_ids_present(assets: Seq<AssetRow>, symbol: Seq<char>, i: int, j: int)
    requires
        0 <= i < assets.len(),
        assets[i].symbol@ == symbol,
        i <= j < assets.len(),
        assets[j].symbol@ == symbol,
    ensures
        ids_with_symbol(assets, symbol).len() >= 1,
        i < j ==> ids_with_symbol(assets, symbol).len() >= 2,
    decreases assets.len(),
{
    let init = assets.drop_last();
    if j < assets.len() - 1 {
        assert(init[i] == assets[i] && init[j] == assets[j]);
        lemma_ids_present(init, symbol, i, j);
    } else if i < j {
        assert(init[i] == assets[i]);
        lemma_ids_present(init, symbol, i, i);
    }
}

/// A symbol that two asset types share does not resolve: it is ambiguous.
/// A symbol that no asset carries is not found.
pub proof fn lemma_resolve_failures(assets: Seq<AssetRow>, symbol: Seq<char>)
    ensures
        (exists|i: int, j: int|
            0 <= i < j < assets.len() && #[trigger] assets[i].symbol@ == symbol
                && #[trigger] assets[j].symbol@ == symbol && assets[i].asset_type
                != assets[j].asset_type) ==> resolve_ids(ids_with_symbol(assets, symbol))
            == Err::<i64, LedgerError>(LedgerError::Ambiguous),
        (forall|i: int| 0 <= i < assets.len() ==> #[trigger] assets[i].symbol@ != symbol)
            ==> resolve_ids(ids_with_symbol(assets, symbol)) == Err::<i64, LedgerError>(
            LedgerError::NotFound,
        ),
{
    if exists|i: int, j: int|
        0 <= i < j < assets.len() && #[trigger] assets[i].symbol@ == symbol
            && #[trigger] assets[j].symbol@ == symbol && assets[i].asset_type
            != assets[j].asset_type {
        let (i, j) = choose|i: int, j: int|
            0 <= i < j < assets.len() && #[trigger] assets[i].symbol@ == symbol
                && #[trigger] assets[j].symbol@ == symbol && assets[i].asset_type
                != assets[j].asset_type;
        lemma_ids_present(assets, symbol, i, j);
    }
    if forall|i: int| 0 <= i < assets.len() ==> #[trigger] assets[i].symbol@ != symbol {
        lemma_ids_absent(assets, symbol);
    }
}

} // verus!
