use vstd::prelude::*;
use crate::engine::{asset_fits, held, is_snapshot, positions_from, quote_for, LedgerEntry, Position, Quote};
use crate::error::LedgerError;
use crate::kinds::{lower_of, lowercase, side_named, side_from_lower, AssetType, Side};
use crate::order::{is_permutation, sorted_order};
use crate::prices::{has_sample, is_latest, keys_unique, latest_of, latest_sample, upsert_sample, upserted, PriceSample};
use crate::registry::{has_pair, ids_with_symbol, resolve_ids, resolve_matches, AssetRow};
use crate::text::{text_eq, text_le};

verus! {

/// One event of the ledger, as it was appended.
pub struct Transaction {
    pub id: i64,
    pub user: String,
    pub asset_id: i64,
    pub side: Side,
    pub qty: i64,
    pub price: i64,
    pub fee: i64,
    pub ts: String,
    pub note: Option<String>,
}

/// A ledger event as listed: the asset is shown by its symbol.
pub struct TxnRow {
    pub id: i64,
    pub ts: String,
    pub user: String,
    pub symbol: String,
    pub side: Side,
    pub qty: i64,
    pub price: i64,
    pub fee: i64,
    pub note: Option<String>,
}

/// The store of a ledger: the asset registry, the append-only transaction
/// log and the price series.
pub struct Db {
    assets: Vec<AssetRow>,
    txns: Vec<Transaction>,
    prices: Vec<PriceSample>,
}

/// The text of an optional `String`.
pub open spec fn opt_text(o: Option<String>) -> Option<Seq<char>> {
    match o {
        Some(s) => Some(s@),
        None => None,
    }
}

/// The text of an optional `&str`.
pub open spec fn opt_str(o: Option<&str>) -> Option<Seq<char>> {
    match o {
        Some(s) => Some(s@),
        None => None,
    }
}

/// Asset `i` has id `i + 1`, and no symbol is registered twice under one type.
pub open spec fn assets_ok(assets: Seq<AssetRow>) -> bool {
    &&& forall|i: int| 0 <= i < assets.len() ==> #[trigger] assets[i].id == i + 1
    &&& forall|i: int, j: int|
        0 <= i < j < assets.len() ==> !(assets[i].symbol@ == assets[j].symbol@
            && assets[i].asset_type == assets[j].asset_type)
}

/// A transaction refers to a registered asset, with a positive quantity and
/// no negative price or fee.
pub open spec fn txn_ok(t: Transaction, n_assets: int) -> bool {
    1 <= t.asset_id <= n_assets && t.qty > 0 && t.price >= 0 && t.fee >= 0
}

/// The outcome of registering `symbol` under `asset_type`: `new` is `old`
/// with one more asset where the pair was free, and unchanged otherwise.
pub open spec fn asset_registered(
    old: Seq<AssetRow>,
    new: Seq<AssetRow>,
    symbol: Seq<char>,
    asset_type: AssetType,
    currency: Seq<char>,
    name: Option<Seq<char>>,
    r: Result<i64, LedgerError>,
) -> bool {
    if has_pair(old, symbol, asset_type) {
        r == Err::<i64, LedgerError>(LedgerError::Duplicate) && new == old
    } else {
        &&& r == Ok::<i64, LedgerError>((old.len() + 1) as i64)
        &&& new.len() == old.len() + 1
        &&& new.drop_last() == old
        &&& new.last().id == old.len() + 1
        &&& new.last().symbol@ == symbol
        &&& new.last().asset_type == asset_type
        &&& new.last().currency@ == currency
        &&& opt_text(new.last().name) == name
    }
}

/// The checks on a new ledger event, in order: side, quantity, then price
/// and fee.
pub open spec fn txn_fields(side: Option<Side>, qty: i64, price: i64, fee: i64) -> Result<Side, LedgerError> {
    match side {
        None => Err(LedgerError::InvalidSide),
        Some(s) => if qty <= 0 {
            Err(LedgerError::NonPositiveQty)
        } else if price < 0 || fee < 0 {
            Err(LedgerError::NegativePriceOrFee)
        } else {
            Ok(s)
        },
    }
}

/// The outcome of appending an event: the checks first, then the symbol,
/// and the next id where both pass.
pub open spec fn txn_outcome(
    fields: Result<Side, LedgerError>,
    resolved: Result<i64, LedgerError>,
    next_id: int,
) -> Result<i64, LedgerError> {
    match fields {
        Err(e) => Err(e),
        Ok(_) => match resolved {
            Err(e) => Err(e),
            Ok(_) => Ok(next_id as i64),
        },
    }
}

/// The indices of the events of `user`, in ledger order.
pub open spec fn user_txns(txns: Seq<Transaction>, user: Seq<char>) -> Seq<int>
    decreases txns.len(),
{
    if txns.len() == 0 {
        Seq::empty()
    } else if txns.last().user@ == user {
        user_txns(txns.drop_last(), user).push(txns.len() - 1)
    } else {
        user_txns(txns.drop_last(), user)
    }
}

/// Visiting the events `ix` in the order `p` meets them by ascending time.
pub open spec fn by_time(txns: Seq<Transaction>, ix: Seq<int>, p: Seq<usize>) -> bool {
    &&& is_permutation(p, ix.len())
    &&& forall|k: int|
        0 <= k < p.len() - 1 ==> #[trigger] text_le(
            txns[ix[p[k] as int]].ts@,
            txns[ix[p[k + 1] as int]].ts@,
        )
}

/// `r` shows event `t`, with the symbol of its asset.
pub open spec fn row_shows(r: TxnRow, t: Transaction, assets: Seq<AssetRow>) -> bool {
    &&& r.id == t.id
    &&& r.ts == t.ts
    &&& r.user == t.user
    &&& r.symbol == assets[t.asset_id - 1].symbol
    &&& r.side == t.side
    &&& r.qty == t.qty
    &&& r.price == t.price
    &&& r.fee == t.fee
    &&& r.note == t.note
}

/// `e` is event `t` joined with its asset.
pub open spec fn entry_shows(e: LedgerEntry, t: Transaction, assets: Seq<AssetRow>) -> bool {
    let asset = assets[t.asset_id - 1];
    &&& e.asset_id == t.asset_id
    &&& e.symbol == asset.symbol
    &&& e.asset_type == asset.asset_type
    &&& e.currency == asset.currency
    &&& e.side == t.side
    &&& e.qty == t.qty
    &&& e.price == t.price
    &&& e.fee == t.fee
}

/// `rows` are the events of `user`, joined with their assets, by ascending time.
pub open spec fn replay_of(
    assets: Seq<AssetRow>,
    txns: Seq<Transaction>,
    user: Seq<char>,
    rows: Seq<LedgerEntry>,
) -> bool {
    let ix = user_txns(txns, user);
    exists|p: Seq<usize>|
        #[trigger] by_time(txns, ix, p) && rows.len() == ix.len() && forall|m: int|
            0 <= m < rows.len() ==> entry_shows(#[trigger] rows[m], txns[ix[p[m] as int]], assets)
}

/// `quotes` give for each asset the close of its latest sample, and nothing
/// for an asset without samples.
pub open spec fn quotes_of(prices: Seq<PriceSample>, quotes: Seq<Quote>) -> bool {
    forall|a: i64|
        match #[trigger] quote_for(quotes, a) {
            None => !has_sample(prices, a),
            Some(c) => exists|i: int| #[trigger] is_latest(prices, a, i) && prices[i].close == c,
        }
}

/// `new` is `old` with one more event, carrying these fields and the next id.
pub open spec fn txn_appended(
    old: Seq<Transaction>,
    new: Seq<Transaction>,
    user: Seq<char>,
    asset_id: i64,
    side: Side,
    qty: i64,
    price: i64,
    fee: i64,
    ts: Seq<char>,
    note: Option<Seq<char>>,
) -> bool {
    let t = new.last();
    &&& new.len() == old.len() + 1
    &&& new.drop_last() == old
    &&& t.id == old.len() + 1
    &&& t.user@ == user
    &&& t.asset_id == asset_id
    &&& t.side == side
    &&& t.qty == qty
    &&& t.price == price
    &&& t.fee == fee
    &&& t.ts@ == ts
    &&& opt_text(t.note) == note
}

/// `r` is what computing the positions of `user` gives: the snapshot of the
/// user's events, replayed by time, valued at each asset's latest close.
pub open spec fn positions_of(
    assets: Seq<AssetRow>,
    txns: Seq<Transaction>,
    prices: Seq<PriceSample>,
    user: Seq<char>,
    r: Result<Vec<Position>, LedgerError>,
) -> bool {
    exists|rows: Seq<LedgerEntry>, quotes: Seq<Quote>|
        #![trigger replay_of(assets, txns, user, rows), quotes_of(prices, quotes)]
        replay_of(assets, txns, user, rows) && quotes_of(prices, quotes) && (match r {
            Ok(v) => is_snapshot(rows, quotes, v@),
            Err(e) => e == LedgerError::Overflow,
        }) && (r is Err <==> exists|a: i64|
            #[trigger] held(rows, a) && !asset_fits(rows, quotes, a))
}

/// The ids of the assets that carry a symbol are registered ids.
pub proof fn lemma_ids_in_range(assets: Seq<AssetRow>, symbol: Seq<char>)
    requires
        assets_ok(assets),
    ensures
        forall|m: int|
            0 <= m < ids_with_symbol(assets, symbol).len() ==> 1 <= #[trigger] ids_with_symbol(
                assets,
                symbol,
            )[m] <= assets.len(),
    decreases assets.len(),
{
    if assets.len() > 0 {
        let init = assets.drop_last();
        assert(assets_ok(init)) by {
            assert forall|i: int| 0 <= i < init.len() implies #[trigger] init[i].id == i + 1 by {
                assert(init[i] == assets[i]);
            }
            assert forall|i: int, j: int| 0 <= i < j < init.len() implies !(init[i].symbol@
                == init[j].symbol@ && init[i].asset_type == init[j].asset_type) by {
                assert(init[i] == assets[i] && init[j] == assets[j]);
            }
        }
        lemma_ids_in_range(init, symbol);
        assert(assets[assets.len() - 1].id == assets.len());
        let ids = ids_with_symbol(assets, symbol);
        let prev = ids_with_symbol(init, symbol);
        assert forall|m: int| 0 <= m < ids.len() implies 1 <= #[trigger] ids[m] <= assets.len() by {
            if m < prev.len() {
                assert(ids[m] == prev[m]);
            }
        }
    }
}

/// The indices of a user's events are indices of the ledger.
pub proof fn lemma_user_txns_in_range(txns: Seq<Transaction>, user: Seq<char>)
    ensures
        forall|m: int|
            0 <= m < user_txns(txns, user).len() ==> 0 <= #[trigger] user_txns(txns, user)[m]
                < txns.len(),
    decreases txns.len(),
{
    if txns.len() > 0 {
        lemma_user_txns_in_range(txns.drop_last(), user);
        let ix = user_txns(txns, user);
        let prev = user_txns(txns.drop_last(), user);
        assert forall|m: int| 0 <= m < ix.len() implies 0 <= #[trigger] ix[m] < txns.len() by {
            if m < prev.len() {
                assert(ix[m] == prev[m]);
            }
        }
    }
}

/// Appending a quote changes what is read for its asset alone, and only
/// where no earlier quote covers it.
proof fn lemma_quote_for_push(quotes: Seq<Quote>, x: Quote, a: i64)
    ensures
        quote_for(quotes.push(x), a) == match quote_for(quotes, a) {
            Some(c) => Some(c),
            None => if x.asset_id == a {
                Some(x.close)
            } else {
                None
            },
        },
    decreases quotes.len(),
{
    let pushed = quotes.push(x);
    if quotes.len() > 0 {
        assert(pushed[0] == quotes[0]);
        assert(pushed.drop_first() =~= quotes.drop_first().push(x));
        lemma_quote_for_push(quotes.drop_first(), x, a);
    } else {
        assert(pushed[0] == x);
        assert(pushed.drop_first() =~= Seq::<Quote>::empty());
        assert(quote_for(Seq::<Quote>::empty(), a) is None);
        assert(quote_for(quotes, a) is None);
    }
}

impl Db {
    /// The registered assets, in registration order.
    pub closed spec fn asset_rows(&self) -> Seq<AssetRow> {
        self.assets@
    }

    /// The ledger, in order of appending.
    pub closed spec fn txn_rows(&self) -> Seq<Transaction> {
        self.txns@
    }

    /// The recorded price samples.
    pub closed spec fn price_rows(&self) -> Seq<PriceSample> {
        self.prices@
    }

    /// The store's invariant: assets numbered from 1 with unique pairs,
    /// events numbered from 1 that refer to registered assets and pass the
    /// checks, at most one sample per asset and date, each of a registered asset.
    pub open spec fn wf(&self) -> bool {
        &&& assets_ok(self.asset_rows())
        &&& self.asset_rows().len() <= i64::MAX
        &&& forall|i: int|
            0 <= i < self.txn_rows().len() ==> txn_ok(
                #[trigger] self.txn_rows()[i],
                self.asset_rows().len() as int,
            ) && self.txn_rows()[i].id == i + 1
        &&& keys_unique(self.price_rows())
        &&& forall|i: int|
            0 <= i < self.price_rows().len() ==> 1 <= #[trigger] self.price_rows()[i].asset_id
                <= self.asset_rows().len()
    }

    /// An empty store.
    pub fn new() -> (r: Db)
        ensures
            r.wf(),
            r.asset_rows().len() == 0,
            r.txn_rows().len() == 0,
            r.price_rows().len() == 0,
    {
        Db { assets: Vec::new(), txns: Vec::new(), prices: Vec::new() }
    }
}

/// Registers an asset and gives its id; fails `Duplicate` where the
/// symbol is already registered under that type.
pub fn insert_asset(
    db: &mut Db,
    symbol: &str,
    asset_type: AssetType,
    currency: &str,
    name: Option<&str>,
) -> (r: Result<i64, LedgerError>)
    requires
        old(db).wf(),
        old(db).asset_rows().len() < i64::MAX,
    ensures
        final(db).wf(),
        asset_registered(
            old(db).asset_rows(),
            final(db).asset_rows(),
            symbol@,
            asset_type,
            currency@,
            opt_str(name),
            r,
        ),
        final(db).txn_rows() == old(db).txn_rows(),
        final(db).price_rows() == old(db).price_rows(),
{
    let mut i: usize = 0;
    while i < db.assets.len()
        invariant
            *db == *old(db),
            db.wf(),
            db.assets@.len() < i64::MAX,
            i <= db.assets@.len(),
            forall|j: int|
                0 <= j < i ==> !(#[trigger] db.assets@[j].symbol@ == symbol@
                    && db.assets@[j].asset_type == asset_type),
        decreases db.assets@.len() - i,
    {
        if text_eq(db.assets[i].symbol.as_str(), symbol) && db.assets[i].asset_type
            == asset_type {
            return Err(LedgerError::Duplicate);
        }
        i = i + 1;
    }
    let id = (db.assets.len() as i64) + 1;
    let name = match name {
        Some(n) => Some(n.to_owned()),
        None => None,
    };
    let row = AssetRow {
        id,
        symbol: symbol.to_owned(),
        asset_type,
        currency: currency.to_owned(),
        name,
    };
    let ghost before = db.assets@;
    db.assets.push(row);
    proof {
        assert(db.assets@.drop_last() =~= before);
        assert forall|j: int, k: int| 0 <= j < k < db.assets@.len() implies !(
        db.assets@[j].symbol@ == db.assets@[k].symbol@ && db.assets@[j].asset_type
            == db.assets@[k].asset_type) by {
            assert(db.assets@[j] == before[j]);
            if k < before.len() {
                assert(db.assets@[k] == before[k]);
            }
        }
        assert forall|j: int| 0 <= j < db.assets@.len() implies #[trigger] db.assets@[j].id
            == j + 1 by {
            if j < before.len() {
                assert(db.assets@[j] == before[j]);
            }
        }
        assert(assets_ok(db.asset_rows()));
        assert(keys_unique(db.price_rows()));
        assert forall|i: int| 0 <= i < db.txn_rows().len() implies txn_ok(
            #[trigger] db.txn_rows()[i],
            db.asset_rows().len() as int,
        ) && db.txn_rows()[i].id == i + 1 by {
            assert(db.txn_rows()[i] == old(db).txn_rows()[i]);
        }
    }
    Ok(id)
}

/// The registered assets, sorted by symbol.
pub fn list_assets(db: &Db) -> (r: Vec<AssetRow>)
    ensures
        exists|p: Seq<usize>|
            #[trigger] is_permutation(p, db.asset_rows().len()) && forall|m: int|
                0 <= m < r@.len() ==> #[trigger] r@[m] == db.asset_rows()[p[m] as int],
        r@.len() == db.asset_rows().len(),
        forall|m: int|
            0 <= m < r@.len() - 1 ==> #[trigger] text_le(r@[m].symbol@, r@[m + 1].symbol@),
{
    let mut keys: Vec<String> = Vec::new();
    let mut j: usize = 0;
    while j < db.assets.len()
        invariant
            j <= db.assets@.len(),
            keys@.len() == j,
            forall|m: int| 0 <= m < j ==> #[trigger] keys@[m] == db.assets@[m].symbol,
        decreases db.assets@.len() - j,
    {
        keys.push(db.assets[j].symbol.clone());
        j = j + 1;
    }
    let p = sorted_order(&keys);
    let mut r: Vec<AssetRow> = Vec::new();
    let mut m: usize = 0;
    while m < p.len()
        invariant
            is_permutation(p@, db.assets@.len()),
            keys@.len() == db.assets@.len(),
            m <= p@.len(),
            r@.len() == m,
            forall|q: int| 0 <= q < m ==> #[trigger] r@[q] == db.assets@[p@[q] as int],
        decreases p@.len() - m,
    {
        r.push(copy_asset(&db.assets[p[m]]));
        m = m + 1;
    }
    proof {
        assert forall|m: int| 0 <= m < r@.len() - 1 implies #[trigger] text_le(
            r@[m].symbol@,
            r@[m + 1].symbol@,
        ) by {
            assert(keys@[p@[m] as int] == db.assets@[p@[m] as int].symbol);
            assert(keys@[p@[m + 1] as int] == db.assets@[p@[m + 1] as int].symbol);
            assert(text_le(keys@[p@[m] as int]@, keys@[p@[m + 1] as int]@));
        }
        assert(is_permutation(p@, db.asset_rows().len()));
    }
    r
}

/// The id of the one asset that carries `symbol`; fails `NotFound` where
/// none does and `Ambiguous` where several asset types share it.
pub fn find_asset_id_by_symbol(db: &Db, symbol: &str) -> (r: Result<i64, LedgerError>)
    ensures
        r == resolve_ids(ids_with_symbol(db.asset_rows(), symbol@)),
{
    let mut ids: Vec<i64> = Vec::new();
    let mut i: usize = 0;
    assert(db.assets@.take(0) =~= Seq::<AssetRow>::empty());
    while i < db.assets.len()
        invariant
            i <= db.assets@.len(),
            ids@ == ids_with_symbol(db.assets@.take(i as int), symbol@),
        decreases db.assets@.len() - i,
    {
        assert(db.assets@.take(i + 1).drop_last() =~= db.assets@.take(i as int));
        if text_eq(db.assets[i].symbol.as_str(), symbol) {
            ids.push(db.assets[i].id);
        }
        i = i + 1;
    }
    assert(db.assets@.take(i as int) =~= db.assets@);
    resolve_matches(&ids)
}

/// Appends an event for `user` and gives its id. The side is read
/// ignoring case; the checks run before the symbol is resolved, and
/// nothing is written unless all pass.
pub fn insert_txn(
    db: &mut Db,
    user: &str,
    symbol: &str,
    side: &str,
    qty: i64,
    price: i64,
    fee: i64,
    ts: &str,
    note: Option<&str>,
) -> (r: Result<i64, LedgerError>)
    requires
        old(db).wf(),
        old(db).txn_rows().len() < i64::MAX,
    ensures
        final(db).wf(),
        final(db).asset_rows() == old(db).asset_rows(),
        final(db).price_rows() == old(db).price_rows(),
        r == txn_outcome(
            txn_fields(side_named(lower_of(side@)), qty, price, fee),
            resolve_ids(ids_with_symbol(old(db).asset_rows(), symbol@)),
            old(db).txn_rows().len() + 1int,
        ),
        r is Err ==> final(db).txn_rows() == old(db).txn_rows(),
        r is Ok ==> txn_appended(
            old(db).txn_rows(),
            final(db).txn_rows(),
            user@,
            resolve_ids(ids_with_symbol(old(db).asset_rows(), symbol@))->Ok_0,
            txn_fields(side_named(lower_of(side@)), qty, price, fee)->Ok_0,
            qty,
            price,
            fee,
            ts@,
            opt_str(note),
        ),
{
    let lower = lowercase(side);
    let s = match validate_txn(lower.as_str(), qty, price, fee) {
        Ok(s) => s,
        Err(e) => return Err(e),
    };
    let asset_id = match find_asset_id_by_symbol(db, symbol) {
        Ok(a) => a,
        Err(e) => return Err(e),
    };
    proof {
        lemma_ids_in_range(db.assets@, symbol@);
    }
    let id = (db.txns.len() as i64) + 1;
    let note = match note {
        Some(n) => Some(n.to_owned()),
        None => None,
    };
    let t = Transaction {
        id,
        user: user.to_owned(),
        asset_id,
        side: s,
        qty,
        price,
        fee,
        ts: ts.to_owned(),
        note,
    };
    let ghost before = db.txns@;
    db.txns.push(t);
    proof {
        assert(db.txns@.drop_last() =~= before);
        assert forall|i: int| 0 <= i < db.txn_rows().len() implies txn_ok(
            #[trigger] db.txn_rows()[i],
            db.asset_rows().len() as int,
        ) && db.txn_rows()[i].id == i + 1 by {
            if i < before.len() {
                assert(db.txns@[i] == before[i]);
            }
        }
    }
    Ok(id)
}

/// The indices of the events of `user`, and the order that visits them
/// by ascending time.
fn user_events_by_time(db: &Db, user: &str) -> (res: (Vec<usize>, Vec<usize>))
    ensures
        res.0@.len() == user_txns(db.txn_rows(), user@).len(),
        forall|m: int|
            0 <= m < res.0@.len() ==> #[trigger] res.0@[m] as int == user_txns(
                db.txn_rows(),
                user@,
            )[m] && res.0@[m] < db.txn_rows().len(),
        by_time(db.txn_rows(), user_txns(db.txn_rows(), user@), res.1@),
{
    let mut ix: Vec<usize> = Vec::new();
    let mut i: usize = 0;
    assert(db.txns@.take(0) =~= Seq::<Transaction>::empty());
    while i < db.txns.len()
        invariant
            i <= db.txns@.len(),
            ix@.len() == user_txns(db.txns@.take(i as int), user@).len(),
            forall|m: int|
                0 <= m < ix@.len() ==> #[trigger] ix@[m] as int == user_txns(
                    db.txns@.take(i as int),
                    user@,
                )[m] && ix@[m] < i,
        decreases db.txns@.len() - i,
    {
        assert(db.txns@.take(i + 1).drop_last() =~= db.txns@.take(i as int));
        if text_eq(db.txns[i].user.as_str(), user) {
            ix.push(i);
        }
        i = i + 1;
    }
    assert(db.txns@.take(i as int) =~= db.txns@);
    let ghost ixs = user_txns(db.txns@, user@);
    let mut keys: Vec<String> = Vec::new();
    let mut j: usize = 0;
    while j < ix.len()
        invariant
            ix@.len() == ixs.len(),
            forall|m: int| 0 <= m < ix@.len() ==> #[trigger] ix@[m] as int == ixs[m] && ix@[m] < db.txns@.len(),
            j <= ix@.len(),
            keys@.len() == j,
            forall|m: int| 0 <= m < j ==> #[trigger] keys@[m] == db.txns@[ixs[m]].ts,
        decreases ix@.len() - j,
    {
        keys.push(db.txns[ix[j]].ts.clone());
        j = j + 1;
    }
    let p = sorted_order(&keys);
    proof {
        assert forall|k: int| 0 <= k < p@.len() - 1 implies #[trigger] text_le(
            db.txns@[ixs[p@[k] as int]].ts@,
            db.txns@[ixs[p@[k + 1] as int]].ts@,
        ) by {
            assert(text_le(keys@[p@[k] as int]@, keys@[p@[k + 1] as int]@));
        }
    }
    (ix, p)
}

/// The latest `limit` events of `user`, most recent first, each shown with
/// the symbol of its asset.
pub fn list_txns(db: &Db, user: &str, limit: usize) -> (r: Vec<TxnRow>)
    requires
        db.wf(),
    ensures
        ({
            let ix = user_txns(db.txn_rows(), user@);
            &&& r@.len() == if limit < ix.len() {
                limit as int
            } else {
                ix.len() as int
            }
            &&& exists|p: Seq<usize>|
                #[trigger] by_time(db.txn_rows(), ix, p) && forall|m: int|
                    0 <= m < r@.len() ==> row_shows(
                        #[trigger] r@[m],
                        db.txn_rows()[ix[p[ix.len() - 1 - m] as int]],
                        db.asset_rows(),
                    )
        }),
{
    let (ix, p) = user_events_by_time(db, user);
    let ghost ixs = user_txns(db.txns@, user@);
    let n = ix.len();
    let count = if limit < n {
        limit
    } else {
        n
    };
    let mut r: Vec<TxnRow> = Vec::new();
    let mut m: usize = 0;
    while m < count
        invariant
            db.wf(),
            count <= n,
            n == ix@.len(),
            ix@.len() == ixs.len(),
            forall|q: int| 0 <= q < ix@.len() ==> #[trigger] ix@[q] as int == ixs[q] && ix@[q] < db.txns@.len(),
            is_permutation(p@, n as nat),
            m <= count,
            r@.len() == m,
            forall|q: int|
                0 <= q < m ==> row_shows(
                    #[trigger] r@[q],
                    db.txns@[ixs[p@[n - 1 - q] as int]],
                    db.assets@,
                ),
        decreases count - m,
    {
        let t = &db.txns[ix[p[n - 1 - m]]];
        let n_assets = db.assets.len();
        proof {
            assert(txn_ok(db.txn_rows()[ix@[p@[n - 1 - m] as int] as int], n_assets as int));
        }
        let ai = (t.asset_id - 1) as usize;
        let asset = &db.assets[ai];
        r.push(
            TxnRow {
                id: t.id,
                ts: t.ts.clone(),
                user: t.user.clone(),
                symbol: asset.symbol.clone(),
                side: t.side,
                qty: t.qty,
                price: t.price,
                fee: t.fee,
                note: copy_text(&t.note),
            },
        );
        proof {
            let k = p@[n - 1 - m] as int;
            assert(ix@[k] as int == ixs[k]);
            assert(row_shows(r@[m as int], db.txns@[ixs[k]], db.assets@));
        }
        m = m + 1;
    }
    r
}

/// Records the close of an asset on a date, replacing any close already
/// recorded for that asset and date; fails `NotFound` for an unknown asset.
pub fn upsert_price(db: &mut Db, asset_id: i64, date: &str, close: i64, source: &str) -> (r:
    Result<(), LedgerError>)
    requires
        old(db).wf(),
    ensures
        final(db).wf(),
        final(db).asset_rows() == old(db).asset_rows(),
        final(db).txn_rows() == old(db).txn_rows(),
        1 <= asset_id <= old(db).asset_rows().len() ==> r is Ok && upserted(
            old(db).price_rows(),
            final(db).price_rows(),
            asset_id,
            date@,
            close,
            source@,
        ),
        !(1 <= asset_id <= old(db).asset_rows().len()) ==> r == Err::<(), LedgerError>(
            LedgerError::NotFound,
        ) && final(db).price_rows() == old(db).price_rows(),
{
    if asset_id < 1 || asset_id as u64 > db.assets.len() as u64 {
        return Err(LedgerError::NotFound);
    }
    upsert_sample(&mut db.prices, asset_id, date, close, source);
    proof {
        assert forall|i: int| 0 <= i < db.price_rows().len() implies 1 <= #[trigger] db.price_rows()[i].asset_id
            <= db.asset_rows().len() by {
            if db.prices@[i].asset_id != asset_id {
                let j = choose|j: int| 0 <= j < old(db).prices@.len() && old(db).prices@[j].asset_id
                    == db.prices@[i].asset_id;
            }
        }
    }
    Ok(())
}

/// The date and close of the latest sample of an asset, or nothing where
/// it has none.
pub fn lastest_price(db: &Db, asset_id: i64) -> (r: Option<(String, i64)>)
    ensures
        latest_of(db.price_rows(), asset_id, r),
{
    latest_sample(&db.prices, asset_id)
}

/// The current holdings of `user`: the events of the user replayed by
/// time, valued at each asset's latest close, sorted by symbol. Fails
/// `Overflow` only where a figure does not fit.
pub fn compute_position(db: &Db, user: &str) -> (r: Result<Vec<Position>, LedgerError>)
    requires
        db.wf(),
    ensures
        positions_of(db.asset_rows(), db.txn_rows(), db.price_rows(), user@, r),
{
    let (ix, p) = user_events_by_time(db, user);
    let ghost ixs = user_txns(db.txns@, user@);
    let n = ix.len();
    let mut rows: Vec<LedgerEntry> = Vec::new();
    let mut m: usize = 0;
    while m < n
        invariant
            db.wf(),
            n == ix@.len(),
            ix@.len() == ixs.len(),
            forall|q: int| 0 <= q < ix@.len() ==> #[trigger] ix@[q] as int == ixs[q] && ix@[q] < db.txns@.len(),
            is_permutation(p@, n as nat),
            m <= n,
            rows@.len() == m,
            forall|q: int|
                0 <= q < m ==> entry_shows(
                    #[trigger] rows@[q],
                    db.txns@[ixs[p@[q] as int]],
                    db.assets@,
                ),
            forall|q: int| 0 <= q < m ==> crate::engine::entry_ok(#[trigger] rows@[q]),
        decreases n - m,
    {
        let t = &db.txns[ix[p[m]]];
        let n_assets = db.assets.len();
        proof {
            assert(txn_ok(db.txn_rows()[ix@[p@[m as int] as int] as int], n_assets as int));
        }
        let ai = (t.asset_id - 1) as usize;
        let asset = &db.assets[ai];
        rows.push(
            LedgerEntry {
                asset_id: t.asset_id,
                symbol: asset.symbol.clone(),
                asset_type: asset.asset_type,
                currency: asset.currency.clone(),
                side: t.side,
                qty: t.qty,
                price: t.price,
                fee: t.fee,
            },
        );
        proof {
            let k = p@[m as int] as int;
            assert(ix@[k] as int == ixs[k]);
            assert(entry_shows(rows@[m as int], db.txns@[ixs[k]], db.assets@));
        }
        m = m + 1;
    }
    let mut quotes: Vec<Quote> = Vec::new();
    let mut i: usize = 0;
    while i < db.assets.len()
        invariant
            db.wf(),
            i <= db.assets@.len(),
            forall|a: i64|
                match #[trigger] quote_for(quotes@, a) {
                    None => 1 <= a <= i ==> !has_sample(db.prices@, a),
                    Some(c) => 1 <= a <= i && exists|j: int|
                        #[trigger] is_latest(db.prices@, a, j) && db.prices@[j].close == c,
                },
        decreases db.assets@.len() - i,
    {
        let a = (i as i64) + 1;
        let latest = latest_sample(&db.prices, a);
        match latest {
            Some((_, c)) => {
                let ghost before = quotes@;
                quotes.push(Quote { asset_id: a, close: c });
                proof {
                    assert forall|b: i64| true implies match #[trigger] quote_for(quotes@, b) {
                        None => 1 <= b <= i + 1 ==> !has_sample(db.prices@, b),
                        Some(c) => 1 <= b <= i + 1 && exists|j: int|
                            #[trigger] is_latest(db.prices@, b, j) && db.prices@[j].close == c,
                    } by {
                        lemma_quote_for_push(before, Quote { asset_id: a, close: c }, b);
                    }
                }
            },
            None => {},
        }
        i = i + 1;
    }
    proof {
        assert forall|a: i64| true implies match #[trigger] quote_for(quotes@, a) {
            None => !has_sample(db.prices@, a),
            Some(c) => exists|j: int| #[trigger] is_latest(db.prices@, a, j) && db.prices@[j].close == c,
        } by {
            if quote_for(quotes@, a) is None && has_sample(db.prices@, a) {
                let j = choose|j: int| 0 <= j < db.prices@.len() && #[trigger] db.prices@[j].asset_id == a;
                assert(1 <= db.price_rows()[j].asset_id <= db.asset_rows().len());
            }
        }
        assert(quotes_of(db.prices@, quotes@));
        assert(by_time(db.txns@, ixs, p@));
        assert(replay_of(db.assets@, db.txns@, user@, rows@));
    }
    let r = positions_from(&rows, &quotes);
    proof {
        assert(replay_of(db.asset_rows(), db.txn_rows(), user@, rows@));
        assert(quotes_of(db.price_rows(), quotes@));
    }
    r
}

/// Checks the fields of a new ledger event, given the lowercase name of its side.
pub fn validate_txn(lowered_side: &str, qty: i64, price: i64, fee: i64) -> (r: Result<
    Side,
    LedgerError,
>)
    ensures
        r == txn_fields(side_named(lowered_side@), qty, price, fee),
{
    match side_from_lower(lowered_side) {
        None => Err(LedgerError::InvalidSide),
        Some(s) => if qty <= 0 {
            Err(LedgerError::NonPositiveQty)
        } else if price < 0 || fee < 0 {
            Err(LedgerError::NegativePriceOrFee)
        } else {
            Ok(s)
        },
    }
}

/// A copy of an asset row, field by field.
pub fn copy_asset(a: &AssetRow) -> (r: AssetRow)
    ensures
        r == *a,
{
    AssetRow {
        id: a.id,
        symbol: a.symbol.clone(),
        asset_type: a.asset_type,
        currency: a.currency.clone(),
        name: copy_text(&a.name),
    }
}

/// A copy of an optional text.
pub fn copy_text(o: &Option<String>) -> (r: Option<String>)
    ensures
        r == *o,
{
    match o {
        Some(s) => Some(s.clone()),
        None => None,
    }
}

/// Registering a symbol that no asset carries makes it resolve to the new id.
pub proof fn lemma_register_then_resolve(
    old: Seq<AssetRow>,
    new: Seq<AssetRow>,
    symbol: Seq<char>,
    asset_type: AssetType,
    currency: Seq<char>,
    name: Option<Seq<char>>,
    r: Result<i64, LedgerError>,
)
    requires
        asset_registered(old, new, symbol, asset_type, currency, name, r),
        forall|i: int| 0 <= i < old.len() ==> #[trigger] old[i].symbol@ != symbol,
    ensures
        r is Ok,
        resolve_ids(ids_with_symbol(new, symbol)) == r,
{
    assert(!has_pair(old, symbol, asset_type));
    crate::registry::lemma_ids_absent(old, symbol);
}

/// Registering the same symbol and type a second time fails `Duplicate`.
pub proof fn lemma_register_twice(
    first: Seq<AssetRow>,
    mid: Seq<AssetRow>,
    last: Seq<AssetRow>,
    symbol: Seq<char>,
    asset_type: AssetType,
    currency: Seq<char>,
    name: Option<Seq<char>>,
    currency2: Seq<char>,
    name2: Option<Seq<char>>,
    r1: Result<i64, LedgerError>,
    r2: Result<i64, LedgerError>,
)
    requires
        asset_registered(first, mid, symbol, asset_type, currency, name, r1),
        r1 is Ok,
        asset_registered(mid, last, symbol, asset_type, currency2, name2, r2),
    ensures
        r2 == Err::<i64, LedgerError>(LedgerError::Duplicate),
        last == mid,
{
    assert(mid[mid.len() - 1].symbol@ == symbol);
    assert(has_pair(mid, symbol, asset_type));
}

} // verus!
