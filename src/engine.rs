use vstd::prelude::*;
use crate::error::LedgerError;
use crate::kinds::{AssetType, Side};
use crate::order::{is_permutation, occurs, sorted_order};
use crate::text::{lemma_text_le_total, lemma_text_le_transitive, text_le};

verus! {

// Quantities and prices are integers in fixed units that the caller picks
// (say millionths of a share and millionths of a currency unit). A cost, a
// fee, a market value and a profit are in the product of the two units, so
// that `qty * price + fee` is exact.

/// One ledger event joined with the asset it refers to, as the engine replays it.
pub struct LedgerEntry {
    pub asset_id: i64,
    pub symbol: String,
    pub asset_type: AssetType,
    pub currency: String,
    pub side: Side,
    pub qty: i64,
    pub price: i64,
    pub fee: i64,
}

/// The latest known close of an asset.
pub struct Quote {
    pub asset_id: i64,
    pub close: i64,
}

/// The derived holding of one asset.
pub struct Position {
    pub asset_id: i64,
    pub symbol: String,
    pub asset_type: AssetType,
    pub currency: String,
    pub net_qty: i128,
    pub avg_cost: i128,
    pub last_price: Option<i64>,
    pub market_value: i128,
    pub unrealized_pl: i128,
}

/// A ledger event as the ledger admits it: a positive quantity, and no
/// negative price or fee.
pub open spec fn entry_ok(e: LedgerEntry) -> bool {
    e.qty > 0 && e.price >= 0 && e.fee >= 0
}

/// Every event of `rows` is as the ledger admits it.
pub open spec fn entries_ok(rows: Seq<LedgerEntry>) -> bool {
    forall|i: int| 0 <= i < rows.len() ==> entry_ok(#[trigger] rows[i])
}

/// Some event of `rows` concerns asset `a`.
pub open spec fn held(rows: Seq<LedgerEntry>, a: i64) -> bool {
    exists|i: int| 0 <= i < rows.len() && #[trigger] rows[i].asset_id == a
}

/// Total quantity bought of asset `a`.
pub open spec fn buy_qty(rows: Seq<LedgerEntry>, a: i64) -> int
    decreases rows.len(),
{
    if rows.len() == 0 {
        0
    } else {
        buy_qty(rows.drop_last(), a) + if rows.last().asset_id == a && rows.last().side
            == Side::Buy {
            rows.last().qty as int
        } else {
            0
        }
    }
}

/// Total cost of all buys of asset `a`, fees included.
pub open spec fn buy_cost(rows: Seq<LedgerEntry>, a: i64) -> int
    decreases rows.len(),
{
    if rows.len() == 0 {
        0
    } else {
        buy_cost(rows.drop_last(), a) + if rows.last().asset_id == a && rows.last().side
            == Side::Buy {
            rows.last().qty * rows.last().price + rows.last().fee
        } else {
            0
        }
    }
}

/// Total quantity sold of asset `a`.
pub open spec fn sell_qty(rows: Seq<LedgerEntry>, a: i64) -> int
    decreases rows.len(),
{
    if rows.len() == 0 {
        0
    } else {
        sell_qty(rows.drop_last(), a) + if rows.last().asset_id == a && rows.last().side
            == Side::Sell {
            rows.last().qty as int
        } else {
            0
        }
    }
}

/// Index of the first event of `rows` on asset `a`.
pub open spec fn first_index(rows: Seq<LedgerEntry>, a: i64) -> int
    decreases rows.len(),
{
    if rows.len() == 0 {
        0
    } else if held(rows.drop_last(), a) {
        first_index(rows.drop_last(), a)
    } else {
        rows.len() - 1
    }
}

/// Bought less sold.
pub open spec fn net_qty_of(rows: Seq<LedgerEntry>, a: i64) -> int {
    buy_qty(rows, a) - sell_qty(rows, a)
}

/// Cost of all buys over quantity of all buys, rounded down to the price
/// unit: sells lower neither.
pub open spec fn avg_cost_of(rows: Seq<LedgerEntry>, a: i64) -> int {
    if buy_qty(rows, a) > 0 {
        buy_cost(rows, a) / buy_qty(rows, a)
    } else {
        0
    }
}

/// The close of the first quote on asset `a`.
pub open spec fn quote_for(quotes: Seq<Quote>, a: i64) -> Option<i64>
    decreases quotes.len(),
{
    if quotes.len() == 0 {
        None
    } else if quotes[0].asset_id == a {
        Some(quotes[0].close)
    } else {
        quote_for(quotes.drop_first(), a)
    }
}

/// `x`, or zero where `x` is negative.
pub open spec fn max0(x: int) -> int {
    if x > 0 {
        x
    } else {
        0
    }
}

/// Market value: the close times the held quantity, nothing for a short.
pub open spec fn market_value_of(price: Option<i64>, net: int) -> int {
    match price {
        Some(c) => c * max0(net),
        None => 0,
    }
}

/// Unrealized profit: the held quantity times the gap between the close and
/// the average cost, nothing where no close is known.
pub open spec fn unrealized_pl_of(price: Option<i64>, net: int, avg: int) -> int {
    match price {
        Some(c) => net * (c - avg),
        None => 0,
    }
}

/// `x` is an `i128`.
pub open spec fn fits(x: int) -> bool {
    i128::MIN <= x <= i128::MAX
}

/// The totals of asset `a` fit the width of a position.
pub open spec fn totals_fit(rows: Seq<LedgerEntry>, a: i64) -> bool {
    buy_qty(rows, a) <= i128::MAX && buy_cost(rows, a) <= i128::MAX && sell_qty(rows, a)
        <= i128::MAX
}

/// Everything computed for asset `a` fits the width of a position.
pub open spec fn asset_fits(rows: Seq<LedgerEntry>, quotes: Seq<Quote>, a: i64) -> bool {
    let net = net_qty_of(rows, a);
    let avg = avg_cost_of(rows, a);
    &&& totals_fit(rows, a)
    &&& net != 0 ==> match quote_for(quotes, a) {
        Some(c) => fits(c * max0(net)) && fits(c - avg) && fits(net * (c - avg)),
        None => true,
    }
}

/// The position that the ledger `rows` and the quotes give for asset `a`.
pub open spec fn expected_position(rows: Seq<LedgerEntry>, quotes: Seq<Quote>, a: i64) -> Position {
    let e = rows[first_index(rows, a)];
    let net = net_qty_of(rows, a);
    let avg = avg_cost_of(rows, a);
    let price = quote_for(quotes, a);
    Position {
        asset_id: a,
        symbol: e.symbol,
        asset_type: e.asset_type,
        currency: e.currency,
        net_qty: net as i128,
        avg_cost: avg as i128,
        last_price: price,
        market_value: market_value_of(price, net) as i128,
        unrealized_pl: unrealized_pl_of(price, net, avg) as i128,
    }
}

/// Some position of `v` is on asset `a`.
pub open spec fn listed(v: Seq<Position>, a: i64) -> bool {
    exists|j: int| 0 <= j < v.len() && #[trigger] v[j].asset_id == a
}

/// `v` is the snapshot of holdings that `rows` and `quotes` give: one
/// position per asset whose net quantity is not zero, each with its exact
/// figures, sorted by symbol.
pub open spec fn is_snapshot(rows: Seq<LedgerEntry>, quotes: Seq<Quote>, v: Seq<Position>) -> bool {
    &&& forall|j: int|
        0 <= j < v.len() ==> held(rows, #[trigger] v[j].asset_id) && net_qty_of(
            rows,
            v[j].asset_id,
        ) != 0 && v[j] == expected_position(rows, quotes, v[j].asset_id)
    &&& forall|a: i64| held(rows, a) && net_qty_of(rows, a) != 0 ==> #[trigger] listed(v, a)
    &&& forall|j: int, m: int| 0 <= j < m < v.len() ==> v[j].asset_id != v[m].asset_id
    &&& forall|j: int|
        0 <= j < v.len() - 1 ==> #[trigger] text_le(v[j].symbol@, v[j + 1].symbol@)
}

/// Running totals of one asset.
struct Tally {
    asset_id: i64,
    first: usize,
    buy_qty: i128,
    buy_cost: i128,
    sell_qty: i128,
}

spec fn tallied(t: Seq<Tally>, a: i64) -> bool {
    exists|k: int| 0 <= k < t.len() && #[trigger] t[k].asset_id == a
}

/// `t` holds the exact totals of every asset of `rows`, once each.
spec fn tallies_of(rows: Seq<LedgerEntry>, t: Seq<Tally>) -> bool {
    &&& forall|k: int|
        0 <= k < t.len() ==> {
            let a = #[trigger] t[k].asset_id;
            &&& held(rows, a)
            &&& t[k].first == first_index(rows, a)
            &&& t[k].buy_qty == buy_qty(rows, a)
            &&& t[k].buy_cost == buy_cost(rows, a)
            &&& t[k].sell_qty == sell_qty(rows, a)
        }
    &&& forall|k: int, m: int| 0 <= k < m < t.len() ==> t[k].asset_id != t[m].asset_id
    &&& forall|a: i64| held(rows, a) ==> #[trigger] tallied(t, a)
}

proof fn lemma_first_index(rows: Seq<LedgerEntry>, a: i64)
    requires
        held(rows, a),
    ensures
        0 <= first_index(rows, a) < rows.len(),
        rows[first_index(rows, a)].asset_id == a,
    decreases rows.len(),
{
    if held(rows.drop_last(), a) {
        lemma_first_index(rows.drop_last(), a);
    } else {
        let i = choose|i: int| 0 <= i < rows.len() && #[trigger] rows[i].asset_id == a;
        if i < rows.len() - 1 {
            assert(rows.drop_last()[i].asset_id == a);
        }
    }
}

proof fn lemma_totals_nonneg(rows: Seq<LedgerEntry>, a: i64)
    requires
        entries_ok(rows),
    ensures
        0 <= buy_qty(rows, a),
        0 <= buy_cost(rows, a),
        0 <= sell_qty(rows, a),
    decreases rows.len(),
{
    if rows.len() > 0 {
        let e = rows.last();
        assert(entry_ok(rows[rows.len() - 1]));
        lemma_totals_nonneg(rows.drop_last(), a);
        assert(e.qty * e.price >= 0) by (nonlinear_arith)
            requires
                e.qty > 0,
                e.price >= 0,
        ;
    }
}

/// Totals over a prefix of the ledger never exceed the totals over all of it.
proof fn lemma_prefix_totals(rows: Seq<LedgerEntry>, n: int, a: i64)
    requires
        entries_ok(rows),
        0 <= n <= rows.len(),
    ensures
        buy_qty(rows.take(n), a) <= buy_qty(rows, a),
        buy_cost(rows.take(n), a) <= buy_cost(rows, a),
        sell_qty(rows.take(n), a) <= sell_qty(rows, a),
    decreases rows.len(),
{
    if n == rows.len() {
        assert(rows.take(n) =~= rows);
    } else {
        let init = rows.drop_last();
        assert(entries_ok(init)) by {
            assert forall|i: int| 0 <= i < init.len() implies entry_ok(#[trigger] init[i]) by {
                assert(init[i] == rows[i]);
            }
        }
        lemma_prefix_totals(init, n, a);
        assert(init.take(n) =~= rows.take(n));
        let e = rows.last();
        assert(entry_ok(rows[rows.len() - 1]));
        assert(e.qty * e.price >= 0) by (nonlinear_arith)
            requires
                e.qty > 0,
                e.price >= 0,
        ;
    }
}

proof fn lemma_cost_bound(qty: i64, price: i64)
    requires
        qty > 0,
        price >= 0,
    ensures
        0 <= qty * price <= i64::MAX * i64::MAX,
{
    assert(0 <= qty * price <= i64::MAX * i64::MAX) by (nonlinear_arith)
        requires
            0 < qty <= i64::MAX,
            0 <= price <= i64::MAX,
    ;
}

/// Replays `rows` into one tally per asset, in order of first appearance.
fn tally(rows: &Vec<LedgerEntry>) -> (r: Result<Vec<Tally>, LedgerError>)
    requires
        entries_ok(rows@),
    ensures
        match r {
            Ok(t) => tallies_of(rows@, t@) && forall|a: i64| #[trigger]
                held(rows@, a) ==> totals_fit(rows@, a),
            Err(e) => e == LedgerError::Overflow && exists|a: i64|
                #[trigger] held(rows@, a) && !totals_fit(rows@, a),
        },
{
    let mut t: Vec<Tally> = Vec::new();
    let n = rows.len();
    let mut i: usize = 0;
    assert(rows@.take(0) =~= Seq::<LedgerEntry>::empty());
    while i < n
        invariant
            n == rows@.len(),
            i <= n,
            entries_ok(rows@),
            tallies_of(rows@.take(i as int), t@),
            forall|k: int| 0 <= k < t@.len() ==> #[trigger] t@[k].first < i,
        decreases n - i,
    {
        let ghost pre = rows@.take(i as int);
        let ghost post = rows@.take(i + 1);
        assert(post.drop_last() =~= pre);
        assert(post.last() == rows@[i as int]);
        let e = &rows[i];
        let a = e.asset_id;
        proof {
            assert(entry_ok(rows@[i as int]));
        }
        let mut k: usize = 0;
        while k < t.len() && t[k].asset_id != a
            invariant
                forall|m: int| 0 <= m < k ==> t@[m].asset_id != a,
                k <= t@.len(),
            decreases t@.len() - k,
        {
            k = k + 1;
        }
        let ghost t0 = t@;
        if k == t.len() {
            proof {
                if held(pre, a) {
                    assert(tallied(t@, a));
                }
            }
            t.push(Tally { asset_id: a, first: i, buy_qty: 0, buy_cost: 0, sell_qty: 0 });
        }
        proof {
            lemma_prefix_totals(rows@, i + 1, a);
            lemma_totals_nonneg(pre, a);
            lemma_cost_bound(e.qty, e.price);
        }
        let cur = &t[k];
        let mut bq = cur.buy_qty;
        let mut bc = cur.buy_cost;
        let mut sq = cur.sell_qty;
        match e.side {
            Side::Buy => {
                let cost = (e.qty as i128) * (e.price as i128) + (e.fee as i128);
                match bq.checked_add(e.qty as i128) {
                    Some(x) => bq = x,
                    None => {
                        assert(held(rows@, a));
                        return Err(LedgerError::Overflow);
                    },
                }
                match bc.checked_add(cost) {
                    Some(x) => bc = x,
                    None => {
                        assert(held(rows@, a));
                        return Err(LedgerError::Overflow);
                    },
                }
            },
            Side::Sell => {
                match sq.checked_add(e.qty as i128) {
                    Some(x) => sq = x,
                    None => {
                        assert(held(rows@, a));
                        return Err(LedgerError::Overflow);
                    },
                }
            },
            _ => {},
        }
        let first = cur.first;
        let ghost old_t = t@;
        t.set(k, Tally { asset_id: a, first, buy_qty: bq, buy_cost: bc, sell_qty: sq });
        proof {
            assert forall|b: i64| held(post, b) implies #[trigger] tallied(t@, b) by {
                if b == a {
                    assert(t@[k as int].asset_id == b);
                } else {
                    let j = choose|j: int| 0 <= j < post.len() && #[trigger] post[j].asset_id == b;
                    assert(j != i);
                    assert(pre[j].asset_id == b);
                    assert(held(pre, b));
                    assert(tallied(t0, b));
                    let m = choose|m: int| 0 <= m < t0.len() && #[trigger] t0[m].asset_id == b;
                    assert(old_t[m] == t0[m]);
                    assert(t@[m].asset_id == b);
                }
            }
            assert forall|m: int| 0 <= m < t@.len() implies {
                let b = #[trigger] t@[m].asset_id;
                &&& held(post, b)
                &&& t@[m].first == first_index(post, b)
                &&& t@[m].buy_qty == buy_qty(post, b)
                &&& t@[m].buy_cost == buy_cost(post, b)
                &&& t@[m].sell_qty == sell_qty(post, b)
            } by {
                let b = t@[m].asset_id;
                if m == k {
                    assert(post[i as int].asset_id == a);
                    if !held(pre, a) {
                        lemma_totals_nonneg(pre, a);
                        assert(buy_qty(pre, a) == 0 && buy_cost(pre, a) == 0 && sell_qty(pre, a) == 0) by {
                            lemma_no_totals(pre, a);
                        }
                    }
                } else {
                    assert(old_t[m].asset_id == b && b != a);
                    let j = choose|j: int| 0 <= j < pre.len() && #[trigger] pre[j].asset_id == b;
                    assert(post[j].asset_id == b);
                }
            }
        }
        i = i + 1;
    }
    assert(rows@.take(n as int) =~= rows@);
    proof {
        assert forall|a: i64| #[trigger] held(rows@, a) implies totals_fit(rows@, a) by {
            assert(tallied(t@, a));
        }
    }
    Ok(t)
}

/// An asset with no event has no totals.
proof fn lemma_no_totals(rows: Seq<LedgerEntry>, a: i64)
    requires
        !held(rows, a),
    ensures
        buy_qty(rows, a) == 0,
        buy_cost(rows, a) == 0,
        sell_qty(rows, a) == 0,
    decreases rows.len(),
{
    if rows.len() > 0 {
        let init = rows.drop_last();
        assert(!held(init, a)) by {
            if held(init, a) {
                let j = choose|j: int| 0 <= j < init.len() && #[trigger] init[j].asset_id == a;
                assert(rows[j].asset_id == a);
            }
        }
        assert(rows[rows.len() - 1].asset_id != a);
        lemma_no_totals(init, a);
    }
}

/// The close of the first quote on asset `a`.
fn lookup_quote(quotes: &Vec<Quote>, a: i64) -> (r: Option<i64>)
    ensures
        r == quote_for(quotes@, a),
{
    let mut i: usize = 0;
    assert(quotes@.skip(0) =~= quotes@);
    while i < quotes.len()
        invariant
            i <= quotes@.len(),
            quote_for(quotes@, a) == quote_for(quotes@.skip(i as int), a),
        decreases quotes@.len() - i,
    {
        if quotes[i].asset_id == a {
            return Some(quotes[i].close);
        }
        assert(quotes@.skip(i as int).drop_first() =~= quotes@.skip(i + 1));
        i = i + 1;
    }
    None
}

/// A copy of a position, field by field.
pub fn copy_position(p: &Position) -> (r: Position)
    ensures
        r == *p,
{
    Position {
        asset_id: p.asset_id,
        symbol: p.symbol.clone(),
        asset_type: p.asset_type,
        currency: p.currency.clone(),
        net_qty: p.net_qty,
        avg_cost: p.avg_cost,
        last_price: p.last_price,
        market_value: p.market_value,
        unrealized_pl: p.unrealized_pl,
    }
}

/// Orders positions by symbol, ascending.
fn sort_by_symbol(out: &Vec<Position>) -> (v: Vec<Position>)
    ensures
        exists|p: Seq<usize>|
            is_permutation(p, out@.len()) && #[trigger] p.len() == v@.len() && forall|m: int|
                0 <= m < v@.len() ==> #[trigger] v@[m] == out@[p[m] as int],
        forall|j: int|
            0 <= j < v@.len() - 1 ==> #[trigger] text_le(v@[j].symbol@, v@[j + 1].symbol@),
{
    let mut keys: Vec<String> = Vec::new();
    let mut j: usize = 0;
    while j < out.len()
        invariant
            j <= out@.len(),
            keys@.len() == j,
            forall|m: int| 0 <= m < j ==> #[trigger] keys@[m] == out@[m].symbol,
        decreases out@.len() - j,
    {
        keys.push(out[j].symbol.clone());
        j = j + 1;
    }
    let p = sorted_order(&keys);
    let mut v: Vec<Position> = Vec::new();
    let mut m: usize = 0;
    while m < p.len()
        invariant
            is_permutation(p@, out@.len()),
            keys@.len() == out@.len(),
            m <= p@.len(),
            v@.len() == m,
            forall|q: int| 0 <= q < m ==> #[trigger] v@[q] == out@[p@[q] as int],
        decreases p@.len() - m,
    {
        v.push(copy_position(&out[p[m]]));
        m = m + 1;
    }
    proof {
        assert forall|j: int| 0 <= j < v@.len() - 1 implies #[trigger] text_le(
            v@[j].symbol@,
            v@[j + 1].symbol@,
        ) by {
            assert(keys@[p@[j] as int] == out@[p@[j] as int].symbol);
            assert(keys@[p@[j + 1] as int] == out@[p@[j + 1] as int].symbol);
            assert(text_le(keys@[p@[j] as int]@, keys@[p@[j + 1] as int]@));
        }
        assert(p@.len() == v@.len());
    }
    v
}

/// The net quantity, average cost and, where a close is known, the market
/// value and unrealized profit of one tallied asset; `None` where one of
/// them does not fit.
fn value_tally(tk: &Tally, price: Option<i64>) -> (r: Option<(i128, i128, i128, i128)>)
    requires
        0 <= tk.buy_qty,
        0 <= tk.buy_cost,
        0 <= tk.sell_qty,
    ensures
        ({
            let net = tk.buy_qty - tk.sell_qty;
            let avg = if tk.buy_qty > 0 {
                tk.buy_cost / tk.buy_qty
            } else {
                0
            };
            let ok = match price {
                Some(c) => fits(c * max0(net)) && fits(c - avg) && fits(net * (c - avg)),
                None => true,
            };
            match r {
                Some(x) => ok && x == (
                    net as i128,
                    avg as i128,
                    market_value_of(price, net) as i128,
                    unrealized_pl_of(price, net, avg) as i128,
                ),
                None => !ok,
            }
        }),
{
    let net = tk.buy_qty - tk.sell_qty;
    let avg: i128 = if tk.buy_qty > 0 {
        tk.buy_cost / tk.buy_qty
    } else {
        0
    };
    match price {
        Some(c) => {
            let long: i128 = if net > 0 {
                net
            } else {
                0
            };
            let mv = match (c as i128).checked_mul(long) {
                Some(x) => x,
                None => return None,
            };
            let diff = match (c as i128).checked_sub(avg) {
                Some(x) => x,
                None => return None,
            };
            let pl = match net.checked_mul(diff) {
                Some(x) => x,
                None => return None,
            };
            Some((net, avg, mv, pl))
        },
        None => Some((net, avg, 0, 0)),
    }
}

spec fn tallied_before(t: Seq<Tally>, a: i64, k: int) -> bool {
    exists|m: int| 0 <= m < k && #[trigger] t[m].asset_id == a
}

/// Derives the holdings from one user's ledger events and the latest close
/// of each asset: one position per asset whose net quantity is not zero,
/// sorted by symbol. Fails only where a figure does not fit.
pub fn positions_from(rows: &Vec<LedgerEntry>, quotes: &Vec<Quote>) -> (r: Result<
    Vec<Position>,
    LedgerError,
>)
    requires
        entries_ok(rows@),
    ensures
        match r {
            Ok(v) => is_snapshot(rows@, quotes@, v@),
            Err(e) => e == LedgerError::Overflow,
        },
        r is Err <==> exists|a: i64| #[trigger]
            held(rows@, a) && !asset_fits(rows@, quotes@, a),
{
    let t = match tally(rows) {
        Ok(t) => t,
        Err(e) => return Err(e),
    };
    let mut out: Vec<Position> = Vec::new();
    let mut k: usize = 0;
    while k < t.len()
        invariant
            entries_ok(rows@),
            tallies_of(rows@, t@),
            forall|a: i64| #[trigger] held(rows@, a) ==> totals_fit(rows@, a),
            k <= t@.len(),
            forall|j: int|
                0 <= j < out@.len() ==> {
                    let a = #[trigger] out@[j].asset_id;
                    &&& held(rows@, a)
                    &&& net_qty_of(rows@, a) != 0
                    &&& out@[j] == expected_position(rows@, quotes@, a)
                    &&& tallied_before(t@, a, k as int)
                },
            forall|m: int|
                0 <= m < k ==> net_qty_of(rows@, #[trigger] t@[m].asset_id) != 0 ==> listed(
                    out@,
                    t@[m].asset_id,
                ),
            forall|m: int| 0 <= m < k ==> asset_fits(rows@, quotes@, #[trigger] t@[m].asset_id),
            forall|j: int, m: int|
                0 <= j < m < out@.len() ==> out@[j].asset_id != out@[m].asset_id,
        decreases t@.len() - k,
    {
        let tk = &t[k];
        let a = tk.asset_id;
        let ghost out0 = out@;
        proof {
            lemma_totals_nonneg(rows@, a);
            lemma_first_index(rows@, a);
        }
        let net = tk.buy_qty - tk.sell_qty;
        if net != 0 {
            let price = lookup_quote(quotes, a);
            let (net, avg, mv, pl) = match value_tally(tk, price) {
                Some(x) => x,
                None => {
                    assert(!asset_fits(rows@, quotes@, a));
                    return Err(LedgerError::Overflow);
                },
            };
            let e = &rows[tk.first];
            let ghost old_out = out@;
            out.push(
                Position {
                    asset_id: a,
                    symbol: e.symbol.clone(),
                    asset_type: e.asset_type,
                    currency: e.currency.clone(),
                    net_qty: net,
                    avg_cost: avg,
                    last_price: price,
                    market_value: mv,
                    unrealized_pl: pl,
                },
            );
            proof {
                assert(out@[old_out.len() as int].asset_id == a);
                assert forall|j: int| 0 <= j < old_out.len() implies out@[j].asset_id != a by {
                    assert(old_out[j] == out@[j]);
                    let m = choose|m: int| 0 <= m < k && #[trigger] t@[m].asset_id == old_out[j].asset_id;
                }
            }
        }
        proof {
            assert forall|j: int| 0 <= j < out@.len() implies tallied_before(t@, #[trigger] out@[j].asset_id, k + 1) by {
                if out@[j].asset_id == a {
                    assert(t@[k as int].asset_id == a);
                } else {
                    let m = choose|m: int| 0 <= m < k && #[trigger] t@[m].asset_id == out@[j].asset_id;
                }
            }
            assert forall|m: int| 0 <= m < k + 1 && net_qty_of(rows@, #[trigger] t@[m].asset_id) != 0 implies listed(out@, t@[m].asset_id) by {
                if m == k {
                    if net_qty_of(rows@, a) != 0 {
                        assert(out@[out@.len() - 1].asset_id == a);
                    }
                } else {
                    assert(listed(out0, t@[m].asset_id));
                    let j = choose|j: int| 0 <= j < out0.len() && #[trigger] out0[j].asset_id == t@[m].asset_id;
                    assert(out@[j] == out0[j]);
                }
            }
        }
        k = k + 1;
    }
    let v = sort_by_symbol(&out);
    proof {
        let p = choose|p: Seq<usize>|
            is_permutation(p, out@.len()) && #[trigger] p.len() == v@.len() && forall|m: int|
                0 <= m < v@.len() ==> #[trigger] v@[m] == out@[p[m] as int];
        assert forall|a: i64| held(rows@, a) && net_qty_of(rows@, a) != 0 implies #[trigger] listed(v@, a) by {
            assert(tallied(t@, a));
            let m = choose|m: int| 0 <= m < t@.len() && #[trigger] t@[m].asset_id == a;
            assert(listed(out@, a));
            let j = choose|j: int| 0 <= j < out@.len() && #[trigger] out@[j].asset_id == a;
            assert(occurs(p, j));
            let q = choose|q: int| 0 <= q < p.len() && p[q] == j;
            assert(v@[q] == out@[p[q] as int]);
        }
        assert forall|j: int, m: int| 0 <= j < m < v@.len() implies v@[j].asset_id != v@[m].asset_id by {
            assert(v@[j] == out@[p[j] as int]);
            assert(v@[m] == out@[p[m] as int]);
            assert(p[j] != p[m]);
        }
        assert forall|j: int| 0 <= j < v@.len() implies held(rows@, #[trigger] v@[j].asset_id) && net_qty_of(rows@, v@[j].asset_id) != 0 && v@[j] == expected_position(rows@, quotes@, v@[j].asset_id) by {
            assert(v@[j] == out@[p[j] as int]);
        }
        assert forall|a: i64| #[trigger] held(rows@, a) implies asset_fits(rows@, quotes@, a) by {
            assert(tallied(t@, a));
            let m = choose|m: int| 0 <= m < t@.len() && #[trigger] t@[m].asset_id == a;
        }
    }
    Ok(v)
}

/// Sum of the market values of `v`.
pub open spec fn total_value(v: Seq<Position>) -> int
    decreases v.len(),
{
    if v.len() == 0 {
        0
    } else {
        total_value(v.drop_last()) + v.last().market_value
    }
}

/// Sum of the unrealized profits of `v`.
pub open spec fn total_pl(v: Seq<Position>) -> int
    decreases v.len(),
{
    if v.len() == 0 {
        0
    } else {
        total_pl(v.drop_last()) + v.last().unrealized_pl
    }
}

/// Every running sum over `v`, in order, fits the width of a position.
pub open spec fn totals_stay_in_range(v: Seq<Position>) -> bool {
    forall|k: int|
        0 <= k <= v.len() ==> fits(#[trigger] total_value(v.take(k))) && fits(
            total_pl(v.take(k)),
        )
}

/// The total market value and total unrealized profit of a snapshot;
/// `None` where a running sum does not fit.
pub fn portfolio_totals(v: &Vec<Position>) -> (r: Option<(i128, i128)>)
    ensures
        match r {
            Some((tv, tpl)) => tv == total_value(v@) && tpl == total_pl(v@),
            None => !totals_stay_in_range(v@),
        },
        r is Some <==> totals_stay_in_range(v@),
{
    let mut tv: i128 = 0;
    let mut tpl: i128 = 0;
    let mut i: usize = 0;
    assert(v@.take(0) =~= Seq::<Position>::empty());
    while i < v.len()
        invariant
            i <= v@.len(),
            tv == total_value(v@.take(i as int)),
            tpl == total_pl(v@.take(i as int)),
            forall|k: int|
                0 <= k <= i ==> fits(#[trigger] total_value(v@.take(k))) && fits(
                    total_pl(v@.take(k)),
                ),
        decreases v@.len() - i,
    {
        assert(v@.take(i + 1).drop_last() =~= v@.take(i as int));
        assert(v@.take(i + 1).last() == v@[i as int]);
        assert(total_value(v@.take(i + 1)) == tv + v@[i as int].market_value);
        assert(total_pl(v@.take(i + 1)) == tpl + v@[i as int].unrealized_pl);
        let a = match tv.checked_add(v[i].market_value) {
            Some(x) => x,
            None => {
                assert(!fits(total_value(v@.take(i + 1))));
                return None;
            },
        };
        let b = match tpl.checked_add(v[i].unrealized_pl) {
            Some(x) => x,
            None => {
                assert(!(fits(total_value(v@.take(i + 1))) && fits(total_pl(v@.take(i + 1)))));
                return None;
            },
        };
        tv = a;
        tpl = b;
        assert(fits(total_value(v@.take(i + 1))) && fits(total_pl(v@.take(i + 1))));
        i = i + 1;
    }
    assert(v@.take(i as int) =~= v@);
    assert(totals_stay_in_range(v@));
    Some((tv, tpl))
}

/// A cash-flow event (dividend, deposit, withdrawal) inserted anywhere in a
/// ledger changes no total, hence neither the net quantity nor the average
/// cost of any asset, whatever its quantity and price.
pub proof fn lemma_cash_flow_neutral(rows: Seq<LedgerEntry>, k: int, e: LedgerEntry, a: i64)
    requires
        0 <= k <= rows.len(),
        e.side != Side::Buy,
        e.side != Side::Sell,
    ensures
        buy_qty(rows.insert(k, e), a) == buy_qty(rows, a),
        buy_cost(rows.insert(k, e), a) == buy_cost(rows, a),
        sell_qty(rows.insert(k, e), a) == sell_qty(rows, a),
        net_qty_of(rows.insert(k, e), a) == net_qty_of(rows, a),
        avg_cost_of(rows.insert(k, e), a) == avg_cost_of(rows, a),
    decreases rows.len(),
{
    let with = rows.insert(k, e);
    if k == rows.len() {
        assert(with.drop_last() =~= rows);
    } else {
        lemma_cash_flow_neutral(rows.drop_last(), k, e, a);
        assert(with.drop_last() =~= rows.drop_last().insert(k, e));
        assert(with.last() == rows.last());
    }
}

/// A position whose net quantity is negative (a short) has no market value.
pub proof fn lemma_short_has_no_value(rows: Seq<LedgerEntry>, quotes: Seq<Quote>, a: i64)
    requires
        net_qty_of(rows, a) < 0,
    ensures
        expected_position(rows, quotes, a).market_value == 0,
{
}

/// In a snapshot every symbol comes no later than each symbol after it.
pub proof fn lemma_snapshot_sorted(rows: Seq<LedgerEntry>, quotes: Seq<Quote>, v: Seq<Position>)
    requires
        is_snapshot(rows, quotes, v),
    ensures
        forall|j: int, m: int| 0 <= j <= m < v.len() ==> text_le(v[j].symbol@, v[m].symbol@),
{
    assert forall|j: int, m: int| 0 <= j <= m < v.len() implies text_le(
        v[j].symbol@,
        v[m].symbol@,
    ) by {
        lemma_sorted_from(v, j, m);
    }
}

proof fn lemma_sorted_from(v: Seq<Position>, j: int, m: int)
    requires
        0 <= j <= m < v.len(),
        forall|k: int| 0 <= k < v.len() - 1 ==> #[trigger] text_le(v[k].symbol@, v[k + 1].symbol@),
    ensures
        text_le(v[j].symbol@, v[m].symbol@),
    decreases m - j,
{
    if j == m {
        lemma_text_le_total(v[j].symbol@, v[j].symbol@);
    } else {
        lemma_sorted_from(v, j + 1, m);
        assert(text_le(v[j].symbol@, v[j + 1].symbol@));
        lemma_text_le_transitive(v[j].symbol@, v[j + 1].symbol@, v[m].symbol@);
    }
}

/// Every asset of the ledger is known by one symbol and every symbol names
/// one asset.
pub open spec fn symbols_identify_assets(rows: Seq<LedgerEntry>) -> bool {
    forall|i: int, j: int|
        0 <= i < rows.len() && 0 <= j < rows.len() ==> (rows[i].symbol@ == rows[j].symbol@
            <==> rows[i].asset_id == rows[j].asset_id)
}

/// A snapshot lists no symbol twice, where each symbol names one asset.
pub proof fn lemma_snapshot_symbols_distinct(
    rows: Seq<LedgerEntry>,
    quotes: Seq<Quote>,
    v: Seq<Position>,
)
    requires
        is_snapshot(rows, quotes, v),
        symbols_identify_assets(rows),
    ensures
        forall|j: int, m: int| 0 <= j < m < v.len() ==> v[j].symbol@ != v[m].symbol@,
{
    assert forall|j: int, m: int| 0 <= j < m < v.len() implies v[j].symbol@ != v[m].symbol@ by {
        let a = v[j].asset_id;
        let b = v[m].asset_id;
        lemma_first_index(rows, a);
        lemma_first_index(rows, b);
        assert(v[j] == expected_position(rows, quotes, a));
        assert(v[m] == expected_position(rows, quotes, b));
    }
}

} // verus!
