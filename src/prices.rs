use vstd::prelude::*;
use crate::text::{lemma_text_le_antisymmetric, lemma_text_le_total, text_eq, text_le, text_le_exec};

verus! {

/// One recorded close of an asset on a `YYYY-MM-DD` date.
pub struct PriceSample {
    pub asset_id: i64,
    pub date: String,
    pub close: i64,
    pub source: String,
}

/// At most one sample per asset and date.
pub open spec fn keys_unique(prices: Seq<PriceSample>) -> bool {
    forall|i: int, j: int|
        0 <= i < j < prices.len() ==> !(prices[i].asset_id == prices[j].asset_id
            && prices[i].date@ == prices[j].date@)
}

/// The close and source recorded for asset `a` on date `d`.
pub open spec fn price_at(prices: Seq<PriceSample>, a: i64, d: Seq<char>) -> Option<(i64, Seq<char>)>
    decreases prices.len(),
{
    if prices.len() == 0 {
        None
    } else if prices.last().asset_id == a && prices.last().date@ == d {
        Some((prices.last().close, prices.last().source@))
    } else {
        price_at(prices.drop_last(), a, d)
    }
}

/// `new` records what `old` does, but for the close and source of asset `a`
/// on date `d`, which it replaces or adds.
pub open spec fn upserted(
    old: Seq<PriceSample>,
    new: Seq<PriceSample>,
    a: i64,
    d: Seq<char>,
    close: i64,
    source: Seq<char>,
) -> bool {
    forall|b: i64, e: Seq<char>|
        #[trigger] price_at(new, b, e) == if b == a && e == d {
            Some((close, source))
        } else {
            price_at(old, b, e)
        }
}

/// Sample `i` is on asset `a` and no sample of `a` has a later date.
pub open spec fn is_latest(prices: Seq<PriceSample>, a: i64, i: int) -> bool {
    &&& 0 <= i < prices.len()
    &&& prices[i].asset_id == a
    &&& forall|j: int|
        0 <= j < prices.len() && prices[j].asset_id == a ==> text_le(
            #[trigger] prices[j].date@,
            prices[i].date@,
        )
}

pub open spec fn has_sample(prices: Seq<PriceSample>, a: i64) -> bool {
    exists|i: int| 0 <= i < prices.len() && #[trigger] prices[i].asset_id == a
}

/// `r` is the date and close of the latest sample of asset `a`, or nothing
/// where there is none.
pub open spec fn latest_of(prices: Seq<PriceSample>, a: i64, r: Option<(String, i64)>) -> bool {
    match r {
        None => !has_sample(prices, a),
        Some((d, c)) => exists|i: int|
            #[trigger] is_latest(prices, a, i) && prices[i].date == d && prices[i].close == c,
    }
}

/// The sample at `i` is what `price_at` reads for its key.
pub proof fn lemma_price_at_index(prices: Seq<PriceSample>, i: int)
    requires
        keys_unique(prices),
        0 <= i < prices.len(),
    ensures
        price_at(prices, prices[i].asset_id, prices[i].date@) == Some(
            (prices[i].close, prices[i].source@),
        ),
    decreases prices.len(),
{
    if i < prices.len() - 1 {
        let init = prices.drop_last();
        assert(keys_unique(init)) by {
            assert forall|x: int, y: int| 0 <= x < y < init.len() implies !(init[x].asset_id
                == init[y].asset_id && init[x].date@ == init[y].date@) by {
                assert(init[x] == prices[x] && init[y] == prices[y]);
            }
        }
        assert(init[i] == prices[i]);
        lemma_price_at_index(init, i);
    }
}

/// Replacing the sample at `i` by one with the same key changes what is read
/// for that key alone.
proof fn lemma_price_at_update(prices: Seq<PriceSample>, i: int, x: PriceSample, b: i64, e: Seq<char>)
    requires
        keys_unique(prices),
        0 <= i < prices.len(),
        x.asset_id == prices[i].asset_id,
        x.date@ == prices[i].date@,
    ensures
        price_at(prices.update(i, x), b, e) == if b == x.asset_id && e == x.date@ {
            Some((x.close, x.source@))
        } else {
            price_at(prices, b, e)
        },
    decreases prices.len(),
{
    let upd = prices.update(i, x);
    let init = prices.drop_last();
    assert(keys_unique(init)) by {
        assert forall|p: int, q: int| 0 <= p < q < init.len() implies !(init[p].asset_id
            == init[q].asset_id && init[p].date@ == init[q].date@) by {
            assert(init[p] == prices[p] && init[q] == prices[q]);
        }
    }
    if i == prices.len() - 1 {
        assert(upd.drop_last() =~= init);
    } else {
        assert(upd.drop_last() =~= init.update(i, x));
        assert(init[i] == prices[i]);
        lemma_price_at_update(init, i, x, b, e);
        assert(upd.last() == prices.last());
        if b == x.asset_id && e == x.date@ {
            assert(!(prices[prices.len() - 1].asset_id == b && prices[prices.len() - 1].date@ == e));
        }
    }
}

/// Records the close and source of asset `a` on `date`, replacing any sample
/// already recorded for that asset and date.
pub fn upsert_sample(prices: &mut Vec<PriceSample>, a: i64, date: &str, close: i64, source: &str)
    requires
        keys_unique(old(prices)@),
    ensures
        keys_unique(final(prices)@),
        upserted(old(prices)@, final(prices)@, a, date@, close, source@),
        forall|i: int|
            0 <= i < final(prices)@.len() ==> #[trigger] final(prices)@[i].asset_id == a
                || exists|j: int|
                0 <= j < old(prices)@.len() && old(prices)@[j].asset_id
                    == final(prices)@[i].asset_id,
{
    let x = PriceSample { asset_id: a, date: date.to_owned(), close, source: source.to_owned() };
    let mut i: usize = 0;
    while i < prices.len()
        invariant
            i <= prices@.len(),
            prices@ == old(prices)@,
            keys_unique(prices@),
            x.asset_id == a,
            x.date@ == date@,
            x.close == close,
            x.source@ == source@,
            forall|j: int| 0 <= j < i ==> !(prices@[j].asset_id == a && #[trigger] prices@[j].date@ == date@),
        decreases prices@.len() - i,
    {
        if prices[i].asset_id == a && text_eq(prices[i].date.as_str(), date) {
            let ghost before = prices@;
            let ghost xv = x;
            assert(xv.asset_id == before[i as int].asset_id && xv.date@ == before[i as int].date@);
            prices.set(i, x);
            proof {
                assert(prices@ =~= before.update(i as int, xv));
                assert forall|b: i64, e: Seq<char>| #[trigger] price_at(prices@, b, e) == if b == a && e == date@ {
                    Some((close, source@))
                } else {
                    price_at(before, b, e)
                } by {
                    lemma_price_at_update(before, i as int, xv, b, e);
                }
                assert forall|p: int, q: int| 0 <= p < q < prices@.len() implies !(prices@[p].asset_id
                    == prices@[q].asset_id && prices@[p].date@ == prices@[q].date@) by {
                    if p != i && q != i {
                        assert(prices@[p] == before[p] && prices@[q] == before[q]);
                    } else if p == i {
                        assert(prices@[q] == before[q]);
                    } else {
                        assert(prices@[p] == before[p]);
                    }
                }
                assert forall|j: int| 0 <= j < prices@.len() implies #[trigger] prices@[j].asset_id == a
                    || exists|k: int| 0 <= k < before.len() && before[k].asset_id == prices@[j].asset_id by {
                    if j != i {
                        assert(before[j] == prices@[j]);
                    }
                }
            }
            return;
        }
        i = i + 1;
    }
    let ghost before = prices@;
    prices.push(x);
    proof {
        assert(prices@.drop_last() =~= before);
        assert forall|b: i64, e: Seq<char>| #[trigger] price_at(prices@, b, e) == if b == a && e == date@ {
            Some((close, source@))
        } else {
            price_at(before, b, e)
        } by {
        }
        assert forall|p: int, q: int| 0 <= p < q < prices@.len() implies !(prices@[p].asset_id
            == prices@[q].asset_id && prices@[p].date@ == prices@[q].date@) by {
            assert(prices@[p] == before[p]);
            if q < before.len() {
                assert(prices@[q] == before[q]);
            }
        }
        assert forall|j: int| 0 <= j < prices@.len() implies #[trigger] prices@[j].asset_id == a
            || exists|k: int| 0 <= k < before.len() && before[k].asset_id == prices@[j].asset_id by {
            if j < before.len() {
                assert(before[j] == prices@[j]);
            }
        }
    }
}

/// The date and close of the latest sample of asset `a`.
pub fn latest_sample(prices: &Vec<PriceSample>, a: i64) -> (r: Option<(String, i64)>)
    ensures
        latest_of(prices@, a, r),
{
    let mut best: usize = 0;
    let mut found = false;
    let mut i: usize = 0;
    while i < prices.len()
        invariant
            i <= prices@.len(),
            found ==> best < i && prices@[best as int].asset_id == a && forall|j: int|
                0 <= j < i && prices@[j].asset_id == a ==> text_le(
                    #[trigger] prices@[j].date@,
                    prices@[best as int].date@,
                ),
            !found ==> forall|j: int| 0 <= j < i ==> #[trigger] prices@[j].asset_id != a,
        decreases prices@.len() - i,
    {
        if prices[i].asset_id == a {
            if !found || !text_le_exec(prices[i].date.as_str(), prices[best].date.as_str()) {
                proof {
                    if found {
                        lemma_text_le_total(prices@[i as int].date@, prices@[best as int].date@);
                        assert forall|j: int| 0 <= j < i + 1 && prices@[j].asset_id == a implies text_le(
                            #[trigger] prices@[j].date@,
                            prices@[i as int].date@,
                        ) by {
                            if j < i {
                                crate::text::lemma_text_le_transitive(
                                    prices@[j].date@,
                                    prices@[best as int].date@,
                                    prices@[i as int].date@,
                                );
                            } else {
                                lemma_text_le_total(prices@[j].date@, prices@[j].date@);
                            }
                        }
                    } else {
                        assert forall|j: int| 0 <= j < i + 1 && prices@[j].asset_id == a implies text_le(
                            #[trigger] prices@[j].date@,
                            prices@[i as int].date@,
                        ) by {
                            lemma_text_le_total(prices@[j].date@, prices@[j].date@);
                        }
                    }
                }
                best = i;
                found = true;
            }
        }
        i = i + 1;
    }
    if found {
        let d = prices[best].date.clone();
        let c = prices[best].close;
        proof {
            assert(is_latest(prices@, a, best as int));
        }
        Some((d, c))
    } else {
        None
    }
}

/// Recording two closes for one asset and date leaves the second readable.
/// Where that date is the asset's latest, the latest sample shows the second
/// close.
pub proof fn lemma_upsert_overwrites(
    p0: Seq<PriceSample>,
    p1: Seq<PriceSample>,
    p2: Seq<PriceSample>,
    a: i64,
    d: Seq<char>,
    c1: i64,
    s1: Seq<char>,
    c2: i64,
    s2: Seq<char>,
    latest: Option<(String, i64)>,
)
    requires
        upserted(p0, p1, a, d, c1, s1),
        upserted(p1, p2, a, d, c2, s2),
        keys_unique(p2),
        latest_of(p2, a, latest),
    ensures
        price_at(p2, a, d) == Some((c2, s2)),
        latest matches Some((ld, lc)) ==> (ld@ == d ==> lc == c2),
{
    assert(price_at(p2, a, d) == Some((c2, s2)));
    if let Some((ld, lc)) = latest {
        if ld@ == d {
            let i = choose|i: int| #[trigger] is_latest(p2, a, i) && p2[i].date == ld && p2[i].close == lc;
            lemma_price_at_index(p2, i);
        }
    }
}

/// With at most one sample per asset and date, the latest sample of an asset
/// is one: any two answers that `latest_of` admits are the same.
pub proof fn lemma_latest_unique(
    prices: Seq<PriceSample>,
    a: i64,
    r1: Option<(String, i64)>,
    r2: Option<(String, i64)>,
)
    requires
        keys_unique(prices),
        latest_of(prices, a, r1),
        latest_of(prices, a, r2),
    ensures
        r1 == r2,
{
    if let Some((d1, c1)) = r1 {
        let i = choose|i: int| #[trigger] is_latest(prices, a, i) && prices[i].date == d1 && prices[i].close == c1;
        assert(has_sample(prices, a)) by {
            assert(prices[i].asset_id == a);
        }
        if let Some((d2, c2)) = r2 {
            let j = choose|j: int| #[trigger] is_latest(prices, a, j) && prices[j].date == d2 && prices[j].close == c2;
            lemma_text_le_antisymmetric(prices[i].date@, prices[j].date@);
            if i != j {
                if i < j {
                    assert(!(prices[i].asset_id == prices[j].asset_id && prices[i].date@ == prices[j].date@));
                } else {
                    assert(!(prices[j].asset_id == prices[i].asset_id && prices[j].date@ == prices[i].date@));
                }
            }
        }
    } else if let Some((d2, c2)) = r2 {
        let j = choose|j: int| #[trigger] is_latest(prices, a, j) && prices[j].date == d2 && prices[j].close == c2;
        assert(prices[j].asset_id == a);
    }
}

} // verus!
