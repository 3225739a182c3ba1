use vstd::prelude::*;

use crate::book::LevelModel;
use crate::state::{opposite, side_levels, EngineModel, EngineState};
use crate::types::Side;

verus! {

/// For an aggressor on `side` with limit `limit`, a resting order at
/// `passive_price` is acceptable: a bid pays at most its limit, an ask
/// receives at least its limit.
pub open spec fn within_limit(side: Side, passive_price: i64, limit: i64) -> bool {
    match side {
        Side::Bid => passive_price <= limit,
        Side::Ask => passive_price >= limit,
    }
}

/// A limit order on `side` at `limit` crosses the best price of the other side.
pub open spec fn marketable(m: EngineModel, side: Side, limit: i64) -> bool {
    let opp = side_levels(m, opposite(side));
    opp.len() > 0 && within_limit(side, opp[0].price, limit)
}

/// Total resting quantity at the leading levels of `levels` that an
/// aggressor on `side` with limit `limit` may trade with.
pub open spec fn reachable_liquidity(levels: Seq<LevelModel>, side: Side, limit: i64) -> nat
    decreases levels.len(),
{
    if levels.len() == 0 || !within_limit(side, levels[0].price, limit) {
        0
    } else {
        levels[0].total as nat + reachable_liquidity(levels.drop_first(), side, limit)
    }
}

/// The other side holds, at acceptable prices, at least `needed` (and at
/// least one acceptable level).
pub open spec fn sufficient_liquidity(m: EngineModel, side: Side, limit: i64, needed: u64) -> bool {
    &&& marketable(m, side, limit)
    &&& needed <= reachable_liquidity(side_levels(m, opposite(side)), side, limit)
}

impl EngineState {
    /// A limit order is marketable when, on arrival, it crosses the best
    /// price of the other side.
    pub fn is_marketable_limit(&self, side: Side, limit_price: i64) -> (r: bool)
        ensures
            r == marketable(self@, side, limit_price),
    {
        match side {
            Side::Bid => self.order_book.asks.len() > 0 && self.order_book.asks[0].price
                <= limit_price,
            Side::Ask => self.order_book.bids.len() > 0 && self.order_book.bids[0].price
                >= limit_price,
        }
    }

    /// Whether the other side can fill `needed` at prices within `limit_price`:
    /// walks its levels best first, accumulating their totals.
    pub fn has_sufficient_liquidity(&self, side: Side, limit_price: i64, needed: u64) -> (r: bool)
        ensures
            r == sufficient_liquidity(self@, side, limit_price, needed),
    {
        let levels = match side {
            Side::Bid => &self.order_book.asks,
            Side::Ask => &self.order_book.bids,
        };
        let ghost lv = side_levels(self@, opposite(side));
        assert(lv == crate::book::levels_view(levels@));
        let mut acc: u128 = 0;
        let mut i: usize = 0;
        assert(lv.skip(0) =~= lv);
        while i < levels.len()
            invariant
                lv == crate::book::levels_view(levels@),
                lv == side_levels(self@, opposite(side)),
                0 <= i <= levels@.len(),
                i > 0 ==> acc < needed,
                i == 0 ==> acc == 0,
                i > 0 ==> within_limit(side, lv[0].price, limit_price),
                reachable_liquidity(lv, side, limit_price) == acc + reachable_liquidity(
                    lv.skip(i as int),
                    side,
                    limit_price,
                ),
            decreases levels@.len() - i,
        {
            let p = levels[i].price;
            let ok = match side {
                Side::Bid => p <= limit_price,
                Side::Ask => p >= limit_price,
            };
            proof {
                assert(lv.skip(i as int)[0] == lv[i as int]);
                assert(lv.skip(i as int).drop_first() =~= lv.skip(i + 1));
                assert(reachable_liquidity(lv.skip(i as int), side, limit_price) == if within_limit(
                    side,
                    lv[i as int].price,
                    limit_price,
                ) {
                    lv[i as int].total as nat + reachable_liquidity(lv.skip(i + 1), side, limit_price)
                } else {
                    0
                });
            }
            if !ok {
                return false;
            }
            match acc.checked_add(levels[i].total_quantity) {
                None => {
                    return true;
                },
                Some(a) => {
                    acc = a;
                },
            }
            if acc >= needed as u128 {
                return true;
            }
            i = i + 1;
        }
        proof {
            assert(lv.skip(i as int).len() == 0);
        }
        false
    }
}

} // verus!
