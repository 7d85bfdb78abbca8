//! Order-ledger aggregation: cost basis, proceeds, net share count and
//! average price of one position, with the laws that hold of them.

use vstd::prelude::*;
use crate::model::{Order, OrderMetrics, Ratio, Stock, order_buy_cost, order_sell_proceeds, sum_spent, sum_sell, sum_shares};

verus! {

/// Sum of `shares * share_price` over a whole ledger, buys and sells
/// alike taken with their sign.
pub open spec fn sum_signed_cost(s: Seq<Order>) -> int
    decreases s.len(),
{
    if s.len() == 0 {
        0
    } else {
        sum_signed_cost(s.drop_last()) + s.last().shares * s.last().share_price
    }
}

impl Stock {
    /// Aggregates this position's full order ledger: what the buys cost,
    /// what the sells brought in, and the signed net share count.
    pub fn calculate_order_metrics(&self) -> (r: OrderMetrics)
        ensures
            r.total_spent == sum_spent(self.orders@),
            r.total_sell == sum_sell(self.orders@),
            r.total_shares == sum_shares(self.orders@),
    {
        let n = self.orders.len();
        let mut total_spent: i128 = 0;
        let mut total_sell: i128 = 0;
        let mut total_shares: i128 = 0;
        let mut i: usize = 0;
        while i < n
            invariant
                0 <= i <= n,
                n == self.orders@.len(),
                total_spent == sum_spent(self.orders@.take(i as int)),
                total_sell == sum_sell(self.orders@.take(i as int)),
                total_shares == sum_shares(self.orders@.take(i as int)),
                0 <= total_spent <= (i as int) * 0x8000_0000_0000_0000,
                0 <= total_sell <= (i as int) * 0x8000_0000_0000_0000,
                -((i as int) * 0x8000_0000) <= total_shares <= (i as int) * 0x8000_0000,
            decreases n - i,
        {
            let o = self.orders[i];
            proof {
                assert(self.orders@.take(i + 1).drop_last() =~= self.orders@.take(i as int));
                assert(self.orders@.take(i + 1).last() == self.orders@[i as int]);
                assert((i as int + 1) * 0x8000_0000_0000_0000 <= 0xFFFF_FFFF_FFFF_FFFF
                    * 0x8000_0000_0000_0000) by (nonlinear_arith)
                    requires
                        i as int + 1 <= 0xFFFF_FFFF_FFFF_FFFF,
                ;
                assert((i as int + 1) * 0x8000_0000 <= 0xFFFF_FFFF_FFFF_FFFF * 0x8000_0000)
                    by (nonlinear_arith)
                    requires
                        i as int + 1 <= 0xFFFF_FFFF_FFFF_FFFF,
                ;
            }
            if o.shares > 0 {
                proof {
                    assert(o.shares * o.share_price <= 0x8000_0000_0000_0000) by (nonlinear_arith)
                        requires
                            0 <= o.shares <= 0x8000_0000,
                            0 <= o.share_price < 0x1_0000_0000,
                    ;
                }
                let cost: i128 = (o.shares as i128) * (o.share_price as i128);
                total_spent = total_spent + cost;
            } else if o.shares < 0 {
                proof {
                    assert((-(o.shares as int)) * o.share_price <= 0x8000_0000_0000_0000)
                        by (nonlinear_arith)
                        requires
                            0 <= -(o.shares as int) <= 0x8000_0000,
                            0 <= o.share_price < 0x1_0000_0000,
                    ;
                }
                let pos_shares: i128 = -(o.shares as i128);
                let proceeds: i128 = pos_shares * (o.share_price as i128);
                total_sell = total_sell + proceeds;
            }
            total_shares = total_shares + (o.shares as i128);
            i = i + 1;
        }
        proof {
            assert(self.orders@.take(n as int) =~= self.orders@);
        }
        OrderMetrics { total_spent, total_sell, total_shares }
    }
}

impl OrderMetrics {
    /// The average price paid per currently held share, as the exact
    /// fraction `total_spent / total_shares`. Undefined (`None`) exactly
    /// when the position holds no net shares, as a fully closed position
    /// does; closed positions are reported from `total_spent` and
    /// `total_sell` alone instead.
    pub fn average_price(&self) -> (r: Option<Ratio>)
        ensures
            r is Some <==> self.total_shares != 0,
            r matches Some(q) ==> q.num == self.total_spent && q.den == self.total_shares,
    {
        if self.total_shares != 0 {
            Some(Ratio { num: self.total_spent, den: self.total_shares })
        } else {
            None
        }
    }

    /// Realized gain of a closed position, in cents: proceeds of the
    /// sells less cost of the buys.
    pub fn realized_gain(&self) -> (r: i128)
        requires
            self.total_spent >= 0,
            self.total_sell >= 0,
        ensures
            r == self.total_sell - self.total_spent,
    {
        self.total_sell - self.total_spent
    }

    /// Realized gain of a closed position as a fraction of its cost:
    /// `(total_sell - total_spent) / total_spent`. Undefined (`None`)
    /// exactly when nothing was ever spent.
    pub fn realized_gain_percentage(&self) -> (r: Option<Ratio>)
        requires
            self.total_spent >= 0,
            self.total_sell >= 0,
        ensures
            r is Some <==> self.total_spent != 0,
            r matches Some(q) ==> q.num == self.total_sell - self.total_spent && q.den
                == self.total_spent,
    {
        if self.total_spent != 0 {
            Some(Ratio { num: self.total_sell - self.total_spent, den: self.total_spent })
        } else {
            None
        }
    }
}

/// The ledger sums are bounded by the ledger's length: no single order
/// moves a sum by more than the largest share count times the largest
/// price.
pub proof fn lemma_sum_bounds(s: Seq<Order>)
    ensures
        0 <= sum_spent(s) <= s.len() * 0x8000_0000_0000_0000,
        0 <= sum_sell(s) <= s.len() * 0x8000_0000_0000_0000,
        -(s.len() * 0x8000_0000) <= sum_shares(s) <= s.len() * 0x8000_0000,
    decreases s.len(),
{
    if s.len() > 0 {
        lemma_sum_bounds(s.drop_last());
        let o = s.last();
        assert(order_buy_cost(o) <= 0x8000_0000_0000_0000 && order_buy_cost(o) >= 0)
            by (nonlinear_arith)
            requires
                -0x8000_0000 <= o.shares <= 0x8000_0000,
                0 <= o.share_price < 0x1_0000_0000,
        ;
        assert(order_sell_proceeds(o) <= 0x8000_0000_0000_0000 && order_sell_proceeds(o) >= 0)
            by (nonlinear_arith)
            requires
                -0x8000_0000 <= o.shares <= 0x8000_0000,
                0 <= o.share_price < 0x1_0000_0000,
        ;
    }
}

/// Removing one order from anywhere in a ledger lowers the net share
/// count by exactly that order's share count.
proof fn lemma_sum_shares_remove(s: Seq<Order>, k: int)
    requires
        0 <= k < s.len(),
    ensures
        sum_shares(s) == sum_shares(s.remove(k)) + s[k].shares,
    decreases s.len(),
{
    if k == s.len() - 1 {
        assert(s.remove(k) =~= s.drop_last());
    } else {
        let t = s.drop_last();
        lemma_sum_shares_remove(t, k);
        assert(s.remove(k).drop_last() =~= t.remove(k));
        assert(s.remove(k).last() == s.last());
    }
}

/// The net share count is order-independent: any two ledgers holding the
/// same orders, in whatever order, have the same `total_shares`.
pub proof fn lemma_sum_shares_permutation(s1: Seq<Order>, s2: Seq<Order>)
    requires
        s1.to_multiset() == s2.to_multiset(),
    ensures
        sum_shares(s1) == sum_shares(s2),
    decreases s1.len(),
{
    broadcast use vstd::seq_lib::group_to_multiset_ensures;

    if s1.len() == 0 {
        assert(s2.to_multiset().len() == 0);
    } else {
        let x = s1.last();
        assert(s1[s1.len() - 1] == x);
        assert(s1.contains(x));
        assert(s2.to_multiset().count(x) > 0);
        assert(s2.contains(x));
        let k = choose|k: int| 0 <= k < s2.len() && s2[k] == x;
        lemma_sum_shares_remove(s2, k);
        lemma_sum_shares_remove(s1, s1.len() - 1);
        assert(s1.remove(s1.len() - 1) =~= s1.drop_last());
        assert(s1.drop_last().to_multiset() =~= s1.to_multiset().remove(x));
        assert(s2.remove(k).to_multiset() =~= s2.to_multiset().remove(x));
        lemma_sum_shares_permutation(s1.drop_last(), s2.remove(k));
    }
}

/// For a ledger of buys alone, the net share count is positive, so the
/// average price is defined, and the cost of the buys is the full signed
/// sum `sum(shares_i * price_i)`; the average price is therefore exactly
/// `sum(shares_i * price_i) / sum(shares_i)`.
pub proof fn lemma_buy_only_average_price(s: Seq<Order>)
    requires
        s.len() >= 1,
        forall|i: int| 0 <= i < s.len() ==> (#[trigger] s[i]).shares > 0,
    ensures
        sum_shares(s) > 0,
        sum_spent(s) == sum_signed_cost(s),
    decreases s.len(),
{
    assert(s[s.len() - 1].shares > 0);
    if s.len() == 1 {
        assert(s.drop_last().len() == 0);
        assert(sum_shares(s.drop_last()) == 0);
        assert(sum_spent(s.drop_last()) == 0);
        assert(sum_signed_cost(s.drop_last()) == 0);
        assert(order_buy_cost(s.last()) == s.last().shares * s.last().share_price);
    } else {
        assert(forall|i: int|
            0 <= i < s.drop_last().len() ==> (#[trigger] s.drop_last()[i]).shares > 0);
        lemma_buy_only_average_price(s.drop_last());
        assert(order_buy_cost(s.last()) == s.last().shares * s.last().share_price);
    }
}

} // verus!
