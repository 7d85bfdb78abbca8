//! Data model: orders, positions (stocks), the three collections of the
//! store, and their well-formedness conditions.

use vstd::prelude::*;

verus! {

/// Currencies a position could be denominated in. Present in the data
/// model but not used by any computation.
#[derive(Debug, Clone, Copy, PartialEq, Eq, Structural)]
pub enum Currency {
    CAD,
    USD,
}

/// The listing venues a position can belong to.
#[derive(Debug, Clone, Copy, PartialEq, Eq, Structural)]
pub enum Exchange {
    TSX,
    TSXV,
    NYSE,
}

impl Default for Exchange {
    /// The default venue is NYSE.
    fn default() -> (r: Self)
        ensures
            r == Exchange::NYSE,
    {
        Exchange::NYSE
    }
}

/// One immutable trade record. `shares` is signed: positive is a buy,
/// negative is a sell. `share_price` is the price of one share in cents.
#[derive(Debug, Clone, Copy, PartialEq, Eq, Structural)]
pub struct Order {
    pub shares: i32,
    pub share_price: u32,
}

/// One tradable instrument: its ticker symbol (uppercase, the key within
/// a collection), its listing venue, and its full append-only order ledger.
#[derive(Debug, PartialEq)]
pub struct Stock {
    pub symbol: String,
    pub exchange: Exchange,
    pub orders: Vec<Order>,
}

/// Aggregate metrics of one position's order ledger, in cents.
/// `total_spent` sums the cost of the buys, `total_sell` the proceeds of
/// the sells, and `total_shares` is the signed net holding.
#[derive(Debug, Clone, Copy, PartialEq, Eq, Structural)]
pub struct OrderMetrics {
    pub total_spent: i128,
    pub total_sell: i128,
    pub total_shares: i128,
}

/// An exact fraction `num / den`. Returned where a computed quantity
/// (an average price, a percentage) need not be a whole number of cents.
#[derive(Debug, Clone, Copy, PartialEq, Eq, Structural)]
pub struct Ratio {
    pub num: i128,
    pub den: i128,
}

/// The store: three collections of positions, each keyed by the
/// position's symbol.
#[derive(Debug, PartialEq)]
pub struct StockCollections {
    pub portfolio: Vec<Stock>,
    pub watchlist: Vec<Stock>,
    pub archive: Vec<Stock>,
}

/// Cost of one order if it is a buy, else zero.
pub open spec fn order_buy_cost(o: Order) -> int {
    if o.shares > 0 {
        o.shares * o.share_price
    } else {
        0
    }
}

/// Proceeds of one order if it is a sell, else zero.
pub open spec fn order_sell_proceeds(o: Order) -> int {
    if o.shares < 0 {
        (-o.shares) * o.share_price
    } else {
        0
    }
}

/// Sum of `shares * share_price` over the buys of a ledger.
pub open spec fn sum_spent(s: Seq<Order>) -> int
    decreases s.len(),
{
    if s.len() == 0 {
        0
    } else {
        sum_spent(s.drop_last()) + order_buy_cost(s.last())
    }
}

/// Sum of `abs(shares) * share_price` over the sells of a ledger.
pub open spec fn sum_sell(s: Seq<Order>) -> int
    decreases s.len(),
{
    if s.len() == 0 {
        0
    } else {
        sum_sell(s.drop_last()) + order_sell_proceeds(s.last())
    }
}

/// Signed sum of `shares` over a whole ledger: the net holding.
pub open spec fn sum_shares(s: Seq<Order>) -> int
    decreases s.len(),
{
    if s.len() == 0 {
        0
    } else {
        sum_shares(s.drop_last()) + s.last().shares
    }
}

/// The characters a stored ticker symbol may hold: uppercase letters,
/// digits, a dot or a dash.
pub open spec fn valid_symbol_char(c: char) -> bool {
    ||| 'A' <= c && c <= 'Z'
    ||| '0' <= c && c <= '9'
    ||| c == '.'
    ||| c == '-'
}

/// A stored symbol: non-empty and made only of valid symbol characters.
pub open spec fn valid_symbol(s: Seq<char>) -> bool {
    &&& s.len() >= 1
    &&& forall|i: int| 0 <= i < s.len() ==> valid_symbol_char(#[trigger] s[i])
}

/// A well-formed position: its symbol is a valid stored symbol.
pub open spec fn wf_stock(st: Stock) -> bool {
    valid_symbol(st.symbol@)
}

/// No two positions of one collection share a symbol.
pub open spec fn distinct_symbols(v: Seq<Stock>) -> bool {
    forall|i: int, j: int|
        0 <= i < j < v.len() ==> (#[trigger] v[i]).symbol@ != (#[trigger] v[j]).symbol@
}

/// A well-formed collection: well-formed positions with distinct symbols.
pub open spec fn wf_stocks(v: Seq<Stock>) -> bool {
    &&& forall|i: int| 0 <= i < v.len() ==> wf_stock(#[trigger] v[i])
    &&& distinct_symbols(v)
}

/// Some position of the collection carries this symbol.
pub open spec fn contains_symbol(v: Seq<Stock>, sym: Seq<char>) -> bool {
    exists|i: int| 0 <= i < v.len() && (#[trigger] v[i]).symbol@ == sym
}

/// The index of the position carrying this symbol (meaningful when
/// `contains_symbol` holds; unique under `distinct_symbols`).
pub open spec fn symbol_index(v: Seq<Stock>, sym: Seq<char>) -> int {
    choose|i: int| 0 <= i < v.len() && (#[trigger] v[i]).symbol@ == sym
}

/// The position of the collection carrying this symbol.
pub open spec fn stock_at(v: Seq<Stock>, sym: Seq<char>) -> Stock {
    v[symbol_index(v, sym)]
}

/// A position has exactly these fields (the symbol compared by view).
pub open spec fn stock_is(st: Stock, sym: Seq<char>, ex: Exchange, orders: Seq<Order>) -> bool {
    &&& st.symbol@ == sym
    &&& st.exchange == ex
    &&& st.orders@ == orders
}

/// `v1` is `v0` with a position of the given fields written under its
/// symbol: replacing the one entry of that symbol if present, appended
/// at the end otherwise. Every other entry is unchanged.
pub open spec fn upserted_with(
    v0: Seq<Stock>,
    v1: Seq<Stock>,
    sym: Seq<char>,
    ex: Exchange,
    orders: Seq<Order>,
) -> bool {
    if contains_symbol(v0, sym) {
        &&& v1.len() == v0.len()
        &&& forall|j: int|
            0 <= j < v0.len() && j != symbol_index(v0, sym) ==> #[trigger] v1[j] == v0[j]
        &&& stock_is(v1[symbol_index(v0, sym)], sym, ex, orders)
    } else {
        &&& v1.len() == v0.len() + 1
        &&& v1.drop_last() == v0
        &&& stock_is(v1.last(), sym, ex, orders)
    }
}

impl StockCollections {
    /// Structural well-formedness of the store: each collection holds
    /// well-formed positions with distinct symbols.
    pub open spec fn wf(self) -> bool {
        &&& wf_stocks(self.portfolio@)
        &&& wf_stocks(self.watchlist@)
        &&& wf_stocks(self.archive@)
    }

    /// The semantic invariant of the store on top of `wf`: open positions
    /// hold a positive net share count, watched positions have no orders,
    /// and archived positions are fully closed out.
    pub open spec fn inv(self) -> bool {
        &&& self.wf()
        &&& forall|i: int|
            0 <= i < self.portfolio@.len() ==> sum_shares(
                (#[trigger] self.portfolio@[i]).orders@,
            ) > 0
        &&& forall|i: int|
            0 <= i < self.watchlist@.len() ==> (#[trigger] self.watchlist@[i]).orders@.len() == 0
        &&& forall|i: int|
            0 <= i < self.archive@.len() ==> sum_shares((#[trigger] self.archive@[i]).orders@)
                == 0
    }

    /// An empty store: all three collections present and empty.
    pub fn new() -> (r: StockCollections)
        ensures
            r.portfolio@.len() == 0,
            r.watchlist@.len() == 0,
            r.archive@.len() == 0,
            r.wf(),
            r.inv(),
    {
        StockCollections { portfolio: Vec::new(), watchlist: Vec::new(), archive: Vec::new() }
    }
}

/// Removing a position keeps a collection well-formed.
pub proof fn lemma_wf_remove(v: Seq<Stock>, i: int)
    requires
        wf_stocks(v),
        0 <= i < v.len(),
    ensures
        wf_stocks(v.remove(i)),
{
    let w = v.remove(i);
    assert forall|a: int| 0 <= a < w.len() implies wf_stock(#[trigger] w[a]) by {
        if a < i {
            assert(w[a] == v[a]);
        } else {
            assert(w[a] == v[a + 1]);
        }
    }
    assert forall|a: int, b: int| 0 <= a < b < w.len() implies (#[trigger] w[a]).symbol@ != (
    #[trigger] w[b]).symbol@ by {
        let a0 = if a < i { a } else { a + 1 };
        let b0 = if b < i { b } else { b + 1 };
        assert(w[a] == v[a0]);
        assert(w[b] == v[b0]);
    }
}

/// After the one position of a symbol is removed, as a sell of the
/// full held quantity removes it from the portfolio, no position of
/// that symbol is left in the collection.
pub proof fn lemma_removed_symbol_absent(v: Seq<Stock>, sym: Seq<char>)
    requires
        distinct_symbols(v),
        contains_symbol(v, sym),
    ensures
        !contains_symbol(v.remove(symbol_index(v, sym)), sym),
{
    let i = symbol_index(v, sym);
    assert(0 <= i < v.len() && v[i].symbol@ == sym);
    let w = v.remove(i);
    assert forall|j: int| 0 <= j < w.len() implies (#[trigger] w[j]).symbol@ != sym by {
        if j < i {
            assert(w[j] == v[j]);
        } else {
            assert(w[j] == v[j + 1]);
        }
    }
}

/// Replacing a position by one of the same symbol keeps a collection
/// well-formed.
pub proof fn lemma_wf_update(v: Seq<Stock>, i: int, st: Stock)
    requires
        wf_stocks(v),
        0 <= i < v.len(),
        wf_stock(st),
        st.symbol@ == v[i].symbol@,
    ensures
        wf_stocks(v.update(i, st)),
{
}

/// Appending a position of a fresh symbol keeps a collection
/// well-formed.
pub proof fn lemma_wf_push(v: Seq<Stock>, st: Stock)
    requires
        wf_stocks(v),
        wf_stock(st),
        !contains_symbol(v, st.symbol@),
    ensures
        wf_stocks(v.push(st)),
{
    let w = v.push(st);
    assert forall|a: int, b: int| 0 <= a < b < w.len() implies (#[trigger] w[a]).symbol@ != (
    #[trigger] w[b]).symbol@ by {
        if b == v.len() {
            assert(w[a] == v[a]);
            assert(v[a].symbol@ != st.symbol@);
        }
    }
}

/// Finds the position carrying this symbol, if any.
pub fn find_stock(v: &Vec<Stock>, sym: &String) -> (r: Option<usize>)
    requires
        distinct_symbols(v@),
    ensures
        match r {
            Some(i) => 0 <= i < v@.len() && v@[i as int].symbol@ == sym@ && contains_symbol(
                v@,
                sym@,
            ) && i == symbol_index(v@, sym@),
            None => !contains_symbol(v@, sym@),
        },
{
    let mut i: usize = 0;
    while i < v.len()
        invariant
            0 <= i <= v@.len(),
            distinct_symbols(v@),
            forall|j: int| 0 <= j < i ==> (#[trigger] v@[j]).symbol@ != sym@,
        decreases v@.len() - i,
    {
        if v[i].symbol == *sym {
            proof {
                assert(contains_symbol(v@, sym@));
                let k = symbol_index(v@, sym@);
                assert(0 <= k < v@.len() && v@[k].symbol@ == sym@);
                if k != i {
                    assert(v@[k].symbol@ != v@[i as int].symbol@);
                }
            }
            return Some(i);
        }
        i = i + 1;
    }
    None
}

} // verus!
