//! Position lifecycle: normalizing symbols, resolving exchange codes,
//! and applying one buy/sell or watch command to the store.

use vstd::prelude::*;
use vstd::string::StrSliceExecFns;
use vstd::string::StringExecFns;
use crate::errors::{StockoError, is_invalid_share_quantity};
use crate::model::{
    Exchange, Order, Stock, StockCollections, contains_symbol, find_stock, lemma_wf_push,
    lemma_wf_remove, lemma_wf_update, stock_at, stock_is, sum_shares, symbol_index,
    upserted_with, valid_symbol, valid_symbol_char, wf_stock, wf_stocks,
};

verus! {

/// Lowercases one character, for ASCII letters only; every other
/// character is left as it is.
pub open spec fn lower_char(c: char) -> char {
    if 'A' <= c && c <= 'Z' {
        ((c as u32) + 32) as char
    } else {
        c
    }
}

/// Uppercases one character, for ASCII letters only; every other
/// character is left as it is.
pub open spec fn upper_char(c: char) -> char {
    if 'a' <= c && c <= 'z' {
        ((c as u32) - 32) as char
    } else {
        c
    }
}

/// A string lowercased character by character.
pub open spec fn lower_seq(s: Seq<char>) -> Seq<char> {
    Seq::new(s.len(), |i: int| lower_char(s[i]))
}

/// A string uppercased character by character.
pub open spec fn upper_seq(s: Seq<char>) -> Seq<char> {
    Seq::new(s.len(), |i: int| upper_char(s[i]))
}

/// The characters a symbol may hold as the user types it: the stored
/// symbol characters plus lowercase ASCII letters, which normalization
/// uppercases.
pub open spec fn valid_input_symbol_char(c: char) -> bool {
    valid_symbol_char(c) || ('a' <= c && c <= 'z')
}

/// A symbol as the user may give it: non-empty, letters (either case),
/// digits, dots and dashes.
pub open spec fn valid_input_symbol(s: Seq<char>) -> bool {
    &&& s.len() >= 1
    &&& forall|i: int| 0 <= i < s.len() ==> valid_input_symbol_char(#[trigger] s[i])
}

/// The absolute value of a signed share count.
pub open spec fn abs_of(x: i32) -> int {
    if x < 0 {
        -(x as int)
    } else {
        x as int
    }
}

/// The venue an optional exchange code resolves to: no code means the
/// default venue; `tsx`, `tsxv` and `nsye` (in any letter case) name the
/// fixed venues; anything else resolves to nothing.
pub open spec fn resolved_exchange(symbol: Option<&str>) -> Option<Exchange> {
    match symbol {
        Option::None => Option::Some(Exchange::NYSE),
        Option::Some(s) => if lower_seq(s@) == "tsx"@ {
            Option::Some(Exchange::TSX)
        } else if lower_seq(s@) == "tsxv"@ {
            Option::Some(Exchange::TSXV)
        } else if lower_seq(s@) == "nsye"@ {
            Option::Some(Exchange::NYSE)
        } else {
            Option::None
        },
    }
}

/// Uppercasing a valid input symbol yields a valid stored symbol.
pub proof fn lemma_upper_symbol_valid(s: Seq<char>)
    requires
        valid_input_symbol(s),
    ensures
        valid_symbol(upper_seq(s)),
{
    assert forall|i: int| 0 <= i < upper_seq(s).len() implies valid_symbol_char(
        #[trigger] upper_seq(s)[i],
    ) by {
        assert(valid_input_symbol_char(s[i]));
    }
}

/// Two strings are equal once both are lowercased.
fn str_eq_lower(s: &str, t: &str) -> (r: bool)
    ensures
        r == (lower_seq(s@) == lower_seq(t@)),
{
    let ns = s.unicode_len();
    let nt = t.unicode_len();
    if ns != nt {
        proof {
            assert(lower_seq(s@).len() != lower_seq(t@).len());
        }
        return false;
    }
    let mut i: usize = 0;
    while i < ns
        invariant
            0 <= i <= ns,
            ns == s@.len(),
            ns == t@.len(),
            forall|j: int| 0 <= j < i ==> lower_seq(s@)[j] == lower_seq(t@)[j],
        decreases ns - i,
    {
        let cs = s.get_char(i) as u32;
        let ct = t.get_char(i) as u32;
        let ls = if 65 <= cs && cs <= 90 {
            cs + 32
        } else {
            cs
        };
        let lt = if 65 <= ct && ct <= 90 {
            ct + 32
        } else {
            ct
        };
        proof {
            assert(ls == lower_char(s@[i as int]) as u32);
            assert(lt == lower_char(t@[i as int]) as u32);
        }
        if ls != lt {
            proof {
                assert(lower_seq(s@)[i as int] != lower_seq(t@)[i as int]);
            }
            return false;
        }
        i = i + 1;
    }
    proof {
        assert(lower_seq(s@) =~= lower_seq(t@));
    }
    true
}

/// The uppercase ASCII letter for a lowercase one, as a one-character
/// string slice.
fn upper_ascii_str(c: char) -> (r: &'static str)
    requires
        97 <= c as u32 <= 122,
    ensures
        r@ == seq![upper_char(c)],
{
    proof {
        reveal_strlit("A");
        reveal_strlit("B");
        reveal_strlit("C");
        reveal_strlit("D");
        reveal_strlit("E");
        reveal_strlit("F");
        reveal_strlit("G");
        reveal_strlit("H");
        reveal_strlit("I");
        reveal_strlit("J");
        reveal_strlit("K");
        reveal_strlit("L");
        reveal_strlit("M");
        reveal_strlit("N");
        reveal_strlit("O");
        reveal_strlit("P");
        reveal_strlit("Q");
        reveal_strlit("R");
        reveal_strlit("S");
        reveal_strlit("T");
        reveal_strlit("U");
        reveal_strlit("V");
        reveal_strlit("W");
        reveal_strlit("X");
        reveal_strlit("Y");
        reveal_strlit("Z");
    }
    match c {
        'a' => "A",
        'b' => "B",
        'c' => "C",
        'd' => "D",
        'e' => "E",
        'f' => "F",
        'g' => "G",
        'h' => "H",
        'i' => "I",
        'j' => "J",
        'k' => "K",
        'l' => "L",
        'm' => "M",
        'n' => "N",
        'o' => "O",
        'p' => "P",
        'q' => "Q",
        'r' => "R",
        's' => "S",
        't' => "T",
        'u' => "U",
        'v' => "V",
        'w' => "W",
        'x' => "X",
        'y' => "Y",
        _ => "Z",
    }
}

/// A copy of the string with ASCII letters uppercased.
pub fn uppercased(s: &str) -> (r: String)
    ensures
        r@ == upper_seq(s@),
{
    let n = s.unicode_len();
    let mut out = String::new();
    let mut i: usize = 0;
    while i < n
        invariant
            0 <= i <= n,
            n == s@.len(),
            out@ == upper_seq(s@).take(i as int),
        decreases n - i,
    {
        let c = s.get_char(i);
        let cu = c as u32;
        if 97 <= cu && cu <= 122 {
            let piece = upper_ascii_str(c);
            out.append(piece);
        } else {
            let piece = s.substring_char(i, i + 1);
            out.append(piece);
            proof {
                assert(piece@ =~= seq![s@[i as int]]);
                assert(upper_char(s@[i as int]) == s@[i as int]);
            }
        }
        proof {
            assert(out@ =~= upper_seq(s@).take(i as int + 1));
        }
        i = i + 1;
    }
    proof {
        assert(upper_seq(s@).take(n as int) =~= upper_seq(s@));
    }
    out
}

/// Whether a string is acceptable as a symbol on the command line.
pub fn check_symbol(s: &str) -> (r: bool)
    ensures
        r == valid_input_symbol(s@),
{
    let n = s.unicode_len();
    if n == 0 {
        return false;
    }
    let mut i: usize = 0;
    while i < n
        invariant
            0 <= i <= n,
            n == s@.len(),
            forall|j: int| 0 <= j < i ==> valid_input_symbol_char(#[trigger] s@[j]),
        decreases n - i,
    {
        let cu = s.get_char(i) as u32;
        let ok = (65 <= cu && cu <= 90) || (97 <= cu && cu <= 122) || (48 <= cu && cu <= 57) || cu
            == 46 || cu == 45;
        if !ok {
            proof {
                assert(!valid_input_symbol_char(s@[i as int]));
            }
            return false;
        }
        i = i + 1;
    }
    true
}

impl Exchange {
    /// Resolves an optional exchange code from the command line; an
    /// unrecognized code is refused with `InvalidExchange`.
    pub fn from_symbol(symbol: Option<&str>) -> (r: Result<Exchange, StockoError>)
        ensures
            match resolved_exchange(symbol) {
                Option::Some(e) => r == Ok::<Exchange, StockoError>(e),
                Option::None => r == Err::<Exchange, StockoError>(StockoError::InvalidExchange),
            },
    {
        proof {
            reveal_strlit("tsx");
            reveal_strlit("tsxv");
            reveal_strlit("nsye");
            assert(lower_seq("tsx"@) =~= "tsx"@);
            assert(lower_seq("tsxv"@) =~= "tsxv"@);
            assert(lower_seq("nsye"@) =~= "nsye"@);
        }
        match symbol {
            Option::None => Ok(Exchange::NYSE),
            Option::Some(s) => {
                if str_eq_lower(s, "tsx") {
                    Ok(Exchange::TSX)
                } else if str_eq_lower(s, "tsxv") {
                    Ok(Exchange::TSXV)
                } else if str_eq_lower(s, "nsye") {
                    Ok(Exchange::NYSE)
                } else {
                    Err(StockoError::InvalidExchange)
                }
            },
        }
    }
}

/// The suffix the quote provider wants appended to a symbol listed on
/// the given venue; an unrecognized code is refused with
/// `InvalidExchange`.
pub fn suffix_for_exchange_symbol(exchange_symbol: &str) -> (r: Result<&'static str, StockoError>)
    ensures
        ({
            let l = lower_seq(exchange_symbol@);
            if l == "tsx"@ {
                r matches Ok(x) && x@ == ".TO"@
            } else if l == "tsxv"@ {
                r matches Ok(x) && x@ == ".V"@
            } else if l == "nsye"@ {
                r matches Ok(x) && x@ == ""@
            } else {
                r == Err::<&'static str, StockoError>(StockoError::InvalidExchange)
            }
        }),
{
    proof {
        reveal_strlit("tsx");
        reveal_strlit("tsxv");
        reveal_strlit("nsye");
        assert(lower_seq("tsx"@) =~= "tsx"@);
        assert(lower_seq("tsxv"@) =~= "tsxv"@);
        assert(lower_seq("nsye"@) =~= "nsye"@);
    }
    if str_eq_lower(exchange_symbol, "tsx") {
        Ok(".TO")
    } else if str_eq_lower(exchange_symbol, "tsxv") {
        Ok(".V")
    } else if str_eq_lower(exchange_symbol, "nsye") {
        Ok("")
    } else {
        Err(StockoError::InvalidExchange)
    }
}

/// The absolute value of a signed share count, as the unsigned type the
/// error payload carries.
fn abs_u32(x: i32) -> (r: u32)
    ensures
        r == abs_of(x),
{
    if x < 0 {
        (-(x as i64)) as u32
    } else {
        x as u32
    }
}

/// Writes a position into a collection under its symbol: replaces the
/// one entry of that symbol if present, appends the position otherwise.
fn upsert_stock(v: &mut Vec<Stock>, st: Stock)
    requires
        wf_stocks(old(v)@),
        wf_stock(st),
    ensures
        wf_stocks(final(v)@),
        upserted_with(old(v)@, final(v)@, st.symbol@, st.exchange, st.orders@),
{
    let ghost v0 = v@;
    let ghost stg = st;
    match find_stock(v, &st.symbol) {
        Option::Some(i) => {
            let _old = v.remove(i);
            v.insert(i, st);
            proof {
                assert(v@ =~= v0.update(i as int, stg));
                lemma_wf_update(v0, i as int, stg);
            }
        },
        Option::None => {
            v.push(st);
            proof {
                lemma_wf_push(v0, stg);
                assert(v@.drop_last() =~= v0);
            }
        },
    }
}

/// What applying one buy/sell command must have done to the store.
///
/// `c0` and `c1` are the store before and after; `up` the uppercased
/// symbol; `rex` the resolved exchange; `o` the order the command asked
/// to append. An unrecognized exchange code, a sell without a position,
/// and a sell of more shares than held each fail with the documented
/// error and leave the store untouched. A sell of exactly the held
/// net count moves the position, with the sell appended, from the
/// portfolio to the archive. Every other accepted order is appended to
/// the position under its symbol, which a first buy creates fresh.
pub open spec fn process_order_post(
    c0: StockCollections,
    c1: StockCollections,
    up: Seq<char>,
    rex: Option<Exchange>,
    shares: i32,
    price: u32,
    r: Result<(), StockoError>,
) -> bool {
    let o = Order { shares, share_price: price };
    let unchanged = c1.portfolio@ == c0.portfolio@ && c1.watchlist@ == c0.watchlist@
        && c1.archive@ == c0.archive@;
    if rex is None {
        r == Err::<(), StockoError>(StockoError::InvalidExchange) && unchanged
    } else {
        let has = contains_symbol(c0.portfolio@, up);
        let st0 = stock_at(c0.portfolio@, up);
        let net = if has {
            sum_shares(st0.orders@)
        } else {
            0
        };
        if !(has) && shares <= 0 {
            &&& r matches Err(e) && is_invalid_share_quantity(e, up, abs_of(shares))
            &&& unchanged
        } else if shares < 0 && net < abs_of(shares) {
            &&& r matches Err(e) && is_invalid_share_quantity(e, up, abs_of(shares))
            &&& unchanged
        } else if shares < 0 && net == abs_of(shares) {
            &&& r == Ok::<(), StockoError>(())
            &&& c1.portfolio@ == c0.portfolio@.remove(symbol_index(c0.portfolio@, up))
            &&& upserted_with(c0.archive@, c1.archive@, up, st0.exchange, st0.orders@.push(o))
            &&& c1.watchlist@ == c0.watchlist@
        } else {
            &&& r == Ok::<(), StockoError>(())
            &&& if has {
                upserted_with(c0.portfolio@, c1.portfolio@, up, st0.exchange, st0.orders@.push(o))
            } else {
                upserted_with(c0.portfolio@, c1.portfolio@, up, rex->0, seq![o])
            }
            &&& c1.watchlist@ == c0.watchlist@
            &&& c1.archive@ == c0.archive@
        }
    }
}

/// Validates and applies one buy (`shares > 0`) or sell (`shares < 0`)
/// of `shares` shares at `price` cents each against the store.
pub fn process_order(
    collections: &mut StockCollections,
    symbol: &str,
    exchange_symbol: Option<&str>,
    shares: i32,
    price: u32,
) -> (r: Result<(), StockoError>)
    requires
        old(collections).wf(),
        valid_input_symbol(symbol@),
    ensures
        final(collections).wf(),
        process_order_post(
            *old(collections),
            *final(collections),
            upper_seq(symbol@),
            resolved_exchange(exchange_symbol),
            shares,
            price,
            r,
        ),
        old(collections).inv() ==> final(collections).inv(),
{
    let ghost c0 = *collections;
    let exchange = match Exchange::from_symbol(exchange_symbol) {
        Ok(e) => e,
        Err(e) => {
            return Err(e);
        },
    };
    let up = uppercased(symbol);
    proof {
        lemma_upper_symbol_valid(symbol@);
    }
    let order = Order { shares, share_price: price };
    match find_stock(&collections.portfolio, &up) {
        Option::None => {
            if shares <= 0 {
                return Err(
                    StockoError::InvalidShareQuantity { symbol: up, shares: abs_u32(shares) },
                );
            }
            let mut orders: Vec<Order> = Vec::new();
            orders.push(order);
            let st = Stock { symbol: up, exchange, orders };
            proof {
                lemma_wf_push(c0.portfolio@, st);
            }
            collections.portfolio.push(st);
            proof {
                assert(collections.portfolio@.drop_last() =~= c0.portfolio@);
                assert(collections.portfolio@.last().orders@ =~= seq![order]);
                assert forall|i: int|
                    0 <= i < collections.portfolio@.len() && c0.inv() implies sum_shares(
                    (#[trigger] collections.portfolio@[i]).orders@,
                ) > 0 by {
                    if i < c0.portfolio@.len() {
                        assert(collections.portfolio@[i] == c0.portfolio@[i]);
                    } else {
                        assert(collections.portfolio@[i].orders@ =~= seq![order]);
                        assert(seq![order].drop_last() =~= Seq::<Order>::empty());
                        assert(sum_shares(Seq::<Order>::empty()) == 0);
                        assert(seq![order].last() == order);
                        assert(sum_shares(seq![order]) == shares);
                    }
                }
            }
            Ok(())
        },
        Option::Some(i) => {
            let metrics = {
                let st_ref = &collections.portfolio[i];
                st_ref.calculate_order_metrics()
            };
            let net = metrics.total_shares;
            let shares_abs = abs_u32(shares);
            if shares < 0 && net < shares_abs as i128 {
                return Err(StockoError::InvalidShareQuantity { symbol: up, shares: shares_abs });
            }
            let mut st = collections.portfolio.remove(i);
            let ghost st0 = c0.portfolio@[i as int];
            st.orders.push(order);
            proof {
                assert(st.orders@.drop_last() =~= st0.orders@);
                assert(sum_shares(st.orders@) == sum_shares(st0.orders@) + shares);
            }
            if shares < 0 && net == shares_abs as i128 {
                proof {
                    lemma_wf_remove(c0.portfolio@, i as int);
                }
                upsert_stock(&mut collections.archive, st);
                proof {
                    assert forall|j: int|
                        0 <= j < collections.portfolio@.len() && c0.inv() implies sum_shares(
                        (#[trigger] collections.portfolio@[j]).orders@,
                    ) > 0 by {
                        if j < i as int {
                            assert(collections.portfolio@[j] == c0.portfolio@[j]);
                        } else {
                            assert(collections.portfolio@[j] == c0.portfolio@[j + 1]);
                        }
                    }
                    assert forall|j: int|
                        0 <= j < collections.archive@.len() && c0.inv() implies sum_shares(
                        (#[trigger] collections.archive@[j]).orders@,
                    ) == 0 by {
                        if contains_symbol(c0.archive@, st.symbol@) {
                            let k = symbol_index(c0.archive@, st.symbol@);
                            if j != k {
                                assert(collections.archive@[j] == c0.archive@[j]);
                            }
                        } else {
                            if j < c0.archive@.len() {
                                assert(collections.archive@[j] == c0.archive@[j]);
                            }
                        }
                    }
                }
                Ok(())
            } else {
                collections.portfolio.insert(i, st);
                proof {
                    assert(collections.portfolio@ =~= c0.portfolio@.update(i as int, st));
                    lemma_wf_update(c0.portfolio@, i as int, st);
                    assert forall|j: int|
                        0 <= j < collections.portfolio@.len() && c0.inv() implies sum_shares(
                        (#[trigger] collections.portfolio@[j]).orders@,
                    ) > 0 by {
                        if j != i as int {
                            assert(collections.portfolio@[j] == c0.portfolio@[j]);
                        }
                    }
                }
                Ok(())
            }
        },
    }
}

/// Adds a symbol to the watch list (overwriting any previous entry for
/// it), with the venue the exchange code resolves to and an empty order
/// ledger. The caller is expected to have probed the quote provider for
/// the symbol first; a failed probe aborts the command before the store
/// is touched.
pub fn watch(
    collections: &mut StockCollections,
    symbol: &str,
    exchange_symbol: Option<&str>,
) -> (r: Result<(), StockoError>)
    requires
        old(collections).wf(),
        valid_input_symbol(symbol@),
    ensures
        final(collections).wf(),
        ({
            let up = upper_seq(symbol@);
            let c0 = *old(collections);
            let c1 = *final(collections);
            match resolved_exchange(exchange_symbol) {
                Option::None => r == Err::<(), StockoError>(StockoError::InvalidExchange)
                    && c1.portfolio@ == c0.portfolio@ && c1.watchlist@ == c0.watchlist@
                    && c1.archive@ == c0.archive@,
                Option::Some(e) => r == Ok::<(), StockoError>(()) && upserted_with(
                    c0.watchlist@,
                    c1.watchlist@,
                    up,
                    e,
                    Seq::<Order>::empty(),
                ) && c1.portfolio@ == c0.portfolio@ && c1.archive@ == c0.archive@,
            }
        }),
        old(collections).inv() ==> final(collections).inv(),
{
    let ghost c0 = *collections;
    let exchange = match Exchange::from_symbol(exchange_symbol) {
        Ok(e) => e,
        Err(e) => {
            return Err(e);
        },
    };
    let up = uppercased(symbol);
    proof {
        lemma_upper_symbol_valid(symbol@);
    }
    let st = Stock { symbol: up, exchange, orders: Vec::new() };
    upsert_stock(&mut collections.watchlist, st);
    proof {
        assert forall|j: int|
            0 <= j < collections.watchlist@.len() && c0.inv() implies (
        #[trigger] collections.watchlist@[j]).orders@.len() == 0 by {
            if contains_symbol(c0.watchlist@, upper_seq(symbol@)) {
                let k = symbol_index(c0.watchlist@, upper_seq(symbol@));
                if j != k {
                    assert(collections.watchlist@[j] == c0.watchlist@[j]);
                }
            } else {
                if j < c0.watchlist@.len() {
                    assert(collections.watchlist@[j] == c0.watchlist@[j]);
                }
            }
        }
    }
    Ok(())
}

} // verus!
