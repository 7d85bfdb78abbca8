//! The persisted form of the store: a single canonical JSON text, with
//! a verified encoder and decoder.
//!
//! The schema is one object with the three collection names as keys;
//! each collection maps an uppercased symbol to a position object with
//! the fields `symbol`, `exchange` and `orders`; an order holds its
//! signed `shares` and its `share_price` in cents. The encoder emits
//! exactly one text for a store, and the decoder gives that store back
//! from it.

use vstd::prelude::*;
use vstd::arithmetic::div_mod::lemma_fundamental_div_mod;
use vstd::string::StrSliceExecFns;
use vstd::string::StringExecFns;
use crate::errors::StockoError;
use crate::model::{
    Exchange, Order, Stock, StockCollections, distinct_symbols, stock_is, valid_symbol,
    valid_symbol_char, wf_stock, wf_stocks,
};

verus! {

/// A decimal digit character.
pub open spec fn is_digit_char(c: char) -> bool {
    '0' <= c && c <= '9'
}

/// The numeric value of a digit character.
pub open spec fn digit_val(c: char) -> int {
    c as int - 48
}

/// The digit character of a value below ten.
pub open spec fn digit_char(d: nat) -> char {
    ((48 + d) as u32) as char
}

/// The decimal digits of a number, most significant first.
pub open spec fn dec_digits(n: nat) -> Seq<char>
    decreases n,
{
    if n < 10 {
        seq![digit_char(n)]
    } else {
        dec_digits(n / 10).push(digit_char(n % 10))
    }
}

/// The number a digit string denotes.
pub open spec fn digits_val(s: Seq<char>) -> int
    decreases s.len(),
{
    if s.len() == 0 {
        0
    } else {
        digits_val(s.drop_last()) * 10 + digit_val(s.last())
    }
}

/// The encoding of an unsigned number: its decimal digits.
pub open spec fn enc_u32(n: u32) -> Seq<char> {
    dec_digits(n as nat)
}

/// The encoding of a signed number: a minus sign where negative, then
/// the decimal digits of the magnitude.
pub open spec fn enc_i32(x: i32) -> Seq<char> {
    if x >= 0 {
        dec_digits(x as nat)
    } else {
        seq!['-'] + dec_digits((-(x as int)) as nat)
    }
}

/// The encoding of a venue: its name.
pub open spec fn enc_exchange(e: Exchange) -> Seq<char> {
    match e {
        Exchange::TSX => "TSX"@,
        Exchange::TSXV => "TSXV"@,
        Exchange::NYSE => "NYSE"@,
    }
}

/// The encoding of one order.
pub open spec fn enc_order(o: Order) -> Seq<char> {
    "{\"shares\":"@ + enc_i32(o.shares) + ",\"share_price\":"@ + enc_u32(o.share_price) + "}"@
}

/// The encodings of the orders of a ledger, separated by commas.
pub open spec fn enc_order_items(w: Seq<Order>) -> Seq<char>
    decreases w.len(),
{
    if w.len() == 0 {
        Seq::<char>::empty()
    } else if w.len() == 1 {
        enc_order(w[0])
    } else {
        enc_order(w[0]) + ","@ + enc_order_items(w.drop_first())
    }
}

/// The encoding of a whole ledger: a JSON array of its orders.
pub open spec fn enc_orders(w: Seq<Order>) -> Seq<char> {
    "["@ + enc_order_items(w) + "]"@
}

/// The encoding of one position object.
pub open spec fn enc_stock(st: Stock) -> Seq<char> {
    "{\"symbol\":\""@ + st.symbol@ + "\",\"exchange\":\""@ + enc_exchange(st.exchange)
        + "\",\"orders\":"@ + enc_orders(st.orders@) + "}"@
}

/// The encoding of one collection entry: the symbol as key, then the
/// position object.
pub open spec fn enc_entry(st: Stock) -> Seq<char> {
    "\""@ + st.symbol@ + "\":"@ + enc_stock(st)
}

/// The encodings of the entries of a collection, separated by commas.
pub open spec fn enc_entries(v: Seq<Stock>) -> Seq<char>
    decreases v.len(),
{
    if v.len() == 0 {
        Seq::<char>::empty()
    } else if v.len() == 1 {
        enc_entry(v[0])
    } else {
        enc_entry(v[0]) + ","@ + enc_entries(v.drop_first())
    }
}

/// The encoding of one collection: a JSON object of its entries.
pub open spec fn enc_coll(v: Seq<Stock>) -> Seq<char> {
    "{"@ + enc_entries(v) + "}"@
}

/// The encoding of the whole store.
pub open spec fn enc_store(c: StockCollections) -> Seq<char> {
    "{\"portfolio\":"@ + enc_coll(c.portfolio@) + ",\"watchlist\":"@ + enc_coll(c.watchlist@)
        + ",\"archive\":"@ + enc_coll(c.archive@) + "}"@
}

/// The decimal digits of a number are at least one digit character,
/// and denote the number itself.
pub proof fn lemma_dec_digits_props(n: nat)
    ensures
        dec_digits(n).len() >= 1,
        forall|i: int| 0 <= i < dec_digits(n).len() ==> is_digit_char(#[trigger] dec_digits(n)[i]),
        digits_val(dec_digits(n)) == n,
    decreases n,
{
    if n < 10 {
        assert(dec_digits(n) == seq![digit_char(n)]);
        assert(is_digit_char(digit_char(n)));
        assert(dec_digits(n).drop_last() =~= Seq::<char>::empty());
        assert(digits_val(Seq::<char>::empty()) == 0);
        assert(dec_digits(n).last() == digit_char(n));
        assert(digit_char(n) as int == 48 + n);
        assert(digits_val(dec_digits(n)) == digit_val(digit_char(n)));
    } else {
        lemma_dec_digits_props(n / 10);
        let base = dec_digits(n / 10);
        let d = digit_char(n % 10);
        assert(dec_digits(n) == base.push(d));
        assert(base.push(d).drop_last() =~= base);
        assert(base.push(d).last() == d);
        assert(digits_val(dec_digits(n)) == digits_val(base) * 10 + digit_val(d));
        lemma_fundamental_div_mod(n as int, 10);
        assert forall|i: int| 0 <= i < dec_digits(n).len() implies is_digit_char(
            #[trigger] dec_digits(n)[i],
        ) by {
            if i < base.len() {
                assert(dec_digits(n)[i] == base[i]);
            } else {
                assert(dec_digits(n)[i] == d);
            }
        }
    }
}

/// A digit string denotes a value at least zero.
pub proof fn lemma_digits_val_nonneg(s: Seq<char>)
    requires
        forall|i: int| 0 <= i < s.len() ==> is_digit_char(#[trigger] s[i]),
    ensures
        digits_val(s) >= 0,
    decreases s.len(),
{
    if s.len() > 0 {
        assert(forall|i: int|
            0 <= i < s.drop_last().len() ==> is_digit_char(#[trigger] s.drop_last()[i]));
        lemma_digits_val_nonneg(s.drop_last());
    }
}

/// A prefix of a digit string denotes no more than the whole string.
pub proof fn lemma_digits_val_prefix(s: Seq<char>, k: int)
    requires
        forall|i: int| 0 <= i < s.len() ==> is_digit_char(#[trigger] s[i]),
        0 <= k <= s.len(),
    ensures
        digits_val(s.take(k)) <= digits_val(s),
    decreases s.len() - k,
{
    if k == s.len() {
        assert(s.take(k) =~= s);
    } else {
        lemma_digits_val_prefix(s, k + 1);
        assert(s.take(k + 1).drop_last() =~= s.take(k));
        assert(s.take(k + 1).last() == s[k]);
        assert(forall|i: int| 0 <= i < s.take(k).len() ==> is_digit_char(#[trigger] s.take(k)[i]));
        lemma_digits_val_nonneg(s.take(k));
        assert(digits_val(s.take(k + 1)) == digits_val(s.take(k)) * 10 + digit_val(s[k]));
        assert(digit_val(s[k]) >= 0);
    }
}

/// Splitting a concatenation out of the tail of a string: the first
/// part is the next characters, the second the tail after them.
pub proof fn lemma_split_prefix(t: Seq<char>, pos: int, a: Seq<char>, b: Seq<char>)
    requires
        0 <= pos <= t.len(),
        t.skip(pos) == a + b,
    ensures
        pos + a.len() + b.len() == t.len(),
        t.subrange(pos, pos + a.len()) == a,
        t.skip(pos + a.len()) == b,
{
    assert(t.skip(pos).len() == t.len() - pos);
    assert(t.subrange(pos, pos + a.len()) =~= a) by {
        assert forall|i: int| 0 <= i < a.len() implies t.subrange(pos, pos + a.len())[i] == a[i] by {
            assert(t.skip(pos)[i] == (a + b)[i]);
        }
    }
    assert(t.skip(pos + a.len()) =~= b) by {
        assert forall|i: int| 0 <= i < b.len() implies t.skip(pos + a.len())[i] == b[i] by {
            assert(t.skip(pos)[a.len() + i] == (a + b)[a.len() + i]);
            assert(t.skip(pos)[a.len() + i] == t[pos + a.len() + i]);
            assert(t.skip(pos + a.len())[i] == t[pos + a.len() + i]);
        }
    }
}

/// Where the run of digit characters starting at `pos` ends.
pub open spec fn digit_run_end(t: Seq<char>, pos: int) -> int
    decreases t.len() - pos when 0 <= pos <= t.len()
{
    if pos >= t.len() || !is_digit_char(t[pos]) {
        pos
    } else {
        digit_run_end(t, pos + 1)
    }
}

/// The digit run ends exactly at the first position that is the end of
/// the string or holds a non-digit.
pub proof fn lemma_digit_run_is(t: Seq<char>, pos: int, e: int)
    requires
        0 <= pos <= e <= t.len(),
        forall|k: int| pos <= k < e ==> is_digit_char(#[trigger] t[k]),
        e == t.len() || !is_digit_char(t[e]),
    ensures
        digit_run_end(t, pos) == e,
    decreases e - pos,
{
    if pos == e {
    } else {
        assert(is_digit_char(t[pos]));
        lemma_digit_run_is(t, pos + 1, e);
    }
}

/// Where the run of symbol characters starting at `pos` ends.
pub open spec fn sym_run_end(t: Seq<char>, pos: int) -> int
    decreases t.len() - pos when 0 <= pos <= t.len()
{
    if pos >= t.len() || !valid_symbol_char(t[pos]) {
        pos
    } else {
        sym_run_end(t, pos + 1)
    }
}

/// The symbol run ends exactly at the first position that is the end
/// of the string or holds a non-symbol character.
pub proof fn lemma_sym_run_is(t: Seq<char>, pos: int, e: int)
    requires
        0 <= pos <= e <= t.len(),
        forall|k: int| pos <= k < e ==> valid_symbol_char(#[trigger] t[k]),
        e == t.len() || !valid_symbol_char(t[e]),
    ensures
        sym_run_end(t, pos) == e,
    decreases e - pos,
{
    if pos == e {
    } else {
        assert(valid_symbol_char(t[pos]));
        lemma_sym_run_is(t, pos + 1, e);
    }
}

/// The one-character string of a digit value.
fn digit_str(d: u32) -> (r: &'static str)
    requires
        d < 10,
    ensures
        r@ == seq![digit_char(d as nat)],
{
    proof {
        reveal_strlit("0");
        reveal_strlit("1");
        reveal_strlit("2");
        reveal_strlit("3");
        reveal_strlit("4");
        reveal_strlit("5");
        reveal_strlit("6");
        reveal_strlit("7");
        reveal_strlit("8");
        reveal_strlit("9");
    }
    match d {
        0 => "0",
        1 => "1",
        2 => "2",
        3 => "3",
        4 => "4",
        5 => "5",
        6 => "6",
        7 => "7",
        8 => "8",
        _ => "9",
    }
}

/// Appends the decimal digits of a number.
fn push_u32(out: &mut String, n: u32)
    ensures
        final(out)@ == old(out)@ + dec_digits(n as nat),
    decreases n,
{
    if n >= 10 {
        push_u32(out, n / 10);
        out.append(digit_str(n % 10));
        proof {
            assert(out@ =~= old(out)@ + dec_digits((n / 10) as nat).push(
                digit_char((n % 10) as nat),
            ));
            assert(dec_digits(n as nat) == dec_digits((n as nat) / 10).push(
                digit_char((n as nat) % 10),
            ));
            assert((n / 10) as nat == (n as nat) / 10);
            assert((n % 10) as nat == (n as nat) % 10);
        }
    } else {
        out.append(digit_str(n));
        proof {
            assert(out@ =~= old(out)@ + dec_digits(n as nat));
        }
    }
}

/// Appends a signed share count.
fn push_i32(out: &mut String, x: i32)
    ensures
        final(out)@ == old(out)@ + enc_i32(x),
{
    if x >= 0 {
        push_u32(out, x as u32);
    } else {
        proof {
            reveal_strlit("-");
        }
        out.append("-");
        let m: u32 = (-(x as i64)) as u32;
        push_u32(out, m);
        proof {
            assert(m as nat == (-(x as int)) as nat);
            assert("-"@ =~= seq!['-']);
            assert(out@ =~= old(out)@ + (seq!['-'] + dec_digits((-(x as int)) as nat)));
        }
    }
}

/// Appends the name of a venue.
fn push_exchange(out: &mut String, e: Exchange)
    ensures
        final(out)@ == old(out)@ + enc_exchange(e),
{
    match e {
        Exchange::TSX => out.append("TSX"),
        Exchange::TSXV => out.append("TSXV"),
        Exchange::NYSE => out.append("NYSE"),
    }
}

/// Appends the encoding of one order.
fn push_order(out: &mut String, o: Order)
    ensures
        final(out)@ == old(out)@ + enc_order(o),
{
    out.append("{\"shares\":");
    push_i32(out, o.shares);
    out.append(",\"share_price\":");
    push_u32(out, o.share_price);
    out.append("}");
    proof {
        assert(out@ =~= old(out)@ + enc_order(o));
    }
}

/// Appends the comma-separated encodings of the orders from index `i`
/// on.
fn push_order_items(out: &mut String, v: &Vec<Order>, i: usize)
    requires
        i < v@.len(),
    ensures
        final(out)@ == old(out)@ + enc_order_items(v@.skip(i as int)),
    decreases v@.len() - i,
{
    push_order(out, v[i]);
    proof {
        assert(v@.skip(i as int)[0] == v@[i as int]);
    }
    let n = v.len();
    if i < n - 1 {
        out.append(",");
        push_order_items(out, v, i + 1);
        proof {
            assert(v@.skip(i as int).drop_first() =~= v@.skip(i as int + 1));
            assert(out@ =~= old(out)@ + enc_order_items(v@.skip(i as int)));
        }
    } else {
        proof {
            assert(v@.skip(i as int).len() == 1);
            assert(out@ =~= old(out)@ + enc_order_items(v@.skip(i as int)));
        }
    }
}

/// Appends the encoding of a whole ledger.
fn push_orders(out: &mut String, v: &Vec<Order>)
    ensures
        final(out)@ == old(out)@ + enc_orders(v@),
{
    out.append("[");
    if v.len() > 0 {
        push_order_items(out, v, 0);
        proof {
            assert(v@.skip(0) =~= v@);
        }
    }
    out.append("]");
    proof {
        if v@.len() == 0 {
            assert(enc_order_items(v@) == Seq::<char>::empty());
        }
        assert(out@ =~= old(out)@ + enc_orders(v@));
    }
}

/// Appends the encoding of one position object.
fn push_stock(out: &mut String, st: &Stock)
    ensures
        final(out)@ == old(out)@ + enc_stock(*st),
{
    out.append("{\"symbol\":\"");
    out.append(st.symbol.as_str());
    out.append("\",\"exchange\":\"");
    push_exchange(out, st.exchange);
    out.append("\",\"orders\":");
    push_orders(out, &st.orders);
    out.append("}");
    proof {
        assert(out@ =~= old(out)@ + enc_stock(*st));
    }
}

/// Appends the encoding of one collection entry.
fn push_entry(out: &mut String, st: &Stock)
    ensures
        final(out)@ == old(out)@ + enc_entry(*st),
{
    out.append("\"");
    out.append(st.symbol.as_str());
    out.append("\":");
    push_stock(out, st);
    proof {
        assert(out@ =~= old(out)@ + enc_entry(*st));
    }
}

/// Appends the comma-separated encodings of the entries from index `i`
/// on.
fn push_entries(out: &mut String, v: &Vec<Stock>, i: usize)
    requires
        i < v@.len(),
    ensures
        final(out)@ == old(out)@ + enc_entries(v@.skip(i as int)),
    decreases v@.len() - i,
{
    push_entry(out, &v[i]);
    proof {
        assert(v@.skip(i as int)[0] == v@[i as int]);
    }
    let n = v.len();
    if i < n - 1 {
        out.append(",");
        push_entries(out, v, i + 1);
        proof {
            assert(v@.skip(i as int).drop_first() =~= v@.skip(i as int + 1));
            assert(out@ =~= old(out)@ + enc_entries(v@.skip(i as int)));
        }
    } else {
        proof {
            assert(v@.skip(i as int).len() == 1);
            assert(out@ =~= old(out)@ + enc_entries(v@.skip(i as int)));
        }
    }
}

/// Appends the encoding of one collection.
fn push_coll(out: &mut String, v: &Vec<Stock>)
    ensures
        final(out)@ == old(out)@ + enc_coll(v@),
{
    out.append("{");
    if v.len() > 0 {
        push_entries(out, v, 0);
        proof {
            assert(v@.skip(0) =~= v@);
        }
    }
    out.append("}");
    proof {
        if v@.len() == 0 {
            assert(enc_entries(v@) == Seq::<char>::empty());
        }
        assert(out@ =~= old(out)@ + enc_coll(v@));
    }
}

/// Serializes the full store to its persisted text. The caller
/// overwrites the persisted file with exactly this text.
pub fn save_data(collections: &StockCollections) -> (r: String)
    ensures
        r@ == enc_store(*collections),
{
    let mut out = String::new();
    out.append("{\"portfolio\":");
    push_coll(&mut out, &collections.portfolio);
    out.append(",\"watchlist\":");
    push_coll(&mut out, &collections.watchlist);
    out.append(",\"archive\":");
    push_coll(&mut out, &collections.archive);
    out.append("}");
    proof {
        assert(out@ =~= enc_store(*collections));
    }
    out
}

/// Consumes one expected literal: succeeds exactly when the text holds
/// the literal's characters at this position.
fn parse_lit(s: &str, pos: usize, lit: &str) -> (r: Option<usize>)
    requires
        pos <= s@.len(),
    ensures
        r matches Some(p) ==> p == pos + lit@.len() && pos + lit@.len() <= s@.len()
            && s@.subrange(pos as int, pos + lit@.len()) == lit@,
        pos + lit@.len() <= s@.len() && s@.subrange(pos as int, pos + lit@.len()) == lit@
            ==> r is Some,
{
    let l = lit.unicode_len();
    let n = s.unicode_len();
    if l > n - pos {
        proof {
            assert(pos + lit@.len() > s@.len());
        }
        return None;
    }
    let mut j: usize = 0;
    while j < l
        invariant
            0 <= j <= l,
            l == lit@.len(),
            n == s@.len(),
            pos + l <= n,
            forall|k: int| 0 <= k < j ==> s@[pos + k] == lit@[k],
        decreases l - j,
    {
        let cs = s.get_char(pos + j);
        let cl = lit.get_char(j);
        if cs != cl {
            proof {
                assert(s@.subrange(pos as int, pos + lit@.len())[j as int] != lit@[j as int]);
            }
            return None;
        }
        j = j + 1;
    }
    proof {
        assert(s@.subrange(pos as int, pos + lit@.len()) =~= lit@);
    }
    Some(pos + l)
}

/// Parses a run of decimal digits as an unsigned number. On any text
/// that continues with the digits of a number followed by a non-digit,
/// it consumes exactly those digits and returns exactly that number.
fn parse_u32_at(s: &str, pos: usize) -> (r: Option<(u32, usize)>)
    requires
        pos <= s@.len(),
    ensures
        r matches Some(p) ==> pos < p.1 <= s@.len(),
        forall|n: u32, rest: Seq<char>|
            s@.skip(pos as int) == #[trigger] (dec_digits(n as nat) + rest) && (rest.len() == 0
                || !is_digit_char(rest[0])) ==> (r matches Some(p) && p.0 == n && p.1 == pos
                + dec_digits(n as nat).len()),
{
    let len = s.unicode_len();
    if pos == len {
        proof {
            assert forall|n: u32, rest: Seq<char>|
                s@.skip(pos as int) == #[trigger] (dec_digits(n as nat) + rest) implies false by {
                lemma_dec_digits_props(n as nat);
                assert(s@.skip(pos as int).len() == 0);
            }
        }
        return None;
    }
    let c0 = s.get_char(pos) as u32;
    if !(48 <= c0 && c0 <= 57) {
        proof {
            assert forall|n: u32, rest: Seq<char>|
                s@.skip(pos as int) == #[trigger] (dec_digits(n as nat) + rest) implies false by {
                lemma_dec_digits_props(n as nat);
                assert(s@.skip(pos as int)[0] == dec_digits(n as nat)[0]);
                assert(s@.skip(pos as int)[0] == s@[pos as int]);
                assert(is_digit_char(s@[pos as int]));
            }
        }
        return None;
    }
    let mut i: usize = pos;
    let mut v: u32 = 0;
    loop
        invariant
            pos <= i <= len,
            len == s@.len(),
            pos < len,
            is_digit_char(s@[pos as int]),
            forall|k: int| pos <= k < i ==> is_digit_char(#[trigger] s@[k]),
            v == digits_val(s@.subrange(pos as int, i as int)),
        ensures
            pos < i <= len,
            forall|k: int| pos <= k < i ==> is_digit_char(#[trigger] s@[k]),
            v == digits_val(s@.subrange(pos as int, i as int)),
            i == len || !is_digit_char(s@[i as int]),
        decreases len - i,
    {
        if i == len {
            break ;
        }
        let cu = s.get_char(i) as u32;
        if !(48 <= cu && cu <= 57) {
            proof {
                assert(!is_digit_char(s@[i as int]));
                if i == pos {
                    assert(is_digit_char(s@[pos as int]));
                }
            }
            break ;
        }
        let d = cu - 48;
        proof {
            assert(is_digit_char(s@[i as int]));
            assert(digit_val(s@[i as int]) == d);
            lemma_fundamental_div_mod((u32::MAX - d) as int, 10);
        }
        if v > (u32::MAX - d) / 10 {
            // The value would no longer fit: no encoded number can sit
            // here, so nothing is owed.
            proof {
                let scanned = s@.subrange(pos as int, i as int + 1);
                assert(scanned.drop_last() =~= s@.subrange(pos as int, i as int));
                assert(scanned.last() == s@[i as int]);
                assert(digits_val(scanned) == v * 10 + d);
                assert(digits_val(scanned) > u32::MAX);
                assert forall|n: u32, rest: Seq<char>|
                    s@.skip(pos as int) == #[trigger] (dec_digits(n as nat) + rest) && (rest.len()
                        == 0 || !is_digit_char(rest[0])) implies false by {
                    lemma_dec_digits_props(n as nat);
                    lemma_split_prefix(s@, pos as int, dec_digits(n as nat), rest);
                    let e = pos + dec_digits(n as nat).len();
                    assert forall|k: int| pos <= k < e implies is_digit_char(#[trigger] s@[k]) by {
                        assert(s@.subrange(pos as int, e)[k - pos] == dec_digits(n as nat)[k
                            - pos]);
                    }
                    assert(e == s@.len() || !is_digit_char(s@[e])) by {
                        if e < s@.len() {
                            assert(s@.skip(e)[0] == rest[0]);
                            assert(s@[e] == rest[0]);
                        }
                    }
                    assert(i + 1 <= e) by {
                        if e <= i as int {
                            assert(is_digit_char(s@[e]));
                        }
                    }
                    let run = s@.subrange(pos as int, e);
                    assert(forall|k: int| 0 <= k < run.len() ==> is_digit_char(#[trigger] run[k]))
                        by {
                        assert forall|k: int| 0 <= k < run.len() implies is_digit_char(
                            #[trigger] run[k],
                        ) by {
                            assert(run[k] == s@[pos + k]);
                        }
                    }
                    lemma_digits_val_prefix(run, i as int + 1 - pos);
                    assert(run.take(i as int + 1 - pos) =~= scanned);
                    assert(digits_val(run) == digits_val(dec_digits(n as nat)));
                    assert(digits_val(run) <= u32::MAX);
                    assert(digits_val(scanned) <= digits_val(run));
                }
            }
            return None;
        }
        proof {
            let scanned = s@.subrange(pos as int, i as int + 1);
            assert(scanned.drop_last() =~= s@.subrange(pos as int, i as int));
            assert(scanned.last() == s@[i as int]);
            assert(digits_val(scanned) == v * 10 + d);
            assert(v * 10 + d <= u32::MAX);
        }
        v = v * 10 + d;
        i = i + 1;
    }
    proof {
        lemma_digit_run_is(s@, pos as int, i as int);
        assert forall|n: u32, rest: Seq<char>|
            s@.skip(pos as int) == #[trigger] (dec_digits(n as nat) + rest) && (rest.len() == 0
                || !is_digit_char(rest[0])) implies (v == n && i == pos + dec_digits(
            n as nat,
        ).len()) by {
            lemma_dec_digits_props(n as nat);
            lemma_split_prefix(s@, pos as int, dec_digits(n as nat), rest);
            let e = pos + dec_digits(n as nat).len();
            assert forall|k: int| pos <= k < e implies is_digit_char(#[trigger] s@[k]) by {
                assert(s@.subrange(pos as int, e)[k - pos] == dec_digits(n as nat)[k - pos]);
            }
            assert(e == s@.len() || !is_digit_char(s@[e])) by {
                if e < s@.len() {
                    assert(s@.skip(e)[0] == rest[0]);
                    assert(s@[e] == rest[0]);
                }
            }
            lemma_digit_run_is(s@, pos as int, e);
            assert(e == i);
            assert(s@.subrange(pos as int, i as int) == dec_digits(n as nat));
            assert(v == n);
        }
    }
    Some((v, i))
}

/// Parses a signed share count: an optional minus sign, then digits.
/// On any text that continues with an encoded signed number followed
/// by a non-digit, it consumes exactly that encoding and returns
/// exactly that number.
fn parse_i32_at(s: &str, pos: usize) -> (r: Option<(i32, usize)>)
    requires
        pos <= s@.len(),
    ensures
        r matches Some(p) ==> pos < p.1 <= s@.len(),
        forall|x: i32, rest: Seq<char>|
            s@.skip(pos as int) == #[trigger] (enc_i32(x) + rest) && (rest.len() == 0
                || !is_digit_char(rest[0])) ==> (r matches Some(p) && p.0 == x && p.1 == pos
                + enc_i32(x).len()),
{
    let len = s.unicode_len();
    let negative = pos < len && s.get_char(pos) == '-';
    if negative {
        let r0 = parse_u32_at(s, pos + 1);
        match r0 {
            Some((v, e)) => {
                if v <= 2147483648 {
                    let x: i32 = (-(v as i64)) as i32;
                    proof {
                        assert forall|y: i32, rest: Seq<char>|
                            s@.skip(pos as int) == #[trigger] (enc_i32(y) + rest) && (rest.len()
                                == 0 || !is_digit_char(rest[0])) implies (x == y && e == pos
                            + enc_i32(y).len()) by {
                            lemma_split_prefix(s@, pos as int, enc_i32(y), rest);
                            if y >= 0 {
                                lemma_dec_digits_props(y as nat);
                                assert(s@[pos as int] == enc_i32(y)[0]);
                                assert(is_digit_char(s@[pos as int]));
                                assert(s@[pos as int] == '-');
                                assert(false);
                            } else {
                                let m = (-(y as int)) as nat;
                                assert(enc_i32(y) =~= seq!['-'] + dec_digits(m));
                                assert(s@.skip(pos as int) =~= seq!['-'] + (dec_digits(m)
                                    + rest));
                                lemma_split_prefix(
                                    s@,
                                    pos as int,
                                    seq!['-'],
                                    dec_digits(m) + rest,
                                );
                                assert(s@.skip(pos as int + 1) == dec_digits(m) + rest);
                                assert(m <= 0x8000_0000);
                                let mu: u32 = m as u32;
                                assert(dec_digits(mu as nat) == dec_digits(m));
                                assert(r0 matches Some(q) && q.0 == mu && q.1 == pos + 1
                                    + dec_digits(mu as nat).len());
                                assert(v == mu);
                                assert(x == y);
                                assert(e == pos + enc_i32(y).len());
                            }
                        }
                    }
                    Some((x, e))
                } else {
                    proof {
                        assert forall|y: i32, rest: Seq<char>|
                            s@.skip(pos as int) == #[trigger] (enc_i32(y) + rest) && (rest.len()
                                == 0 || !is_digit_char(rest[0])) implies false by {
                            lemma_split_prefix(s@, pos as int, enc_i32(y), rest);
                            if y >= 0 {
                                lemma_dec_digits_props(y as nat);
                                assert(s@[pos as int] == enc_i32(y)[0]);
                                assert(is_digit_char(s@[pos as int]));
                                assert(s@[pos as int] == '-');
                            } else {
                                let m = (-(y as int)) as nat;
                                assert(enc_i32(y) =~= seq!['-'] + dec_digits(m));
                                assert(s@.skip(pos as int) =~= seq!['-'] + (dec_digits(m)
                                    + rest));
                                lemma_split_prefix(
                                    s@,
                                    pos as int,
                                    seq!['-'],
                                    dec_digits(m) + rest,
                                );
                                assert(m <= 0x8000_0000);
                                let mu: u32 = m as u32;
                                assert(dec_digits(mu as nat) == dec_digits(m));
                                assert(r0 matches Some(q) && q.0 == mu && q.1 == pos + 1
                                    + dec_digits(mu as nat).len());
                                assert(v == mu);
                                assert(v <= 2147483648);
                            }
                        }
                    }
                    None
                }
            },
            None => {
                proof {
                    assert forall|y: i32, rest: Seq<char>|
                        s@.skip(pos as int) == #[trigger] (enc_i32(y) + rest) && (rest.len() == 0
                            || !is_digit_char(rest[0])) implies false by {
                        lemma_split_prefix(s@, pos as int, enc_i32(y), rest);
                        if y >= 0 {
                            lemma_dec_digits_props(y as nat);
                            assert(s@[pos as int] == enc_i32(y)[0]);
                            assert(is_digit_char(s@[pos as int]));
                            assert(s@[pos as int] == '-');
                        } else {
                            let m = (-(y as int)) as nat;
                            assert(enc_i32(y) =~= seq!['-'] + dec_digits(m));
                            assert(s@.skip(pos as int) =~= seq!['-'] + (dec_digits(m) + rest));
                            lemma_split_prefix(s@, pos as int, seq!['-'], dec_digits(m) + rest);
                            let mu: u32 = m as u32;
                            assert(dec_digits(mu as nat) == dec_digits(m));
                            assert(r0 matches Some(q) && q.0 == mu && q.1 == pos + 1
                                + dec_digits(mu as nat).len());
                        }
                    }
                }
                None
            },
        }
    } else {
        let r0 = parse_u32_at(s, pos);
        match r0 {
            Some((v, e)) => {
                if v <= 2147483647 {
                    proof {
                        assert forall|y: i32, rest: Seq<char>|
                            s@.skip(pos as int) == #[trigger] (enc_i32(y) + rest) && (rest.len()
                                == 0 || !is_digit_char(rest[0])) implies (v as i32 == y && e
                            == pos + enc_i32(y).len()) by {
                            lemma_split_prefix(s@, pos as int, enc_i32(y), rest);
                            if y < 0 {
                                assert(enc_i32(y)[0] == '-');
                                assert(s@[pos as int] == '-');
                                assert(pos < s@.len());
                                assert(false);
                            } else {
                                let yu: u32 = y as u32;
                                assert(dec_digits(yu as nat) == dec_digits(y as nat));
                                assert(s@.skip(pos as int) == dec_digits(yu as nat) + rest);
                                assert(r0 matches Some(q) && q.0 == yu && q.1 == pos + dec_digits(
                                    yu as nat,
                                ).len());
                                assert(v == yu);
                            }
                        }
                    }
                    Some((v as i32, e))
                } else {
                    proof {
                        assert forall|y: i32, rest: Seq<char>|
                            s@.skip(pos as int) == #[trigger] (enc_i32(y) + rest) && (rest.len()
                                == 0 || !is_digit_char(rest[0])) implies false by {
                            lemma_split_prefix(s@, pos as int, enc_i32(y), rest);
                            if y < 0 {
                                assert(enc_i32(y)[0] == '-');
                                assert(s@[pos as int] == '-');
                            } else {
                                let yu: u32 = y as u32;
                                assert(dec_digits(yu as nat) == dec_digits(y as nat));
                                assert(s@.skip(pos as int) == dec_digits(yu as nat) + rest);
                                assert(r0 matches Some(q) && q.0 == yu && q.1 == pos + dec_digits(
                                    yu as nat,
                                ).len());
                                assert(v == yu);
                                assert(v <= 2147483647);
                            }
                        }
                    }
                    None
                }
            },
            None => {
                proof {
                    assert forall|y: i32, rest: Seq<char>|
                        s@.skip(pos as int) == #[trigger] (enc_i32(y) + rest) && (rest.len() == 0
                            || !is_digit_char(rest[0])) implies false by {
                        lemma_split_prefix(s@, pos as int, enc_i32(y), rest);
                        if y < 0 {
                            assert(enc_i32(y)[0] == '-');
                            assert(s@[pos as int] == '-');
                        } else {
                            let yu: u32 = y as u32;
                            assert(dec_digits(yu as nat) == dec_digits(y as nat));
                            assert(s@.skip(pos as int) == dec_digits(yu as nat) + rest);
                            assert(r0 matches Some(q) && q.0 == yu && q.1 == pos + dec_digits(
                                yu as nat,
                            ).len());
                        }
                    }
                }
                None
            },
        }
    }
}

/// Parses a run of symbol characters into the symbol it spells.
fn parse_symbol_at(s: &str, pos: usize) -> (r: Option<(String, usize)>)
    requires
        pos <= s@.len(),
    ensures
        r matches Some(p) ==> pos < p.1 <= s@.len(),
        ({
            let e = sym_run_end(s@, pos as int);
            &&& (e == pos ==> r is None)
            &&& (e > pos ==> (r matches Some(p) && p.1 == e && p.0@ == s@.subrange(pos as int, e)))
        }),
{
    let len = s.unicode_len();
    let mut i: usize = pos;
    loop
        invariant
            pos <= i <= len,
            len == s@.len(),
            forall|k: int| pos <= k < i ==> valid_symbol_char(#[trigger] s@[k]),
        ensures
            pos <= i <= len,
            forall|k: int| pos <= k < i ==> valid_symbol_char(#[trigger] s@[k]),
            i == len || !valid_symbol_char(s@[i as int]),
        decreases len - i,
    {
        if i == len {
            break ;
        }
        let cu = s.get_char(i) as u32;
        let ok = (65 <= cu && cu <= 90) || (48 <= cu && cu <= 57) || cu == 46 || cu == 45;
        if !ok {
            proof {
                assert(!valid_symbol_char(s@[i as int]));
            }
            break ;
        }
        i = i + 1;
    }
    proof {
        lemma_sym_run_is(s@, pos as int, i as int);
    }
    if i == pos {
        None
    } else {
        let sub = s.substring_char(pos, i);
        let sym = String::from_str(sub);
        Some((sym, i))
    }
}

/// One collection reads like another: the same length, and at each
/// index a position with the same symbol text, venue and ledger.
pub open spec fn stocks_like(a: Seq<Stock>, b: Seq<Stock>) -> bool {
    &&& a.len() == b.len()
    &&& forall|i: int|
        0 <= i < b.len() ==> stock_is(
            #[trigger] a[i],
            b[i].symbol@,
            b[i].exchange,
            b[i].orders@,
        )
}

/// The encoded items of a non-empty ledger start with an opening
/// brace.
proof fn lemma_enc_order_items_first(w: Seq<Order>)
    requires
        w.len() >= 1,
    ensures
        enc_order_items(w).len() >= 1,
        enc_order_items(w)[0] == '{',
{
    reveal_strlit("{\"shares\":");
    assert(enc_order(w[0])[0] == '{');
    if w.len() == 1 {
    } else {
        assert(enc_order_items(w)[0] == enc_order(w[0])[0]);
    }
}

/// The encoded entries of a non-empty collection start with a quote.
proof fn lemma_enc_entries_first(v: Seq<Stock>)
    requires
        v.len() >= 1,
    ensures
        enc_entries(v).len() >= 1,
        enc_entries(v)[0] == '"',
{
    reveal_strlit("\"");
    assert(enc_entry(v[0])[0] == '"');
    if v.len() == 1 {
    } else {
        assert(enc_entries(v)[0] == enc_entry(v[0])[0]);
    }
}

/// How the text decomposes after `pos` when an encoded order sits
/// there.
proof fn lemma_order_decomp(t: Seq<char>, pos: int, o: Order, rest: Seq<char>)
    requires
        0 <= pos <= t.len(),
        t.skip(pos) == enc_order(o) + rest,
    ensures
        ({
            let l1 = "{\"shares\":"@;
            let l2 = ",\"share_price\":"@;
            let l3 = "}"@;
            let p1 = pos + l1.len();
            let p2 = p1 + enc_i32(o.shares).len();
            let p3 = p2 + l2.len();
            let p4 = p3 + enc_u32(o.share_price).len();
            let p5 = p4 + l3.len();
            &&& p5 <= t.len()
            &&& enc_order(o).len() == l1.len() + enc_i32(o.shares).len() + l2.len() + enc_u32(
                o.share_price,
            ).len() + l3.len()
            &&& t.subrange(pos, p1) == l1
            &&& t.skip(p1) == enc_i32(o.shares) + (l2 + (enc_u32(o.share_price) + (l3 + rest)))
            &&& t.subrange(p2, p3) == l2
            &&& t.skip(p3) == enc_u32(o.share_price) + (l3 + rest)
            &&& t.subrange(p4, p5) == l3
            &&& t.skip(p5) == rest
        }),
{
    let l1 = "{\"shares\":"@;
    let l2 = ",\"share_price\":"@;
    let l3 = "}"@;
    let p1 = pos + l1.len();
    let p2 = p1 + enc_i32(o.shares).len();
    let p3 = p2 + l2.len();
    let p4 = p3 + enc_u32(o.share_price).len();
    let p5 = p4 + l3.len();
    assert(t.skip(pos) =~= l1 + (enc_i32(o.shares) + (l2 + (enc_u32(o.share_price) + (l3
        + rest)))));
    lemma_split_prefix(t, pos, l1, enc_i32(o.shares) + (l2 + (enc_u32(o.share_price) + (l3
        + rest))));
    lemma_split_prefix(t, p1, enc_i32(o.shares), l2 + (enc_u32(o.share_price) + (l3 + rest)));
    lemma_split_prefix(t, p2, l2, enc_u32(o.share_price) + (l3 + rest));
    lemma_split_prefix(t, p3, enc_u32(o.share_price), l3 + rest);
    lemma_split_prefix(t, p4, l3, rest);
}

/// Parses one order object. On any text that continues with an encoded
/// order, it consumes exactly that encoding and returns exactly that
/// order.
fn parse_order_at(s: &str, pos: usize) -> (r: Option<(Order, usize)>)
    requires
        pos <= s@.len(),
    ensures
        r matches Some(p) ==> pos < p.1 <= s@.len(),
        forall|o: Order, rest: Seq<char>|
            s@.skip(pos as int) == #[trigger] (enc_order(o) + rest) ==> (r matches Some(p) && p.0
                == o && p.1 == pos + enc_order(o).len()),
{
    proof {
        reveal_strlit("{\"shares\":");
        reveal_strlit(",\"share_price\":");
        reveal_strlit("}");
        reveal_strlit(",");
    }
    let p1 = match parse_lit(s, pos, "{\"shares\":") {
        Some(p) => p,
        None => {
            proof {
                assert forall|o: Order, rest: Seq<char>|
                    s@.skip(pos as int) == #[trigger] (enc_order(o) + rest) implies false by {
                    lemma_order_decomp(s@, pos as int, o, rest);
                }
            }
            return None;
        },
    };
    let (shares, p2) = match parse_i32_at(s, p1) {
        Some(p) => p,
        None => {
            proof {
                assert forall|o: Order, rest: Seq<char>|
                    s@.skip(pos as int) == #[trigger] (enc_order(o) + rest) implies false by {
                    lemma_order_decomp(s@, pos as int, o, rest);
                    let l1 = "{\"shares\":"@;
                    let l2 = ",\"share_price\":"@;
                    let tail = l2 + (enc_u32(o.share_price) + ("}"@ + rest));
                    assert(pos + l1.len() <= s@.len());
                    assert(p1 as int == pos + l1.len());
                    assert(s@.skip(pos + l1.len()) == enc_i32(o.shares) + tail);
                    assert(s@.skip(p1 as int) == enc_i32(o.shares) + tail);
                    assert(tail[0] == ',');
                    assert(!is_digit_char(tail[0]));
                }
            }
            return None;
        },
    };
    let p3 = match parse_lit(s, p2, ",\"share_price\":") {
        Some(p) => p,
        None => {
            proof {
                assert forall|o: Order, rest: Seq<char>|
                    s@.skip(pos as int) == #[trigger] (enc_order(o) + rest) implies false by {
                    lemma_order_decomp(s@, pos as int, o, rest);
                    let l2 = ",\"share_price\":"@;
                    let tail = l2 + (enc_u32(o.share_price) + ("}"@ + rest));
                    assert(s@.skip(p1 as int) == enc_i32(o.shares) + tail);
                    assert(tail[0] == ',');
                    assert(!is_digit_char(tail[0]));
                    assert(p2 == p1 + enc_i32(o.shares).len());
                }
            }
            return None;
        },
    };
    let (price, p4) = match parse_u32_at(s, p3) {
        Some(p) => p,
        None => {
            proof {
                assert forall|o: Order, rest: Seq<char>|
                    s@.skip(pos as int) == #[trigger] (enc_order(o) + rest) implies false by {
                    lemma_order_decomp(s@, pos as int, o, rest);
                    let l2 = ",\"share_price\":"@;
                    let tail = l2 + (enc_u32(o.share_price) + ("}"@ + rest));
                    assert(s@.skip(p1 as int) == enc_i32(o.shares) + tail);
                    assert(tail[0] == ',');
                    assert(!is_digit_char(tail[0]));
                    assert(p2 == p1 + enc_i32(o.shares).len());
                    assert(p3 == p2 + l2.len());
                    let tail2 = "}"@ + rest;
                    assert(s@.skip(p3 as int) == enc_u32(o.share_price) + tail2);
                    assert(tail2[0] == '}');
                    assert(!is_digit_char(tail2[0]));
                }
            }
            return None;
        },
    };
    let p5 = match parse_lit(s, p4, "}") {
        Some(p) => p,
        None => {
            proof {
                assert forall|o: Order, rest: Seq<char>|
                    s@.skip(pos as int) == #[trigger] (enc_order(o) + rest) implies false by {
                    lemma_order_decomp(s@, pos as int, o, rest);
                    let l2 = ",\"share_price\":"@;
                    let tail = l2 + (enc_u32(o.share_price) + ("}"@ + rest));
                    assert(s@.skip(p1 as int) == enc_i32(o.shares) + tail);
                    assert(tail[0] == ',');
                    assert(!is_digit_char(tail[0]));
                    assert(p2 == p1 + enc_i32(o.shares).len());
                    assert(p3 == p2 + l2.len());
                    let tail2 = "}"@ + rest;
                    assert(s@.skip(p3 as int) == enc_u32(o.share_price) + tail2);
                    assert(tail2[0] == '}');
                    assert(!is_digit_char(tail2[0]));
                    assert(p4 == p3 + enc_u32(o.share_price).len());
                }
            }
            return None;
        },
    };
    proof {
        assert forall|o: Order, rest: Seq<char>|
            s@.skip(pos as int) == #[trigger] (enc_order(o) + rest) implies (Order {
            shares,
            share_price: price,
        } == o && p5 == pos + enc_order(o).len()) by {
            lemma_order_decomp(s@, pos as int, o, rest);
            let l2 = ",\"share_price\":"@;
            let tail = l2 + (enc_u32(o.share_price) + ("}"@ + rest));
            assert(s@.skip(p1 as int) == enc_i32(o.shares) + tail);
            assert(tail[0] == ',');
            assert(!is_digit_char(tail[0]));
            assert(shares == o.shares);
            assert(p2 == p1 + enc_i32(o.shares).len());
            assert(p3 == p2 + l2.len());
            let tail2 = "}"@ + rest;
            assert(s@.skip(p3 as int) == enc_u32(o.share_price) + tail2);
            assert(tail2[0] == '}');
            assert(!is_digit_char(tail2[0]));
            assert(price == o.share_price);
            assert(p4 == p3 + enc_u32(o.share_price).len());
            assert(p5 == pos + enc_order(o).len());
        }
    }
    Some((Order { shares, share_price: price }, p5))
}

/// Parses the comma-separated orders of a non-empty ledger.
fn parse_order_items_at(s: &str, pos: usize) -> (r: Option<(Vec<Order>, usize)>)
    requires
        pos <= s@.len(),
    ensures
        r matches Some(p) ==> pos < p.1 <= s@.len(),
        forall|w: Seq<Order>, rest: Seq<char>|
            w.len() >= 1 && s@.skip(pos as int) == #[trigger] (enc_order_items(w) + rest) && (
            rest.len() == 0 || rest[0] != ',') ==> (r matches Some(p) && p.0@ == w && p.1 == pos
                + enc_order_items(w).len()),
    decreases s@.len() - pos,
{
    let (o, p1) = match parse_order_at(s, pos) {
        Some(p) => p,
        None => {
            proof {
                assert forall|w: Seq<Order>, rest: Seq<char>|
                    w.len() >= 1 && s@.skip(pos as int) == #[trigger] (enc_order_items(w) + rest)
                        && (rest.len() == 0 || rest[0] != ',') implies false by {
                    if w.len() == 1 {
                        assert(s@.skip(pos as int) == enc_order(w[0]) + rest);
                    } else {
                        assert(s@.skip(pos as int) =~= enc_order(w[0]) + (","@ + (enc_order_items(
                            w.drop_first(),
                        ) + rest)));
                    }
                }
            }
            return None;
        },
    };
    let len = s.unicode_len();
    if p1 < len && s.get_char(p1) == ',' {
        let inner = parse_order_items_at(s, p1 + 1);
        match inner {
            Some((mut items, p2)) => {
                items.insert(0, o);
                proof {
                    assert forall|w: Seq<Order>, rest: Seq<char>|
                        w.len() >= 1 && s@.skip(pos as int) == #[trigger] (enc_order_items(w)
                            + rest) && (rest.len() == 0 || rest[0] != ',') implies (Some((
                        items,
                        p2,
                    )) matches Some(p) && p.0@ == w && p.1 == pos + enc_order_items(w).len()) by {
                        if w.len() == 1 {
                            assert(s@.skip(pos as int) == enc_order(w[0]) + rest);
                            assert(p1 == pos + enc_order(w[0]).len());
                            lemma_split_prefix(s@, pos as int, enc_order(w[0]), rest);
                            assert(s@.skip(p1 as int) == rest);
                            assert(rest[0] == s@[p1 as int]);
                            assert(false);
                        } else {
                            let tail = ","@ + (enc_order_items(w.drop_first()) + rest);
                            assert(s@.skip(pos as int) =~= enc_order(w[0]) + tail);
                            assert(p1 == pos + enc_order(w[0]).len());
                            assert(o == w[0]);
                            lemma_split_prefix(s@, pos as int, enc_order(w[0]), tail);
                            assert(s@.skip(p1 as int) == tail);
                            reveal_strlit(",");
                            lemma_split_prefix(
                                s@,
                                p1 as int,
                                ","@,
                                enc_order_items(w.drop_first()) + rest,
                            );
                            assert(s@.skip(p1 as int + 1) == enc_order_items(w.drop_first())
                                + rest);
                            assert(w.drop_first().len() >= 1);
                            assert(items@ == w.drop_first().insert(0, w[0]));
                            assert(w.drop_first().insert(0, w[0]) =~= w);
                            assert(p2 == p1 + 1 + enc_order_items(w.drop_first()).len());
                        }
                    }
                }
                Some((items, p2))
            },
            None => {
                proof {
                    assert forall|w: Seq<Order>, rest: Seq<char>|
                        w.len() >= 1 && s@.skip(pos as int) == #[trigger] (enc_order_items(w)
                            + rest) && (rest.len() == 0 || rest[0] != ',') implies false by {
                        if w.len() == 1 {
                            assert(s@.skip(pos as int) == enc_order(w[0]) + rest);
                            assert(p1 == pos + enc_order(w[0]).len());
                            lemma_split_prefix(s@, pos as int, enc_order(w[0]), rest);
                            assert(rest[0] == s@[p1 as int]);
                        } else {
                            let tail = ","@ + (enc_order_items(w.drop_first()) + rest);
                            assert(s@.skip(pos as int) =~= enc_order(w[0]) + tail);
                            assert(p1 == pos + enc_order(w[0]).len());
                            lemma_split_prefix(s@, pos as int, enc_order(w[0]), tail);
                            reveal_strlit(",");
                            lemma_split_prefix(
                                s@,
                                p1 as int,
                                ","@,
                                enc_order_items(w.drop_first()) + rest,
                            );
                            assert(s@.skip(p1 as int + 1) == enc_order_items(w.drop_first())
                                + rest);
                            assert(w.drop_first().len() >= 1);
                        }
                    }
                }
                None
            },
        }
    } else {
        let mut items: Vec<Order> = Vec::new();
        items.push(o);
        proof {
            assert forall|w: Seq<Order>, rest: Seq<char>|
                w.len() >= 1 && s@.skip(pos as int) == #[trigger] (enc_order_items(w) + rest) && (
            rest.len() == 0 || rest[0] != ',') implies (Some((items, p1)) matches Some(p) && p.0@
                == w && p.1 == pos + enc_order_items(w).len()) by {
                if w.len() == 1 {
                    assert(s@.skip(pos as int) == enc_order(w[0]) + rest);
                    assert(o == w[0]);
                    assert(items@ =~= w);
                    assert(p1 == pos + enc_order_items(w).len());
                } else {
                    let tail = ","@ + (enc_order_items(w.drop_first()) + rest);
                    assert(s@.skip(pos as int) =~= enc_order(w[0]) + tail);
                    assert(p1 == pos + enc_order(w[0]).len());
                    lemma_split_prefix(s@, pos as int, enc_order(w[0]), tail);
                    assert(s@.skip(p1 as int) == tail);
                    reveal_strlit(",");
                    assert(tail[0] == ',');
                    assert(s@[p1 as int] == ',');
                    assert(p1 < s@.len());
                    assert(false);
                }
            }
        }
        Some((items, p1))
    }
}

/// Parses a whole ledger array.
fn parse_orders_at(s: &str, pos: usize) -> (r: Option<(Vec<Order>, usize)>)
    requires
        pos <= s@.len(),
    ensures
        r matches Some(p) ==> pos < p.1 <= s@.len(),
        forall|w: Seq<Order>, rest: Seq<char>|
            s@.skip(pos as int) == #[trigger] (enc_orders(w) + rest) ==> (r matches Some(p) && p.0@
                == w && p.1 == pos + enc_orders(w).len()),
{
    proof {
        reveal_strlit("[");
        reveal_strlit("]");
    }
    let p1 = match parse_lit(s, pos, "[") {
        Some(p) => p,
        None => {
            proof {
                assert forall|w: Seq<Order>, rest: Seq<char>|
                    s@.skip(pos as int) == #[trigger] (enc_orders(w) + rest) implies false by {
                    assert(s@.skip(pos as int) =~= "["@ + (enc_order_items(w) + ("]"@ + rest)));
                    lemma_split_prefix(s@, pos as int, "["@, enc_order_items(w) + ("]"@ + rest));
                }
            }
            return None;
        },
    };
    match parse_lit(s, p1, "]") {
        Some(p2) => {
            let items: Vec<Order> = Vec::new();
            proof {
                assert forall|w: Seq<Order>, rest: Seq<char>|
                    s@.skip(pos as int) == #[trigger] (enc_orders(w) + rest) implies (Some((
                    items,
                    p2,
                )) matches Some(p) && p.0@ == w && p.1 == pos + enc_orders(w).len()) by {
                    assert(s@.skip(pos as int) =~= "["@ + (enc_order_items(w) + ("]"@ + rest)));
                    lemma_split_prefix(s@, pos as int, "["@, enc_order_items(w) + ("]"@ + rest));
                    assert(s@.skip(p1 as int) == enc_order_items(w) + ("]"@ + rest));
                    if w.len() >= 1 {
                        lemma_enc_order_items_first(w);
                        assert(s@.skip(p1 as int)[0] == (enc_order_items(w) + ("]"@ + rest))[0]);
                        assert((enc_order_items(w) + ("]"@ + rest))[0] == enc_order_items(w)[0]);
                        assert(s@.skip(p1 as int)[0] == s@[p1 as int]);
                        assert(s@[p1 as int] == '{');
                        assert(s@.subrange(p1 as int, p1 as int + 1) == "]"@);
                        assert(s@.subrange(p1 as int, p1 as int + 1)[0] == ']');
                        assert(false);
                    }
                    assert(enc_order_items(w) =~= Seq::<char>::empty());
                    assert(items@ =~= w);
                    assert(s@.skip(p1 as int) =~= "]"@ + rest);
                    lemma_split_prefix(s@, p1 as int, "]"@, rest);
                    assert(p2 == pos + enc_orders(w).len());
                }
            }
            Some((items, p2))
        },
        None => {
            let (items, p3) = match parse_order_items_at(s, p1) {
                Some(p) => p,
                None => {
                    proof {
                        assert forall|w: Seq<Order>, rest: Seq<char>|
                            s@.skip(pos as int) == #[trigger] (enc_orders(w) + rest) implies false
                            by {
                            assert(s@.skip(pos as int) =~= "["@ + (enc_order_items(w) + ("]"@
                                + rest)));
                            lemma_split_prefix(
                                s@,
                                pos as int,
                                "["@,
                                enc_order_items(w) + ("]"@ + rest),
                            );
                            assert(s@.skip(p1 as int) == enc_order_items(w) + ("]"@ + rest));
                            if w.len() == 0 {
                                assert(s@.skip(p1 as int) =~= "]"@ + rest);
                                lemma_split_prefix(s@, p1 as int, "]"@, rest);
                                assert(false);
                            }
                            assert(s@.skip(p1 as int) =~= enc_order_items(w) + ("]"@ + rest));
                            assert(("]"@ + rest)[0] == ']');
                        }
                    }
                    return None;
                },
            };
            let p4 = match parse_lit(s, p3, "]") {
                Some(p) => p,
                None => {
                    proof {
                        assert forall|w: Seq<Order>, rest: Seq<char>|
                            s@.skip(pos as int) == #[trigger] (enc_orders(w) + rest) implies false
                            by {
                            assert(s@.skip(pos as int) =~= "["@ + (enc_order_items(w) + ("]"@
                                + rest)));
                            lemma_split_prefix(
                                s@,
                                pos as int,
                                "["@,
                                enc_order_items(w) + ("]"@ + rest),
                            );
                            assert(s@.skip(p1 as int) == enc_order_items(w) + ("]"@ + rest));
                            if w.len() == 0 {
                                assert(s@.skip(p1 as int) =~= "]"@ + rest);
                                lemma_split_prefix(s@, p1 as int, "]"@, rest);
                                assert(false);
                            }
                            assert(("]"@ + rest)[0] == ']');
                            assert(p3 == p1 + enc_order_items(w).len());
                            lemma_split_prefix(s@, p1 as int, enc_order_items(w), "]"@ + rest);
                            assert(s@.skip(p3 as int) == "]"@ + rest);
                            lemma_split_prefix(s@, p3 as int, "]"@, rest);
                        }
                    }
                    return None;
                },
            };
            proof {
                assert forall|w: Seq<Order>, rest: Seq<char>|
                    s@.skip(pos as int) == #[trigger] (enc_orders(w) + rest) implies (Some((
                    items,
                    p4,
                )) matches Some(p) && p.0@ == w && p.1 == pos + enc_orders(w).len()) by {
                    assert(s@.skip(pos as int) =~= "["@ + (enc_order_items(w) + ("]"@ + rest)));
                    lemma_split_prefix(s@, pos as int, "["@, enc_order_items(w) + ("]"@ + rest));
                    assert(s@.skip(p1 as int) == enc_order_items(w) + ("]"@ + rest));
                    if w.len() == 0 {
                        assert(s@.skip(p1 as int) =~= "]"@ + rest);
                        lemma_split_prefix(s@, p1 as int, "]"@, rest);
                        assert(false);
                    }
                    assert(("]"@ + rest)[0] == ']');
                    assert(items@ == w);
                    assert(p3 == p1 + enc_order_items(w).len());
                    lemma_split_prefix(s@, p1 as int, enc_order_items(w), "]"@ + rest);
                    assert(s@.skip(p3 as int) == "]"@ + rest);
                    lemma_split_prefix(s@, p3 as int, "]"@, rest);
                    assert(p4 == pos + enc_orders(w).len());
                }
            }
            Some((items, p4))
        },
    }
}

/// Parses one of the three venue names followed by its closing quote.
fn parse_exchange_at(s: &str, pos: usize) -> (r: Option<(Exchange, usize)>)
    requires
        pos <= s@.len(),
    ensures
        r matches Some(p) ==> pos <= p.1 <= s@.len(),
        forall|e: Exchange, rest: Seq<char>|
            s@.skip(pos as int) == #[trigger] (enc_exchange(e) + rest) && (rest.len() == 0
                || rest[0] != 'V') ==> (r matches Some(p) && p.0 == e && p.1 == pos
                + enc_exchange(e).len()),
{
    proof {
        reveal_strlit("TSX");
        reveal_strlit("TSXV");
        reveal_strlit("NYSE");
    }
    let r1 = parse_lit(s, pos, "TSXV");
    match r1 {
        Some(p) => {
            proof {
                assert forall|e: Exchange, rest: Seq<char>|
                    s@.skip(pos as int) == #[trigger] (enc_exchange(e) + rest) && (rest.len() == 0
                        || rest[0] != 'V') implies (Exchange::TSXV == e && p == pos
                    + enc_exchange(e).len()) by {
                    lemma_split_prefix(s@, pos as int, enc_exchange(e), rest);
                    assert(s@.subrange(pos as int, pos + 4) == "TSXV"@);
                    match e {
                        Exchange::TSX => {
                            assert(s@.subrange(pos as int, pos + 3) == "TSX"@);
                            assert(s@.skip(pos + 3) == rest);
                            assert(s@[pos + 3] == 'V') by {
                                assert(s@.subrange(pos as int, pos + 4)[3] == 'V');
                            }
                            assert(rest[0] == s@[pos + 3]);
                            assert(false);
                        },
                        Exchange::TSXV => {},
                        Exchange::NYSE => {
                            assert(s@.subrange(pos as int, pos + 4)[0] == 'T');
                            assert(s@.subrange(pos as int, pos + 4)[0] == s@[pos as int]);
                            assert(enc_exchange(e)[0] == 'N');
                            assert(s@[pos as int] == 'N');
                            assert(false);
                        },
                    }
                }
            }
            Some((Exchange::TSXV, p))
        },
        None => {
            let r2 = parse_lit(s, pos, "TSX");
            match r2 {
                Some(p) => {
                    proof {
                        assert forall|e: Exchange, rest: Seq<char>|
                            s@.skip(pos as int) == #[trigger] (enc_exchange(e) + rest) && (
                        rest.len() == 0 || rest[0] != 'V') implies (Exchange::TSX == e && p
                            == pos + enc_exchange(e).len()) by {
                            lemma_split_prefix(s@, pos as int, enc_exchange(e), rest);
                            assert(s@.subrange(pos as int, pos + 3) == "TSX"@);
                            match e {
                                Exchange::TSX => {},
                                Exchange::TSXV => {
                                    assert(s@.subrange(pos as int, pos + 4) == "TSXV"@);
                                    assert(pos + 4 <= s@.len());
                                    assert(r1 == Some((pos + 4) as usize));
                                    assert(false);
                                },
                                Exchange::NYSE => {
                                    assert(enc_exchange(e)[0] == 'N');
                                    assert(s@.subrange(pos as int, pos + 3)[0] == s@[pos as int]);
                                    assert(s@[pos as int] == 'N');
                                    assert(s@[pos as int] == 'T');
                                    assert(false);
                                },
                            }
                        }
                    }
                    Some((Exchange::TSX, p))
                },
                None => {
                    let r3 = parse_lit(s, pos, "NYSE");
                    match r3 {
                        Some(p) => {
                            proof {
                                assert forall|e: Exchange, rest: Seq<char>|
                                    s@.skip(pos as int) == #[trigger] (enc_exchange(e) + rest) && (
                                rest.len() == 0 || rest[0] != 'V') implies (Exchange::NYSE == e
                                    && p == pos + enc_exchange(e).len()) by {
                                    lemma_split_prefix(s@, pos as int, enc_exchange(e), rest);
                                    match e {
                                        Exchange::TSX => {
                                            assert(s@.subrange(pos as int, pos + 3) == "TSX"@);
                                            assert(r2 is Some);
                                            assert(false);
                                        },
                                        Exchange::TSXV => {
                                            assert(s@.subrange(pos as int, pos + 4) == "TSXV"@);
                                            assert(r1 is Some);
                                            assert(false);
                                        },
                                        Exchange::NYSE => {},
                                    }
                                }
                            }
                            Some((Exchange::NYSE, p))
                        },
                        None => {
                            proof {
                                assert forall|e: Exchange, rest: Seq<char>|
                                    s@.skip(pos as int) == #[trigger] (enc_exchange(e) + rest) && (
                                rest.len() == 0 || rest[0] != 'V') implies false by {
                                    lemma_split_prefix(s@, pos as int, enc_exchange(e), rest);
                                    match e {
                                        Exchange::TSX => {
                                            assert(s@.subrange(pos as int, pos + 3) == "TSX"@);
                                            assert(r2 is Some);
                                        },
                                        Exchange::TSXV => {
                                            assert(s@.subrange(pos as int, pos + 4) == "TSXV"@);
                                            assert(r1 is Some);
                                        },
                                        Exchange::NYSE => {
                                            assert(s@.subrange(pos as int, pos + 4) == "NYSE"@);
                                            assert(r3 is Some);
                                        },
                                    }
                                }
                            }
                            None
                        },
                    }
                },
            }
        },
    }
}

/// How the text decomposes after `pos` when an encoded position object
/// sits there.
proof fn lemma_stock_decomp(t: Seq<char>, pos: int, st: Stock, rest: Seq<char>)
    requires
        0 <= pos <= t.len(),
        t.skip(pos) == enc_stock(st) + rest,
    ensures
        ({
            let l1 = "{\"symbol\":\""@;
            let l2 = "\",\"exchange\":\""@;
            let l3 = "\",\"orders\":"@;
            let l4 = "}"@;
            let p1 = pos + l1.len();
            let p2 = p1 + st.symbol@.len();
            let p3 = p2 + l2.len();
            let p4 = p3 + enc_exchange(st.exchange).len();
            let p5 = p4 + l3.len();
            let p6 = p5 + enc_orders(st.orders@).len();
            let p7 = p6 + l4.len();
            &&& p7 <= t.len()
            &&& enc_stock(st).len() == l1.len() + st.symbol@.len() + l2.len() + enc_exchange(
                st.exchange,
            ).len() + l3.len() + enc_orders(st.orders@).len() + l4.len()
            &&& t.subrange(pos, p1) == l1
            &&& t.subrange(p1, p2) == st.symbol@
            &&& t.subrange(p2, p3) == l2
            &&& t.skip(p3) == enc_exchange(st.exchange) + (l3 + (enc_orders(st.orders@) + (l4
                + rest)))
            &&& t.subrange(p4, p5) == l3
            &&& t.skip(p5) == enc_orders(st.orders@) + (l4 + rest)
            &&& t.subrange(p6, p7) == l4
            &&& t.skip(p7) == rest
        }),
{
    let l1 = "{\"symbol\":\""@;
    let l2 = "\",\"exchange\":\""@;
    let l3 = "\",\"orders\":"@;
    let l4 = "}"@;
    let p1 = pos + l1.len();
    let p2 = p1 + st.symbol@.len();
    let p3 = p2 + l2.len();
    let p4 = p3 + enc_exchange(st.exchange).len();
    let p5 = p4 + l3.len();
    let p6 = p5 + enc_orders(st.orders@).len();
    assert(t.skip(pos) =~= l1 + (st.symbol@ + (l2 + (enc_exchange(st.exchange) + (l3
        + (enc_orders(st.orders@) + (l4 + rest)))))));
    lemma_split_prefix(t, pos, l1, st.symbol@ + (l2 + (enc_exchange(st.exchange) + (l3
        + (enc_orders(st.orders@) + (l4 + rest))))));
    lemma_split_prefix(t, p1, st.symbol@, l2 + (enc_exchange(st.exchange) + (l3 + (enc_orders(
        st.orders@,
    ) + (l4 + rest)))));
    lemma_split_prefix(t, p2, l2, enc_exchange(st.exchange) + (l3 + (enc_orders(st.orders@) + (l4
        + rest))));
    lemma_split_prefix(t, p3, enc_exchange(st.exchange), l3 + (enc_orders(st.orders@) + (l4
        + rest)));
    lemma_split_prefix(t, p4, l3, enc_orders(st.orders@) + (l4 + rest));
    lemma_split_prefix(t, p5, enc_orders(st.orders@), l4 + rest);
    lemma_split_prefix(t, p6, l4, rest);
}

/// Parses one position object. On any text that continues with the
/// encoding of a well-formed position, it consumes exactly that
/// encoding and returns a position with exactly those fields.
fn parse_stock_at(s: &str, pos: usize) -> (r: Option<(Stock, usize)>)
    requires
        pos <= s@.len(),
    ensures
        r matches Some(p) ==> pos < p.1 <= s@.len(),
        forall|st: Stock, rest: Seq<char>|
            wf_stock(st) && s@.skip(pos as int) == #[trigger] (enc_stock(st) + rest) ==> (
            r matches Some(p) && p.0.symbol@ == st.symbol@ && p.0.exchange == st.exchange
                && p.0.orders@ == st.orders@ && p.1 == pos + enc_stock(st).len()),
{
    proof {
        reveal_strlit("{\"symbol\":\"");
        reveal_strlit("\",\"exchange\":\"");
        reveal_strlit("\",\"orders\":");
        reveal_strlit("}");
    }
    let p1 = match parse_lit(s, pos, "{\"symbol\":\"") {
        Some(p) => p,
        None => {
            proof {
                assert forall|st: Stock, rest: Seq<char>|
                    wf_stock(st) && s@.skip(pos as int) == #[trigger] (enc_stock(st)
                        + rest) implies false by {
                    lemma_stock_decomp(s@, pos as int, st, rest);
                }
            }
            return None;
        },
    };
    let sy = match parse_symbol_at(s, p1) {
        Some(p) => p,
        None => {
            proof {
                assert forall|st: Stock, rest: Seq<char>|
                    wf_stock(st) && s@.skip(pos as int) == #[trigger] (enc_stock(st)
                        + rest) implies false by {
                    lemma_stock_decomp(s@, pos as int, st, rest);
                    let l1 = "{\"symbol\":\""@;
                    let q2 = p1 + st.symbol@.len();
                    assert forall|k: int| p1 <= k < q2 implies valid_symbol_char(
                        #[trigger] s@[k],
                    ) by {
                        assert(s@.subrange(p1 as int, q2)[k - p1] == st.symbol@[k - p1]);
                    }
                    assert(s@.subrange(q2, q2 + "\",\"exchange\":\""@.len())[0] == '"');
                    assert(s@[q2] == '"');
                    assert(!valid_symbol_char(s@[q2]));
                    lemma_sym_run_is(s@, p1 as int, q2);
                    assert(st.symbol@.len() >= 1);
                }
            }
            return None;
        },
    };
    let (key, p2) = sy;
    let p3 = match parse_lit(s, p2, "\",\"exchange\":\"") {
        Some(p) => p,
        None => {
            proof {
                assert forall|st: Stock, rest: Seq<char>|
                    wf_stock(st) && s@.skip(pos as int) == #[trigger] (enc_stock(st)
                        + rest) implies false by {
                    lemma_stock_decomp(s@, pos as int, st, rest);
                    let q2 = p1 + st.symbol@.len();
                    assert forall|k: int| p1 <= k < q2 implies valid_symbol_char(
                        #[trigger] s@[k],
                    ) by {
                        assert(s@.subrange(p1 as int, q2)[k - p1] == st.symbol@[k - p1]);
                    }
                    assert(s@.subrange(q2, q2 + "\",\"exchange\":\""@.len())[0] == '"');
                    assert(s@[q2] == '"');
                    assert(!valid_symbol_char(s@[q2]));
                    lemma_sym_run_is(s@, p1 as int, q2);
                    assert(p2 == q2);
                }
            }
            return None;
        },
    };
    let ex = match parse_exchange_at(s, p3) {
        Some(p) => p,
        None => {
            proof {
                assert forall|st: Stock, rest: Seq<char>|
                    wf_stock(st) && s@.skip(pos as int) == #[trigger] (enc_stock(st)
                        + rest) implies false by {
                    lemma_stock_decomp(s@, pos as int, st, rest);
                    let q2 = p1 + st.symbol@.len();
                    assert forall|k: int| p1 <= k < q2 implies valid_symbol_char(
                        #[trigger] s@[k],
                    ) by {
                        assert(s@.subrange(p1 as int, q2)[k - p1] == st.symbol@[k - p1]);
                    }
                    assert(s@[q2] == '"') by {
                        assert(s@.subrange(q2, q2 + "\",\"exchange\":\""@.len())[0] == '"');
                    }
                    assert(!valid_symbol_char(s@[q2]));
                    lemma_sym_run_is(s@, p1 as int, q2);
                    assert(p2 == q2);
                    let q3 = q2 + "\",\"exchange\":\""@.len();
                    assert(p3 == q3);
                    let tail = "\",\"orders\":"@ + (enc_orders(st.orders@) + ("}"@ + rest));
                    assert(s@.skip(q3) == enc_exchange(st.exchange) + tail);
                    assert(tail[0] == '"');
                }
            }
            return None;
        },
    };
    let (exch, p4) = ex;
    let p5 = match parse_lit(s, p4, "\",\"orders\":") {
        Some(p) => p,
        None => {
            proof {
                assert forall|st: Stock, rest: Seq<char>|
                    wf_stock(st) && s@.skip(pos as int) == #[trigger] (enc_stock(st)
                        + rest) implies false by {
                    lemma_stock_decomp(s@, pos as int, st, rest);
                    let q2 = p1 + st.symbol@.len();
                    assert forall|k: int| p1 <= k < q2 implies valid_symbol_char(
                        #[trigger] s@[k],
                    ) by {
                        assert(s@.subrange(p1 as int, q2)[k - p1] == st.symbol@[k - p1]);
                    }
                    assert(s@[q2] == '"') by {
                        assert(s@.subrange(q2, q2 + "\",\"exchange\":\""@.len())[0] == '"');
                    }
                    assert(!valid_symbol_char(s@[q2]));
                    lemma_sym_run_is(s@, p1 as int, q2);
                    assert(p2 == q2);
                    let q3 = q2 + "\",\"exchange\":\""@.len();
                    assert(p3 == q3);
                    let tail = "\",\"orders\":"@ + (enc_orders(st.orders@) + ("}"@ + rest));
                    assert(s@.skip(q3) == enc_exchange(st.exchange) + tail);
                    assert(tail[0] == '"');
                    assert(p4 == q3 + enc_exchange(st.exchange).len());
                }
            }
            return None;
        },
    };
    let or = match parse_orders_at(s, p5) {
        Some(p) => p,
        None => {
            proof {
                assert forall|st: Stock, rest: Seq<char>|
                    wf_stock(st) && s@.skip(pos as int) == #[trigger] (enc_stock(st)
                        + rest) implies false by {
                    lemma_stock_decomp(s@, pos as int, st, rest);
                    let q2 = p1 + st.symbol@.len();
                    assert forall|k: int| p1 <= k < q2 implies valid_symbol_char(
                        #[trigger] s@[k],
                    ) by {
                        assert(s@.subrange(p1 as int, q2)[k - p1] == st.symbol@[k - p1]);
                    }
                    assert(s@[q2] == '"') by {
                        assert(s@.subrange(q2, q2 + "\",\"exchange\":\""@.len())[0] == '"');
                    }
                    assert(!valid_symbol_char(s@[q2]));
                    lemma_sym_run_is(s@, p1 as int, q2);
                    assert(p2 == q2);
                    let q3 = q2 + "\",\"exchange\":\""@.len();
                    assert(p3 == q3);
                    let tail = "\",\"orders\":"@ + (enc_orders(st.orders@) + ("}"@ + rest));
                    assert(s@.skip(q3) == enc_exchange(st.exchange) + tail);
                    assert(tail[0] == '"');
                    assert(p4 == q3 + enc_exchange(st.exchange).len());
                    assert(p5 == p4 + "\",\"orders\":"@.len());
                    assert(s@.skip(p5 as int) == enc_orders(st.orders@) + ("}"@ + rest));
                }
            }
            return None;
        },
    };
    let (orders, p6) = or;
    let p7 = match parse_lit(s, p6, "}") {
        Some(p) => p,
        None => {
            proof {
                assert forall|st: Stock, rest: Seq<char>|
                    wf_stock(st) && s@.skip(pos as int) == #[trigger] (enc_stock(st)
                        + rest) implies false by {
                    lemma_stock_decomp(s@, pos as int, st, rest);
                    let q2 = p1 + st.symbol@.len();
                    assert forall|k: int| p1 <= k < q2 implies valid_symbol_char(
                        #[trigger] s@[k],
                    ) by {
                        assert(s@.subrange(p1 as int, q2)[k - p1] == st.symbol@[k - p1]);
                    }
                    assert(s@[q2] == '"') by {
                        assert(s@.subrange(q2, q2 + "\",\"exchange\":\""@.len())[0] == '"');
                    }
                    assert(!valid_symbol_char(s@[q2]));
                    lemma_sym_run_is(s@, p1 as int, q2);
                    assert(p2 == q2);
                    let q3 = q2 + "\",\"exchange\":\""@.len();
                    assert(p3 == q3);
                    let tail = "\",\"orders\":"@ + (enc_orders(st.orders@) + ("}"@ + rest));
                    assert(s@.skip(q3) == enc_exchange(st.exchange) + tail);
                    assert(tail[0] == '"');
                    assert(p4 == q3 + enc_exchange(st.exchange).len());
                    assert(p5 == p4 + "\",\"orders\":"@.len());
                    assert(s@.skip(p5 as int) == enc_orders(st.orders@) + ("}"@ + rest));
                    assert(p6 == p5 + enc_orders(st.orders@).len());
                }
            }
            return None;
        },
    };
    let st_out = Stock { symbol: key, exchange: exch, orders };
    proof {
        assert forall|st: Stock, rest: Seq<char>|
            wf_stock(st) && s@.skip(pos as int) == #[trigger] (enc_stock(st) + rest) implies (
        st_out.symbol@ == st.symbol@ && st_out.exchange == st.exchange && st_out.orders@
            == st.orders@ && p7 == pos + enc_stock(st).len()) by {
            lemma_stock_decomp(s@, pos as int, st, rest);
            let q2 = p1 + st.symbol@.len();
            assert forall|k: int| p1 <= k < q2 implies valid_symbol_char(#[trigger] s@[k]) by {
                assert(s@.subrange(p1 as int, q2)[k - p1] == st.symbol@[k - p1]);
            }
            assert(s@[q2] == '"') by {
                assert(s@.subrange(q2, q2 + "\",\"exchange\":\""@.len())[0] == '"');
            }
            assert(!valid_symbol_char(s@[q2]));
            lemma_sym_run_is(s@, p1 as int, q2);
            assert(p2 == q2);
            assert(key@ == st.symbol@);
            let q3 = q2 + "\",\"exchange\":\""@.len();
            assert(p3 == q3);
            let tail = "\",\"orders\":"@ + (enc_orders(st.orders@) + ("}"@ + rest));
            assert(s@.skip(q3) == enc_exchange(st.exchange) + tail);
            assert(tail[0] == '"');
            assert(exch == st.exchange);
            assert(p4 == q3 + enc_exchange(st.exchange).len());
            assert(p5 == p4 + "\",\"orders\":"@.len());
            assert(s@.skip(p5 as int) == enc_orders(st.orders@) + ("}"@ + rest));
            assert(orders@ == st.orders@);
            assert(p6 == p5 + enc_orders(st.orders@).len());
            assert(p7 == pos + enc_stock(st).len());
        }
    }
    Some((st_out, p7))
}

/// How the text decomposes after `pos` when an encoded collection
/// entry sits there.
proof fn lemma_entry_decomp(t: Seq<char>, pos: int, st: Stock, rest: Seq<char>)
    requires
        0 <= pos <= t.len(),
        t.skip(pos) == enc_entry(st) + rest,
    ensures
        ({
            let lq = "\""@;
            let lc = "\":"@;
            let q1 = pos + lq.len();
            let q2 = q1 + st.symbol@.len();
            let q3 = q2 + lc.len();
            &&& q3 + enc_stock(st).len() + rest.len() == t.len()
            &&& enc_entry(st).len() == lq.len() + st.symbol@.len() + lc.len() + enc_stock(
                st,
            ).len()
            &&& t.subrange(pos, q1) == lq
            &&& t.subrange(q1, q2) == st.symbol@
            &&& t.subrange(q2, q3) == lc
            &&& t.skip(q3) == enc_stock(st) + rest
        }),
{
    let lq = "\""@;
    let lc = "\":"@;
    let q1 = pos + lq.len();
    let q2 = q1 + st.symbol@.len();
    assert(t.skip(pos) =~= lq + (st.symbol@ + (lc + (enc_stock(st) + rest))));
    lemma_split_prefix(t, pos, lq, st.symbol@ + (lc + (enc_stock(st) + rest)));
    lemma_split_prefix(t, q1, st.symbol@, lc + (enc_stock(st) + rest));
    lemma_split_prefix(t, q2, lc, enc_stock(st) + rest);
}

/// Parses one collection entry, checking that the key names the
/// position it holds.
fn parse_entry_at(s: &str, pos: usize) -> (r: Option<(Stock, usize)>)
    requires
        pos <= s@.len(),
    ensures
        r matches Some(p) ==> pos < p.1 <= s@.len(),
        forall|st: Stock, rest: Seq<char>|
            wf_stock(st) && s@.skip(pos as int) == #[trigger] (enc_entry(st) + rest) ==> (
            r matches Some(p) && p.0.symbol@ == st.symbol@ && p.0.exchange == st.exchange
                && p.0.orders@ == st.orders@ && p.1 == pos + enc_entry(st).len()),
{
    proof {
        reveal_strlit("\"");
        reveal_strlit("\":");
    }
    let p1 = match parse_lit(s, pos, "\"") {
        Some(p) => p,
        None => {
            proof {
                assert forall|st: Stock, rest: Seq<char>|
                    wf_stock(st) && s@.skip(pos as int) == #[trigger] (enc_entry(st)
                        + rest) implies false by {
                    lemma_entry_decomp(s@, pos as int, st, rest);
                }
            }
            return None;
        },
    };
    let sy = match parse_symbol_at(s, p1) {
        Some(p) => p,
        None => {
            proof {
                assert forall|st: Stock, rest: Seq<char>|
                    wf_stock(st) && s@.skip(pos as int) == #[trigger] (enc_entry(st)
                        + rest) implies false by {
                    lemma_entry_decomp(s@, pos as int, st, rest);
                    let q2 = p1 + st.symbol@.len();
                    assert forall|k: int| p1 <= k < q2 implies valid_symbol_char(
                        #[trigger] s@[k],
                    ) by {
                        assert(s@.subrange(p1 as int, q2)[k - p1] == st.symbol@[k - p1]);
                    }
                    assert(s@[q2] == '"') by {
                        assert(s@.subrange(q2, q2 + "\":"@.len())[0] == '"');
                    }
                    assert(!valid_symbol_char(s@[q2]));
                    lemma_sym_run_is(s@, p1 as int, q2);
                    assert(st.symbol@.len() >= 1);
                }
            }
            return None;
        },
    };
    let (key, p2) = sy;
    let p3 = match parse_lit(s, p2, "\":") {
        Some(p) => p,
        None => {
            proof {
                assert forall|st: Stock, rest: Seq<char>|
                    wf_stock(st) && s@.skip(pos as int) == #[trigger] (enc_entry(st)
                        + rest) implies false by {
                    lemma_entry_decomp(s@, pos as int, st, rest);
                    let q2 = p1 + st.symbol@.len();
                    assert forall|k: int| p1 <= k < q2 implies valid_symbol_char(
                        #[trigger] s@[k],
                    ) by {
                        assert(s@.subrange(p1 as int, q2)[k - p1] == st.symbol@[k - p1]);
                    }
                    assert(s@[q2] == '"') by {
                        assert(s@.subrange(q2, q2 + "\":"@.len())[0] == '"');
                    }
                    assert(!valid_symbol_char(s@[q2]));
                    lemma_sym_run_is(s@, p1 as int, q2);
                    assert(p2 == q2);
                }
            }
            return None;
        },
    };
    let stp = match parse_stock_at(s, p3) {
        Some(p) => p,
        None => {
            proof {
                assert forall|st: Stock, rest: Seq<char>|
                    wf_stock(st) && s@.skip(pos as int) == #[trigger] (enc_entry(st)
                        + rest) implies false by {
                    lemma_entry_decomp(s@, pos as int, st, rest);
                    let q2 = p1 + st.symbol@.len();
                    assert forall|k: int| p1 <= k < q2 implies valid_symbol_char(
                        #[trigger] s@[k],
                    ) by {
                        assert(s@.subrange(p1 as int, q2)[k - p1] == st.symbol@[k - p1]);
                    }
                    assert(s@[q2] == '"') by {
                        assert(s@.subrange(q2, q2 + "\":"@.len())[0] == '"');
                    }
                    assert(!valid_symbol_char(s@[q2]));
                    lemma_sym_run_is(s@, p1 as int, q2);
                    assert(p2 == q2);
                    assert(p3 == q2 + "\":"@.len());
                    assert(s@.skip(p3 as int) == enc_stock(st) + rest);
                }
            }
            return None;
        },
    };
    let (st2, p4) = stp;
    if key == st2.symbol {
        proof {
            assert forall|st: Stock, rest: Seq<char>|
                wf_stock(st) && s@.skip(pos as int) == #[trigger] (enc_entry(st) + rest) implies (
            st2.symbol@ == st.symbol@ && st2.exchange == st.exchange && st2.orders@ == st.orders@
                && p4 == pos + enc_entry(st).len()) by {
                lemma_entry_decomp(s@, pos as int, st, rest);
                let q2 = p1 + st.symbol@.len();
                assert forall|k: int| p1 <= k < q2 implies valid_symbol_char(#[trigger] s@[k]) by {
                    assert(s@.subrange(p1 as int, q2)[k - p1] == st.symbol@[k - p1]);
                }
                assert(s@[q2] == '"') by {
                    assert(s@.subrange(q2, q2 + "\":"@.len())[0] == '"');
                }
                assert(!valid_symbol_char(s@[q2]));
                lemma_sym_run_is(s@, p1 as int, q2);
                assert(p2 == q2);
                assert(p3 == q2 + "\":"@.len());
                assert(s@.skip(p3 as int) == enc_stock(st) + rest);
                assert(p4 == pos + enc_entry(st).len());
            }
        }
        Some((st2, p4))
    } else {
        proof {
            assert forall|st: Stock, rest: Seq<char>|
                wf_stock(st) && s@.skip(pos as int) == #[trigger] (enc_entry(st)
                    + rest) implies false by {
                lemma_entry_decomp(s@, pos as int, st, rest);
                let q2 = p1 + st.symbol@.len();
                assert forall|k: int| p1 <= k < q2 implies valid_symbol_char(#[trigger] s@[k]) by {
                    assert(s@.subrange(p1 as int, q2)[k - p1] == st.symbol@[k - p1]);
                }
                assert(s@[q2] == '"') by {
                    assert(s@.subrange(q2, q2 + "\":"@.len())[0] == '"');
                }
                assert(!valid_symbol_char(s@[q2]));
                lemma_sym_run_is(s@, p1 as int, q2);
                assert(p2 == q2);
                assert(key@ == st.symbol@);
                assert(p3 == q2 + "\":"@.len());
                assert(s@.skip(p3 as int) == enc_stock(st) + rest);
                assert(st2.symbol@ == st.symbol@);
                assert(key@ == st2.symbol@);
            }
        }
        None
    }
}

/// Parses the comma-separated entries of a non-empty collection.
#[verifier::rlimit(60)]
fn parse_entries_at(s: &str, pos: usize) -> (r: Option<(Vec<Stock>, usize)>)
    requires
        pos <= s@.len(),
    ensures
        r matches Some(p) ==> pos < p.1 <= s@.len(),
        forall|v: Seq<Stock>, rest: Seq<char>|
            v.len() >= 1 && (forall|i: int| 0 <= i < v.len() ==> wf_stock(#[trigger] v[i]))
                && s@.skip(pos as int) == #[trigger] (enc_entries(v) + rest) && (rest.len() == 0
                || rest[0] != ',') ==> (r matches Some(p) && stocks_like(p.0@, v) && p.1 == pos
                + enc_entries(v).len()),
    decreases s@.len() - pos,
{
    let ep = match parse_entry_at(s, pos) {
        Some(p) => p,
        None => {
            proof {
                assert forall|v: Seq<Stock>, rest: Seq<char>|
                    v.len() >= 1 && (forall|i: int|
                        0 <= i < v.len() ==> wf_stock(#[trigger] v[i])) && s@.skip(pos as int)
                        == #[trigger] (enc_entries(v) + rest) && (rest.len() == 0 || rest[0]
                        != ',') implies false by {
                    assert(wf_stock(v[0]));
                    if v.len() == 1 {
                        assert(s@.skip(pos as int) == enc_entry(v[0]) + rest);
                    } else {
                        assert(s@.skip(pos as int) =~= enc_entry(v[0]) + (","@ + (enc_entries(
                            v.drop_first(),
                        ) + rest)));
                    }
                }
            }
            return None;
        },
    };
    let (st, p1) = ep;
    let len = s.unicode_len();
    if p1 < len && s.get_char(p1) == ',' {
        let inner = parse_entries_at(s, p1 + 1);
        match inner {
            Some((mut items, p2)) => {
                items.insert(0, st);
                proof {
                    assert forall|v: Seq<Stock>, rest: Seq<char>|
                        v.len() >= 1 && (forall|i: int|
                            0 <= i < v.len() ==> wf_stock(#[trigger] v[i])) && s@.skip(pos as int)
                            == #[trigger] (enc_entries(v) + rest) && (rest.len() == 0 || rest[0]
                            != ',') implies (Some((items, p2)) matches Some(p) && stocks_like(
                        p.0@,
                        v,
                    ) && p.1 == pos + enc_entries(v).len()) by {
                        assert(wf_stock(v[0]));
                        if v.len() == 1 {
                            assert(s@.skip(pos as int) == enc_entry(v[0]) + rest);
                            assert(p1 == pos + enc_entry(v[0]).len());
                            lemma_split_prefix(s@, pos as int, enc_entry(v[0]), rest);
                            assert(s@.skip(p1 as int) == rest);
                            assert(rest[0] == s@[p1 as int]);
                            assert(false);
                        } else {
                            let tail = ","@ + (enc_entries(v.drop_first()) + rest);
                            assert(s@.skip(pos as int) =~= enc_entry(v[0]) + tail);
                            assert(p1 == pos + enc_entry(v[0]).len());
                            assert(st.symbol@ == v[0].symbol@ && st.exchange == v[0].exchange
                                && st.orders@ == v[0].orders@);
                            lemma_split_prefix(s@, pos as int, enc_entry(v[0]), tail);
                            assert(s@.skip(p1 as int) == tail);
                            reveal_strlit(",");
                            lemma_split_prefix(
                                s@,
                                p1 as int,
                                ","@,
                                enc_entries(v.drop_first()) + rest,
                            );
                            assert(s@.skip(p1 as int + 1) == enc_entries(v.drop_first()) + rest);
                            assert(v.drop_first().len() >= 1);
                            assert(forall|i: int|
                                0 <= i < v.drop_first().len() ==> wf_stock(
                                    #[trigger] v.drop_first()[i],
                                ));
                            assert(stocks_like(items@.drop_first(), v.drop_first()));
                            assert(items@[0] == st);
                            assert(stocks_like(items@, v)) by {
                                assert forall|i: int| 0 <= i < v.len() implies stock_is(
                                    #[trigger] items@[i],
                                    v[i].symbol@,
                                    v[i].exchange,
                                    v[i].orders@,
                                ) by {
                                    if i > 0 {
                                        assert(items@[i] == items@.drop_first()[i - 1]);
                                        assert(v.drop_first()[i - 1] == v[i]);
                                    }
                                }
                            }
                            assert(p2 == p1 + 1 + enc_entries(v.drop_first()).len());
                        }
                    }
                }
                Some((items, p2))
            },
            None => {
                proof {
                    assert forall|v: Seq<Stock>, rest: Seq<char>|
                        v.len() >= 1 && (forall|i: int|
                            0 <= i < v.len() ==> wf_stock(#[trigger] v[i])) && s@.skip(pos as int)
                            == #[trigger] (enc_entries(v) + rest) && (rest.len() == 0 || rest[0]
                            != ',') implies false by {
                        assert(wf_stock(v[0]));
                        if v.len() == 1 {
                            assert(s@.skip(pos as int) == enc_entry(v[0]) + rest);
                            assert(p1 == pos + enc_entry(v[0]).len());
                            lemma_split_prefix(s@, pos as int, enc_entry(v[0]), rest);
                            assert(rest[0] == s@[p1 as int]);
                        } else {
                            let tail = ","@ + (enc_entries(v.drop_first()) + rest);
                            assert(s@.skip(pos as int) =~= enc_entry(v[0]) + tail);
                            assert(p1 == pos + enc_entry(v[0]).len());
                            lemma_split_prefix(s@, pos as int, enc_entry(v[0]), tail);
                            reveal_strlit(",");
                            lemma_split_prefix(
                                s@,
                                p1 as int,
                                ","@,
                                enc_entries(v.drop_first()) + rest,
                            );
                            assert(s@.skip(p1 as int + 1) == enc_entries(v.drop_first()) + rest);
                            assert(v.drop_first().len() >= 1);
                            assert(forall|i: int|
                                0 <= i < v.drop_first().len() ==> wf_stock(
                                    #[trigger] v.drop_first()[i],
                                ));
                        }
                    }
                }
                None
            },
        }
    } else {
        let mut items: Vec<Stock> = Vec::new();
        items.push(st);
        proof {
            assert forall|v: Seq<Stock>, rest: Seq<char>|
                v.len() >= 1 && (forall|i: int| 0 <= i < v.len() ==> wf_stock(#[trigger] v[i]))
                    && s@.skip(pos as int) == #[trigger] (enc_entries(v) + rest) && (rest.len()
                    == 0 || rest[0] != ',') implies (Some((items, p1)) matches Some(p)
                && stocks_like(p.0@, v) && p.1 == pos + enc_entries(v).len()) by {
                assert(wf_stock(v[0]));
                if v.len() == 1 {
                    assert(s@.skip(pos as int) == enc_entry(v[0]) + rest);
                    assert(st.symbol@ == v[0].symbol@ && st.exchange == v[0].exchange
                        && st.orders@ == v[0].orders@);
                    assert(stocks_like(items@, v));
                    assert(p1 == pos + enc_entries(v).len());
                } else {
                    let tail = ","@ + (enc_entries(v.drop_first()) + rest);
                    assert(s@.skip(pos as int) =~= enc_entry(v[0]) + tail);
                    assert(p1 == pos + enc_entry(v[0]).len());
                    lemma_split_prefix(s@, pos as int, enc_entry(v[0]), tail);
                    assert(s@.skip(p1 as int) == tail);
                    reveal_strlit(",");
                    assert(tail[0] == ',');
                    assert(s@[p1 as int] == ',');
                    assert(p1 < s@.len());
                    assert(false);
                }
            }
        }
        Some((items, p1))
    }
}

/// Parses one collection object.
fn parse_coll_at(s: &str, pos: usize) -> (r: Option<(Vec<Stock>, usize)>)
    requires
        pos <= s@.len(),
    ensures
        r matches Some(p) ==> pos < p.1 <= s@.len(),
        forall|v: Seq<Stock>, rest: Seq<char>|
            (forall|i: int| 0 <= i < v.len() ==> wf_stock(#[trigger] v[i])) && s@.skip(pos as int)
                == #[trigger] (enc_coll(v) + rest) ==> (r matches Some(p) && stocks_like(p.0@, v)
                && p.1 == pos + enc_coll(v).len()),
{
    proof {
        reveal_strlit("{");
        reveal_strlit("}");
    }
    let p1 = match parse_lit(s, pos, "{") {
        Some(p) => p,
        None => {
            proof {
                assert forall|v: Seq<Stock>, rest: Seq<char>|
                    (forall|i: int| 0 <= i < v.len() ==> wf_stock(#[trigger] v[i])) && s@.skip(
                        pos as int,
                    ) == #[trigger] (enc_coll(v) + rest) implies false by {
                    assert(s@.skip(pos as int) =~= "{"@ + (enc_entries(v) + ("}"@ + rest)));
                    lemma_split_prefix(s@, pos as int, "{"@, enc_entries(v) + ("}"@ + rest));
                }
            }
            return None;
        },
    };
    match parse_lit(s, p1, "}") {
        Some(p2) => {
            let items: Vec<Stock> = Vec::new();
            proof {
                assert forall|v: Seq<Stock>, rest: Seq<char>|
                    (forall|i: int| 0 <= i < v.len() ==> wf_stock(#[trigger] v[i])) && s@.skip(
                        pos as int,
                    ) == #[trigger] (enc_coll(v) + rest) implies (Some((items, p2)) matches Some(p)
                    && stocks_like(p.0@, v) && p.1 == pos + enc_coll(v).len()) by {
                    assert(s@.skip(pos as int) =~= "{"@ + (enc_entries(v) + ("}"@ + rest)));
                    lemma_split_prefix(s@, pos as int, "{"@, enc_entries(v) + ("}"@ + rest));
                    assert(s@.skip(p1 as int) == enc_entries(v) + ("}"@ + rest));
                    if v.len() >= 1 {
                        lemma_enc_entries_first(v);
                        assert(s@.skip(p1 as int)[0] == (enc_entries(v) + ("}"@ + rest))[0]);
                        assert((enc_entries(v) + ("}"@ + rest))[0] == enc_entries(v)[0]);
                        assert(s@.skip(p1 as int)[0] == s@[p1 as int]);
                        assert(s@[p1 as int] == '"');
                        assert(s@.subrange(p1 as int, p1 as int + 1) == "}"@);
                        assert(s@.subrange(p1 as int, p1 as int + 1)[0] == '}');
                        assert(false);
                    }
                    assert(enc_entries(v) =~= Seq::<char>::empty());
                    assert(stocks_like(items@, v));
                    assert(s@.skip(p1 as int) =~= "}"@ + rest);
                    lemma_split_prefix(s@, p1 as int, "}"@, rest);
                    assert(p2 == pos + enc_coll(v).len());
                }
            }
            Some((items, p2))
        },
        None => {
            let en = match parse_entries_at(s, p1) {
                Some(p) => p,
                None => {
                    proof {
                        assert forall|v: Seq<Stock>, rest: Seq<char>|
                            (forall|i: int| 0 <= i < v.len() ==> wf_stock(#[trigger] v[i]))
                                && s@.skip(pos as int) == #[trigger] (enc_coll(v)
                                + rest) implies false by {
                            assert(s@.skip(pos as int) =~= "{"@ + (enc_entries(v) + ("}"@
                                + rest)));
                            lemma_split_prefix(s@, pos as int, "{"@, enc_entries(v) + ("}"@
                                + rest));
                            assert(s@.skip(p1 as int) == enc_entries(v) + ("}"@ + rest));
                            if v.len() == 0 {
                                assert(s@.skip(p1 as int) =~= "}"@ + rest);
                                lemma_split_prefix(s@, p1 as int, "}"@, rest);
                                assert(false);
                            }
                            assert(("}"@ + rest)[0] == '}');
                        }
                    }
                    return None;
                },
            };
            let (items, p3) = en;
            let p4 = match parse_lit(s, p3, "}") {
                Some(p) => p,
                None => {
                    proof {
                        assert forall|v: Seq<Stock>, rest: Seq<char>|
                            (forall|i: int| 0 <= i < v.len() ==> wf_stock(#[trigger] v[i]))
                                && s@.skip(pos as int) == #[trigger] (enc_coll(v)
                                + rest) implies false by {
                            assert(s@.skip(pos as int) =~= "{"@ + (enc_entries(v) + ("}"@
                                + rest)));
                            lemma_split_prefix(s@, pos as int, "{"@, enc_entries(v) + ("}"@
                                + rest));
                            assert(s@.skip(p1 as int) == enc_entries(v) + ("}"@ + rest));
                            if v.len() == 0 {
                                assert(s@.skip(p1 as int) =~= "}"@ + rest);
                                lemma_split_prefix(s@, p1 as int, "}"@, rest);
                                assert(false);
                            }
                            assert(("}"@ + rest)[0] == '}');
                            assert(p3 == p1 + enc_entries(v).len());
                            lemma_split_prefix(s@, p1 as int, enc_entries(v), "}"@ + rest);
                            assert(s@.skip(p3 as int) == "}"@ + rest);
                            lemma_split_prefix(s@, p3 as int, "}"@, rest);
                        }
                    }
                    return None;
                },
            };
            proof {
                assert forall|v: Seq<Stock>, rest: Seq<char>|
                    (forall|i: int| 0 <= i < v.len() ==> wf_stock(#[trigger] v[i])) && s@.skip(
                        pos as int,
                    ) == #[trigger] (enc_coll(v) + rest) implies (Some((items, p4)) matches Some(
                    p,
                ) && stocks_like(p.0@, v) && p.1 == pos + enc_coll(v).len()) by {
                    assert(s@.skip(pos as int) =~= "{"@ + (enc_entries(v) + ("}"@ + rest)));
                    lemma_split_prefix(s@, pos as int, "{"@, enc_entries(v) + ("}"@ + rest));
                    assert(s@.skip(p1 as int) == enc_entries(v) + ("}"@ + rest));
                    if v.len() == 0 {
                        assert(s@.skip(p1 as int) =~= "}"@ + rest);
                        lemma_split_prefix(s@, p1 as int, "}"@, rest);
                        assert(false);
                    }
                    assert(("}"@ + rest)[0] == '}');
                    assert(stocks_like(items@, v));
                    assert(p3 == p1 + enc_entries(v).len());
                    lemma_split_prefix(s@, p1 as int, enc_entries(v), "}"@ + rest);
                    assert(s@.skip(p3 as int) == "}"@ + rest);
                    lemma_split_prefix(s@, p3 as int, "}"@, rest);
                    assert(p4 == pos + enc_coll(v).len());
                }
            }
            Some((items, p4))
        },
    }
}

/// A collection that reads like a well-formed one is well-formed
/// itself: well-formedness only looks at the field views.
proof fn lemma_like_wf(a: Seq<Stock>, b: Seq<Stock>)
    requires
        stocks_like(a, b),
        wf_stocks(b),
    ensures
        wf_stocks(a),
{
    assert forall|i: int| 0 <= i < a.len() implies wf_stock(#[trigger] a[i]) by {
        assert(stock_is(a[i], b[i].symbol@, b[i].exchange, b[i].orders@));
    }
    assert forall|i: int, j: int| 0 <= i < j < a.len() implies (#[trigger] a[i]).symbol@ != (
    #[trigger] a[j]).symbol@ by {
        assert(stock_is(a[i], b[i].symbol@, b[i].exchange, b[i].orders@));
        assert(stock_is(a[j], b[j].symbol@, b[j].exchange, b[j].orders@));
    }
}

/// Whether a string is acceptable as a stored symbol.
fn check_stored_symbol(sym: &String) -> (r: bool)
    ensures
        r == valid_symbol(sym@),
{
    let s = sym.as_str();
    let n = s.unicode_len();
    if n == 0 {
        return false;
    }
    let mut i: usize = 0;
    while i < n
        invariant
            0 <= i <= n,
            n == sym@.len(),
            s@ == sym@,
            forall|j: int| 0 <= j < i ==> valid_symbol_char(#[trigger] sym@[j]),
        decreases n - i,
    {
        let cu = s.get_char(i) as u32;
        let ok = (65 <= cu && cu <= 90) || (48 <= cu && cu <= 57) || cu == 46 || cu == 45;
        if !ok {
            proof {
                assert(!valid_symbol_char(sym@[i as int]));
            }
            return false;
        }
        i = i + 1;
    }
    true
}

/// Whether a collection holds well-formed positions with distinct
/// symbols.
fn check_stocks_wf(v: &Vec<Stock>) -> (r: bool)
    ensures
        r == wf_stocks(v@),
{
    let n = v.len();
    let mut i: usize = 0;
    while i < n
        invariant
            0 <= i <= n,
            n == v@.len(),
            forall|j: int| 0 <= j < i ==> wf_stock(#[trigger] v@[j]),
        decreases n - i,
    {
        if !check_stored_symbol(&v[i].symbol) {
            return false;
        }
        i = i + 1;
    }
    let mut a: usize = 0;
    while a < n
        invariant
            0 <= a <= n,
            n == v@.len(),
            forall|j: int| 0 <= j < n ==> wf_stock(#[trigger] v@[j]),
            forall|x: int, y: int|
                0 <= x < y < n && x < a ==> (#[trigger] v@[x]).symbol@ != (#[trigger] v@[y]).symbol@,
        decreases n - a,
    {
        let mut b: usize = a + 1;
        while b < n
            invariant
                0 <= a < b <= n || (a == b && b == n),
                a < n,
                n == v@.len(),
                forall|j: int| 0 <= j < n ==> wf_stock(#[trigger] v@[j]),
                forall|x: int, y: int|
                    0 <= x < y < n && x < a ==> (#[trigger] v@[x]).symbol@ != (
                    #[trigger] v@[y]).symbol@,
                forall|y: int|
                    a < y < b ==> (#[trigger] v@[y]).symbol@ != v@[a as int].symbol@,
            decreases n - b,
        {
            if v[a].symbol == v[b].symbol {
                proof {
                    assert(!distinct_symbols(v@));
                }
                return false;
            }
            b = b + 1;
        }
        a = a + 1;
    }
    true
}

/// Whether a whole store is well-formed.
fn check_collections_wf(c: &StockCollections) -> (r: bool)
    ensures
        r == c.wf(),
{
    let ok1 = check_stocks_wf(&c.portfolio);
    let ok2 = check_stocks_wf(&c.watchlist);
    let ok3 = check_stocks_wf(&c.archive);
    ok1 && ok2 && ok3
}

/// How the whole persisted text decomposes when it is the encoding of
/// a store.
proof fn lemma_store_decomp(t: Seq<char>, c: StockCollections)
    requires
        t == enc_store(c),
    ensures
        ({
            let l1 = "{\"portfolio\":"@;
            let l2 = ",\"watchlist\":"@;
            let l3 = ",\"archive\":"@;
            let l4 = "}"@;
            let q1 = l1.len() as int;
            let q2 = q1 + enc_coll(c.portfolio@).len();
            let q3 = q2 + l2.len();
            let q4 = q3 + enc_coll(c.watchlist@).len();
            let q5 = q4 + l3.len();
            let q6 = q5 + enc_coll(c.archive@).len();
            let q7 = q6 + l4.len();
            &&& t.len() == q7
            &&& t.subrange(0, q1) == l1
            &&& t.skip(q1) == enc_coll(c.portfolio@) + (l2 + (enc_coll(c.watchlist@) + (l3 + (
            enc_coll(c.archive@) + l4))))
            &&& t.subrange(q2, q3) == l2
            &&& t.skip(q3) == enc_coll(c.watchlist@) + (l3 + (enc_coll(c.archive@) + l4))
            &&& t.subrange(q4, q5) == l3
            &&& t.skip(q5) == enc_coll(c.archive@) + l4
            &&& t.subrange(q6, q7) == l4
        }),
{
    let l1 = "{\"portfolio\":"@;
    let l2 = ",\"watchlist\":"@;
    let l3 = ",\"archive\":"@;
    let l4 = "}"@;
    let q1 = l1.len() as int;
    let q2 = q1 + enc_coll(c.portfolio@).len();
    let q3 = q2 + l2.len();
    let q4 = q3 + enc_coll(c.watchlist@).len();
    let q5 = q4 + l3.len();
    assert(t.skip(0) =~= l1 + (enc_coll(c.portfolio@) + (l2 + (enc_coll(c.watchlist@) + (l3 + (
    enc_coll(c.archive@) + l4))))));
    lemma_split_prefix(t, 0, l1, enc_coll(c.portfolio@) + (l2 + (enc_coll(c.watchlist@) + (l3 + (
    enc_coll(c.archive@) + l4)))));
    lemma_split_prefix(t, q1, enc_coll(c.portfolio@), l2 + (enc_coll(c.watchlist@) + (l3 + (
    enc_coll(c.archive@) + l4))));
    lemma_split_prefix(t, q2, l2, enc_coll(c.watchlist@) + (l3 + (enc_coll(c.archive@) + l4)));
    lemma_split_prefix(t, q3, enc_coll(c.watchlist@), l3 + (enc_coll(c.archive@) + l4));
    lemma_split_prefix(t, q4, l3, enc_coll(c.archive@) + l4);
    lemma_split_prefix(t, q5, enc_coll(c.archive@), l4);
}

/// Deserializes a store from its persisted text. On the text
/// `save_data` wrote for a well-formed store, that store comes back,
/// field for field; a text that does not parse as the canonical
/// encoding of a well-formed store is refused with `ReadDataError`.
#[verifier::rlimit(100)]
pub fn decode_store(s: &str) -> (r: Result<StockCollections, StockoError>)
    ensures
        r matches Ok(c) ==> c.wf(),
        forall|c: StockCollections|
            c.wf() && s@ == #[trigger] enc_store(c) ==> (r matches Ok(d) && stocks_like(
                d.portfolio@,
                c.portfolio@,
            ) && stocks_like(d.watchlist@, c.watchlist@) && stocks_like(d.archive@, c.archive@)),
{
    proof {
        reveal_strlit("{\"portfolio\":");
        reveal_strlit(",\"watchlist\":");
        reveal_strlit(",\"archive\":");
        reveal_strlit("}");
    }
    let p1 = match parse_lit(s, 0, "{\"portfolio\":") {
        Some(p) => p,
        None => {
            proof {
                assert forall|c: StockCollections|
                    c.wf() && s@ == #[trigger] enc_store(c) implies false by {
                    lemma_store_decomp(s@, c);
                }
            }
            return Err(StockoError::ReadDataError(String::from_str("unrecognized store text")));
        },
    };
    let co1 = match parse_coll_at(s, p1) {
        Some(p) => p,
        None => {
            proof {
                assert forall|c: StockCollections|
                    c.wf() && s@ == #[trigger] enc_store(c) implies false by {
                    lemma_store_decomp(s@, c);
                }
            }
            return Err(StockoError::ReadDataError(String::from_str("unrecognized store text")));
        },
    };
    let (portfolio, p2) = co1;
    let p3 = match parse_lit(s, p2, ",\"watchlist\":") {
        Some(p) => p,
        None => {
            proof {
                assert forall|c: StockCollections|
                    c.wf() && s@ == #[trigger] enc_store(c) implies false by {
                    lemma_store_decomp(s@, c);
                }
            }
            return Err(StockoError::ReadDataError(String::from_str("unrecognized store text")));
        },
    };
    let co2 = match parse_coll_at(s, p3) {
        Some(p) => p,
        None => {
            proof {
                assert forall|c: StockCollections|
                    c.wf() && s@ == #[trigger] enc_store(c) implies false by {
                    lemma_store_decomp(s@, c);
                }
            }
            return Err(StockoError::ReadDataError(String::from_str("unrecognized store text")));
        },
    };
    let (watchlist, p4) = co2;
    let p5 = match parse_lit(s, p4, ",\"archive\":") {
        Some(p) => p,
        None => {
            proof {
                assert forall|c: StockCollections|
                    c.wf() && s@ == #[trigger] enc_store(c) implies false by {
                    lemma_store_decomp(s@, c);
                }
            }
            return Err(StockoError::ReadDataError(String::from_str("unrecognized store text")));
        },
    };
    let co3 = match parse_coll_at(s, p5) {
        Some(p) => p,
        None => {
            proof {
                assert forall|c: StockCollections|
                    c.wf() && s@ == #[trigger] enc_store(c) implies false by {
                    lemma_store_decomp(s@, c);
                }
            }
            return Err(StockoError::ReadDataError(String::from_str("unrecognized store text")));
        },
    };
    let (archive, p6) = co3;
    let p7 = match parse_lit(s, p6, "}") {
        Some(p) => p,
        None => {
            proof {
                assert forall|c: StockCollections|
                    c.wf() && s@ == #[trigger] enc_store(c) implies false by {
                    lemma_store_decomp(s@, c);
                }
            }
            return Err(StockoError::ReadDataError(String::from_str("unrecognized store text")));
        },
    };
    let len = s.unicode_len();
    if p7 != len {
        proof {
            assert forall|c: StockCollections|
                c.wf() && s@ == #[trigger] enc_store(c) implies false by {
                lemma_store_decomp(s@, c);
            }
        }
        return Err(StockoError::ReadDataError(String::from_str("unrecognized store text")));
    }
    let out = StockCollections { portfolio, watchlist, archive };
    if check_collections_wf(&out) {
        proof {
            assert forall|c: StockCollections|
                c.wf() && s@ == #[trigger] enc_store(c) implies (Ok::<
                StockCollections,
                StockoError,
            >(out) matches Ok(d) && stocks_like(d.portfolio@, c.portfolio@) && stocks_like(
                d.watchlist@,
                c.watchlist@,
            ) && stocks_like(d.archive@, c.archive@)) by {
                lemma_store_decomp(s@, c);
            }
        }
        Ok(out)
    } else {
        proof {
            assert forall|c: StockCollections|
                c.wf() && s@ == #[trigger] enc_store(c) implies false by {
                lemma_store_decomp(s@, c);
                lemma_like_wf(portfolio@, c.portfolio@);
                lemma_like_wf(watchlist@, c.watchlist@);
                lemma_like_wf(archive@, c.archive@);
                assert(out.wf());
            }
        }
        Err(StockoError::ReadDataError(String::from_str("store text fails its invariants")))
    }
}

/// Loads the store from the persisted file's content. A missing file
/// (`None`) is an empty store, not an error; text that is present is
/// decoded, and exactly the text `save_data` wrote for a well-formed
/// store gives that store back, field for field.
pub fn load_data(content: Option<&str>) -> (r: Result<StockCollections, StockoError>)
    ensures
        content is None ==> (r matches Ok(c) && c.portfolio@.len() == 0 && c.watchlist@.len() == 0
            && c.archive@.len() == 0 && c.wf() && c.inv()),
        content matches Some(s) ==> ((r matches Ok(c) ==> c.wf()) && (forall|c: StockCollections|
            c.wf() && s@ == #[trigger] enc_store(c) ==> (r matches Ok(d) && stocks_like(
                d.portfolio@,
                c.portfolio@,
            ) && stocks_like(d.watchlist@, c.watchlist@) && stocks_like(
                d.archive@,
                c.archive@,
            )))),
{
    match content {
        Option::None => Ok(StockCollections::new()),
        Option::Some(s) => decode_store(s),
    }
}

} // verus!
