//! The display currencies the monitor offers, the rates listed for them,
//! and when cached rates are due for a refresh.

use vstd::prelude::*;
use crate::text::{owned, push_str, str_eq};

verus! {

/// The offered currencies, ISO code and symbol, in display order. USD is
/// always available at rate 1.
pub open spec fn supported() -> Seq<(Seq<char>, Seq<char>)> {
    seq![
        ("USD"@, "$"@),
        ("EUR"@, "€"@),
        ("GBP"@, "£"@),
        ("JPY"@, "¥"@),
        ("CNY"@, "¥"@),
        ("THB"@, "฿"@),
        ("SGD"@, "S$"@),
        ("INR"@, "₹"@),
        ("KRW"@, "₩"@),
        ("AUD"@, "A$"@),
    ]
}

/// The `i`-th offered currency, code and symbol.
pub fn supported_currency(i: usize) -> (r: (&'static str, &'static str))
    requires
        i < 10,
    ensures
        (r.0@, r.1@) == supported()[i as int],
{
    match i {
        0 => ("USD", "$"),
        1 => ("EUR", "€"),
        2 => ("GBP", "£"),
        3 => ("JPY", "¥"),
        4 => ("CNY", "¥"),
        5 => ("THB", "฿"),
        6 => ("SGD", "S$"),
        7 => ("INR", "₹"),
        8 => ("KRW", "₩"),
        _ => ("AUD", "A$"),
    }
}

pub open spec fn is_supported_code(code: Seq<char>) -> bool {
    exists|i: int| 0 <= i < 10 && #[trigger] supported()[i].0 == code
}

/// Whether `code` is one of the offered currencies.
pub fn is_supported(code: &str) -> (r: bool)
    ensures
        r == is_supported_code(code@),
{
    let mut i: usize = 0;
    while i < 10
        invariant
            i <= 10,
            forall|j: int| 0 <= j < i ==> #[trigger] supported()[j].0 != code@,
        decreases 10 - i,
    {
        let (c, _) = supported_currency(i);
        if str_eq(c, code) {
            assert(supported()[i as int].0 == code@);
            return true;
        }
        i += 1;
    }
    false
}

/// Accepts a currency to display costs in: an offered one, or the error
/// "unsupported currency: <code>".
pub fn check_currency(code: &str) -> (r: Result<(), String>)
    ensures
        match r {
            Ok(_) => is_supported_code(code@),
            Err(m) => !is_supported_code(code@) && m@ == "unsupported currency: "@ + code@,
        },
{
    if is_supported(code) {
        Ok(())
    } else {
        let mut m = owned("unsupported currency: ");
        push_str(&mut m, code);
        Err(m)
    }
}

/// The codes whose rates are fetched: the offered ones but USD, in order.
pub open spec fn fetched_codes() -> Seq<Seq<char>> {
    Seq::new(9, |k: int| supported()[k + 1].0)
}

/// The request for USD-based rates of the offered currencies other than
/// USD, in display order.
pub fn rates_url() -> (r: String)
    ensures
        r@ == "https://api.frankfurter.app/latest?from=USD&to="@ + joined(fetched_codes()),
{
    let mut url = owned("https://api.frankfurter.app/latest?from=USD&to=");
    let mut i: usize = 1;
    while i < 10
        invariant
            1 <= i <= 10,
            url@ == "https://api.frankfurter.app/latest?from=USD&to="@ + joined(
                fetched_codes().take(i - 1),
            ),
        decreases 10 - i,
    {
        let (c, _) = supported_currency(i);
        let ghost before = url@;
        if i > 1 {
            push_str(&mut url, ",");
        }
        push_str(&mut url, c);
        proof {
            let codes = fetched_codes();
            assert(codes.take(i as int).drop_last() =~= codes.take(i - 1));
            assert(codes.take(i as int).last() == c@);
            if i == 1 {
                assert(joined(codes.take(0)) =~= Seq::<char>::empty());
            }
            assert(url@ =~= "https://api.frankfurter.app/latest?from=USD&to="@ + joined(
                codes.take(i as int),
            ));
        }
        i += 1;
    }
    assert(fetched_codes().take(9) =~= fetched_codes());
    url
}

/// `codes` joined with commas.
pub open spec fn joined(codes: Seq<Seq<char>>) -> Seq<char>
    decreases codes.len(),
{
    if codes.len() == 0 {
        Seq::empty()
    } else if codes.len() == 1 {
        codes[0]
    } else {
        joined(codes.drop_last()) + ","@ + codes.last()
    }
}

/// One row of the currency picker.
#[derive(Debug)]
pub struct CurrencyInfo<R> {
    pub code: String,
    pub symbol: String,
    pub rate: R,
}

/// The rate given for `code`: the first pair of `rates` keyed `code`.
pub open spec fn rate_for<R>(rates: Seq<(Seq<char>, R)>, code: Seq<char>) -> Option<R>
    decreases rates.len(),
{
    if rates.len() == 0 {
        None
    } else if rates[0].0 == code {
        Some(rates[0].1)
    } else {
        rate_for(rates.drop_first(), code)
    }
}

pub open spec fn rate_views<R>(rates: Seq<(String, R)>) -> Seq<(Seq<char>, R)> {
    rates.map_values(|p: (String, R)| (p.0@, p.1))
}

fn find_rate<R: Copy>(rates: &Vec<(String, R)>, code: &str) -> (r: Option<R>)
    ensures
        r == rate_for(rate_views(rates@), code@),
{
    let ghost kv = rate_views(rates@);
    assert(kv.subrange(0, kv.len() as int) =~= kv);
    let mut i: usize = 0;
    while i < rates.len()
        invariant
            i <= rates.len(),
            kv == rate_views(rates@),
            rate_for(kv, code@) == rate_for(kv.subrange(i as int, kv.len() as int), code@),
        decreases rates.len() - i,
    {
        let ghost rest = kv.subrange(i as int, kv.len() as int);
        assert(rest[0] == (rates@[i as int].0@, rates@[i as int].1));
        if str_eq(rates[i].0.as_str(), code) {
            return Some(rates[i].1);
        }
        assert(rest.drop_first() =~= kv.subrange(i + 1, kv.len() as int));
        i += 1;
    }
    None
}

/// One row per offered currency, in display order, with its cached rate,
/// or `unit` (the rate 1) when the cache has none or there is no cache.
pub fn currency_list<R: Copy>(rates: Option<&Vec<(String, R)>>, unit: R) -> (r: Vec<
    CurrencyInfo<R>,
>)
    ensures
        r@.len() == 10,
        forall|i: int|
            0 <= i < 10 ==> {
                &&& (#[trigger] r@[i]).code@ == supported()[i].0
                &&& r@[i].symbol@ == supported()[i].1
                &&& r@[i].rate == match rates {
                    Some(v) => match rate_for(rate_views(v@), supported()[i].0) {
                        Some(x) => x,
                        None => unit,
                    },
                    None => unit,
                }
            },
{
    let mut out: Vec<CurrencyInfo<R>> = Vec::new();
    let mut i: usize = 0;
    while i < 10
        invariant
            i <= 10,
            out@.len() == i,
            forall|j: int|
                0 <= j < i ==> {
                    &&& (#[trigger] out@[j]).code@ == supported()[j].0
                    &&& out@[j].symbol@ == supported()[j].1
                    &&& out@[j].rate == match rates {
                        Some(v) => match rate_for(rate_views(v@), supported()[j].0) {
                            Some(x) => x,
                            None => unit,
                        },
                        None => unit,
                    }
                },
        decreases 10 - i,
    {
        let (code, symbol) = supported_currency(i);
        let rate = match rates {
            Some(v) => match find_rate(v, code) {
                Some(x) => x,
                None => unit,
            },
            None => unit,
        };
        out.push(CurrencyInfo { code: owned(code), symbol: owned(symbol), rate });
        i += 1;
    }
    out
}

/// The currency picker's state: the active code, the offered currencies
/// with their rates, and when the rates were fetched.
pub struct CurrencyState<R> {
    pub active: String,
    pub list: Vec<CurrencyInfo<R>>,
    pub fetched_at: Option<String>,
}

/// Position of the first currency of `list` coded `code`.
pub open spec fn first_code<R>(list: Seq<CurrencyInfo<R>>, code: Seq<char>, i: int) -> bool {
    0 <= i < list.len() && list[i].code@ == code && forall|j: int|
        0 <= j < i ==> (#[trigger] list[j]).code@ != code
}

impl<R: Copy> CurrencyState<R> {
    /// The symbol and rate of the active currency: those of the first
    /// offered currency with the active code, else `$` at `unit` (the
    /// dollar amount shown unchanged).
    pub fn active_rate(&self, unit: R) -> (r: (String, R))
        ensures
            (exists|i: int| first_code(self.list@, self.active@, i)) ==> ({
                let i = choose|i: int| first_code(self.list@, self.active@, i);
                r.0@ == self.list@[i].symbol@ && r.1 == self.list@[i].rate
            }),
            !(exists|i: int| first_code(self.list@, self.active@, i)) ==> r.0@ == "$"@ && r.1 == unit,
    {
        let mut i: usize = 0;
        while i < self.list.len()
            invariant
                i <= self.list@.len(),
                forall|j: int| 0 <= j < i ==> (#[trigger] self.list@[j]).code@ != self.active@,
            decreases self.list.len() - i,
        {
            if str_eq(self.list[i].code.as_str(), self.active.as_str()) {
                proof {
                    assert(first_code(self.list@, self.active@, i as int));
                    let k = choose|k: int| first_code(self.list@, self.active@, k);
                    if k < i {
                        assert(self.list@[k].code@ != self.active@);
                    }
                    if (i as int) < k {
                        assert(self.list@[i as int].code@ != self.active@);
                    }
                }
                return (owned(self.list[i].symbol.as_str()), self.list[i].rate);
            }
            i += 1;
        }
        proof {
            if exists|k: int| first_code(self.list@, self.active@, k) {
                let k = choose|k: int| first_code(self.list@, self.active@, k);
                assert(self.list@[k].code@ != self.active@);
            }
        }
        (owned("$"), unit)
    }
}

/// What `chrono::DateTime::parse_from_rfc3339` reads from a text, as
/// milliseconds since the epoch (`timestamp_millis`), or `None` where the
/// text is not RFC 3339.
pub uninterp spec fn rfc3339_millis(text: Seq<char>) -> Option<i64>;

/// Parses an RFC 3339 timestamp with `chrono`; the result is the named
/// instant.
#[verifier::external_body]
fn parse_rfc3339_millis(text: &str) -> (r: Option<i64>)
    ensures
        r == rfc3339_millis(text@),
{
    chrono::DateTime::parse_from_rfc3339(text).ok().map(|t| t.timestamp_millis())
}

/// A day, in milliseconds.
pub const DAY_MILLIS: i64 = 86400000;

/// Cached rates fetched at `fetched_at` are stale at time `now_ms` when 24
/// hours or more have passed, or when the fetch time cannot be read.
pub open spec fn stale_at(fetched_at: Seq<char>, now_ms: i64) -> bool {
    match rfc3339_millis(fetched_at) {
        Some(t) => now_ms - t >= DAY_MILLIS,
        None => true,
    }
}

pub fn is_stale_at(fetched_at: &str, now_ms: i64) -> (r: bool)
    ensures
        r == stale_at(fetched_at@, now_ms),
{
    match parse_rfc3339_millis(fetched_at) {
        Some(t) => {
            let age: i128 = now_ms as i128 - t as i128;
            age >= DAY_MILLIS as i128
        },
        None => true,
    }
}

/// Whether rates fetched at `fetched_at` are stale now.
pub fn is_stale(fetched_at: &str) -> (r: bool)
    ensures
        exists|now: i64| r == stale_at(fetched_at@, now),
{
    let now = crate::agents::now_millis();
    is_stale_at(fetched_at, now)
}

} // verus!
