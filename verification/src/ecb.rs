//! The EUR-pivoted source adapter: parses the hierarchical XML rate
//! document and triangulates each day's quotes into the internal pivot.
//!
//! The document nests, under a time-keyed element per date, one element per
//! currency carrying `currency` and `rate` attributes quoted against the
//! source's native pivot (EUR). The parser scans for exactly those three
//! attributes; a day that does not quote the internal pivot is skipped, as
//! the cross rate has no fallback.

use vstd::prelude::*;
use crate::convert::convert_base_currency;
use crate::date::{Date, is_valid_ymd};
use crate::error::AppError;
use crate::models::{Currency, DailyRates};
use crate::parse::{
    parse_decimal, parse_iso_date, decimal_shape, mantissa, decimal_num, decimal_den, iso_shape,
    iso_year, iso_month, iso_day,
};
use crate::rate::{Rate, is_quotient};
use crate::table::RateTable;

verus! {

/// One attribute of the rate document, with its raw value bytes.
pub enum EcbAttr {
    Time(Seq<u8>),
    Code(Seq<u8>),
    Quote(Seq<u8>),
}

pub open spec fn quote_byte(b: u8) -> bool {
    b == 39 || b == 34
}

/// `time=` followed by an opening quote starts at `i`.
pub open spec fn time_at(s: Seq<u8>, i: int) -> bool {
    &&& i + 6 <= s.len()
    &&& s[i] == 116
    &&& s[i + 1] == 105
    &&& s[i + 2] == 109
    &&& s[i + 3] == 101
    &&& s[i + 4] == 61
    &&& quote_byte(s[i + 5])
}

/// `currency=` followed by an opening quote starts at `i`.
pub open spec fn currency_at(s: Seq<u8>, i: int) -> bool {
    &&& i + 10 <= s.len()
    &&& s[i] == 99
    &&& s[i + 1] == 117
    &&& s[i + 2] == 114
    &&& s[i + 3] == 114
    &&& s[i + 4] == 101
    &&& s[i + 5] == 110
    &&& s[i + 6] == 99
    &&& s[i + 7] == 121
    &&& s[i + 8] == 61
    &&& quote_byte(s[i + 9])
}

/// `rate=` followed by an opening quote starts at `i`.
pub open spec fn rate_at(s: Seq<u8>, i: int) -> bool {
    &&& i + 6 <= s.len()
    &&& s[i] == 114
    &&& s[i + 1] == 97
    &&& s[i + 2] == 116
    &&& s[i + 3] == 101
    &&& s[i + 4] == 61
    &&& quote_byte(s[i + 5])
}

/// Position of the first occurrence of `q` at or after `i` (the length when
/// there is none).
pub open spec fn find_from(s: Seq<u8>, i: int, q: u8) -> int
    decreases s.len() - i when 0 <= i
{
    if i >= s.len() {
        s.len() as int
    } else if s[i] == q {
        i
    } else {
        find_from(s, i + 1, q)
    }
}

pub proof fn lemma_find_from(s: Seq<u8>, i: int, q: u8)
    requires
        0 <= i <= s.len(),
    ensures
        i <= find_from(s, i, q) <= s.len(),
        find_from(s, i, q) < s.len() ==> s[find_from(s, i, q)] == q,
        forall|j: int| i <= j < find_from(s, i, q) ==> s[j] != q,
    decreases s.len() - i,
{
    if i < s.len() && s[i] != q {
        lemma_find_from(s, i + 1, q);
    }
}

/// The attributes of the document from position `i` on, in document order.
/// An unterminated attribute value ends the stream.
pub open spec fn attrs(s: Seq<u8>, i: int) -> Seq<EcbAttr>
    decreases s.len() - i when 0 <= i
{
    if i >= s.len() {
        Seq::empty()
    } else if time_at(s, i) {
        let e = find_from(s, i + 6, s[i + 5]);
        if i + 6 <= e < s.len() {
            seq![EcbAttr::Time(s.subrange(i + 6, e))] + attrs(s, e + 1)
        } else {
            Seq::empty()
        }
    } else if currency_at(s, i) {
        let e = find_from(s, i + 10, s[i + 9]);
        if i + 10 <= e < s.len() {
            seq![EcbAttr::Code(s.subrange(i + 10, e))] + attrs(s, e + 1)
        } else {
            Seq::empty()
        }
    } else if rate_at(s, i) {
        let e = find_from(s, i + 6, s[i + 5]);
        if i + 6 <= e < s.len() {
            seq![EcbAttr::Quote(s.subrange(i + 6, e))] + attrs(s, e + 1)
        } else {
            Seq::empty()
        }
    } else {
        attrs(s, i + 1)
    }
}

/// One scanned attribute, with its value bytes.
pub enum EcbToken {
    Time(Vec<u8>),
    Code(Vec<u8>),
    Quote(Vec<u8>),
}

pub open spec fn tok_view(t: EcbToken) -> EcbAttr {
    match t {
        EcbToken::Time(v) => EcbAttr::Time(v@),
        EcbToken::Code(v) => EcbAttr::Code(v@),
        EcbToken::Quote(v) => EcbAttr::Quote(v@),
    }
}

pub open spec fn toks_view(ts: Seq<EcbToken>) -> Seq<EcbAttr> {
    Seq::new(ts.len(), |i: int| tok_view(ts[i]))
}

fn copy_range(s: &[u8], a: usize, b: usize) -> (r: Vec<u8>)
    requires
        a <= b <= s@.len(),
    ensures
        r@ == s@.subrange(a as int, b as int),
{
    let mut out: Vec<u8> = Vec::new();
    let mut i: usize = a;
    while i < b
        invariant
            a <= i <= b <= s@.len(),
            out@ =~= s@.subrange(a as int, i as int),
        decreases b - i,
    {
        out.push(s[i]);
        proof {
            assert(out@ =~= s@.subrange(a as int, i as int + 1));
        }
        i = i + 1;
    }
    out
}

fn copy_bytes(v: &Vec<u8>) -> (r: Vec<u8>)
    ensures
        r@ == v@,
{
    let r = copy_range(v.as_slice(), 0, v.len());
    proof {
        assert(v@.subrange(0, v@.len() as int) =~= v@);
    }
    r
}

fn find_quote(s: &[u8], from: usize, q: u8) -> (r: usize)
    requires
        from <= s@.len(),
    ensures
        r as int == find_from(s@, from as int, q),
{
    let n = s.len();
    let mut i: usize = from;
    while i < n
        invariant
            from <= i <= n,
            n == s@.len(),
            find_from(s@, from as int, q) == find_from(s@, i as int, q),
        decreases n - i,
    {
        if s[i] == q {
            return i;
        }
        i = i + 1;
    }
    n
}

/// Scans the document for its `time`, `currency` and `rate` attributes.
pub fn scan_attrs(s: &[u8]) -> (r: Vec<EcbToken>)
    ensures
        toks_view(r@) == attrs(s@, 0),
{
    let n = s.len();
    let mut out: Vec<EcbToken> = Vec::new();
    let mut i: usize = 0;
    while i < n
        invariant
            i <= n,
            n == s@.len(),
            toks_view(out@) + attrs(s@, i as int) =~= attrs(s@, 0),
        decreases n - i,
    {
        let ghost i0 = i as int;
        let ghost out0 = out@;
        if n - i >= 6 && s[i] == 116 && s[i + 1] == 105 && s[i + 2] == 109 && s[i + 3] == 101
            && s[i + 4] == 61 && (s[i + 5] == 39 || s[i + 5] == 34) {
            proof {
                assert(time_at(s@, i0));
                lemma_find_from(s@, i0 + 6, s@[i0 + 5]);
            }
            let e = find_quote(s, i + 6, s[i + 5]);
            if e >= n {
                proof {
                    assert(attrs(s@, i0) =~= Seq::<EcbAttr>::empty());
                    assert(toks_view(out@) =~= attrs(s@, 0));
                }
                return out;
            }
            out.push(EcbToken::Time(copy_range(s, i + 6, e)));
            proof {
                assert(toks_view(out@) =~= toks_view(out0).push(
                    EcbAttr::Time(s@.subrange(i0 + 6, e as int)),
                ));
                assert(attrs(s@, i0) =~= seq![EcbAttr::Time(s@.subrange(i0 + 6, e as int))]
                    + attrs(s@, e as int + 1));
                assert(toks_view(out@) + attrs(s@, e as int + 1) =~= toks_view(out0) + attrs(
                    s@,
                    i0,
                ));
            }
            i = e + 1;
        } else if n - i >= 10 && s[i] == 99 && s[i + 1] == 117 && s[i + 2] == 114 && s[i + 3]
            == 114 && s[i + 4] == 101 && s[i + 5] == 110 && s[i + 6] == 99 && s[i + 7] == 121
            && s[i + 8] == 61 && (s[i + 9] == 39 || s[i + 9] == 34) {
            proof {
                assert(currency_at(s@, i0));
                assert(!time_at(s@, i0));
                lemma_find_from(s@, i0 + 10, s@[i0 + 9]);
            }
            let e = find_quote(s, i + 10, s[i + 9]);
            if e >= n {
                proof {
                    assert(attrs(s@, i0) =~= Seq::<EcbAttr>::empty());
                    assert(toks_view(out@) =~= attrs(s@, 0));
                }
                return out;
            }
            out.push(EcbToken::Code(copy_range(s, i + 10, e)));
            proof {
                assert(toks_view(out@) =~= toks_view(out0).push(
                    EcbAttr::Code(s@.subrange(i0 + 10, e as int)),
                ));
                assert(attrs(s@, i0) =~= seq![EcbAttr::Code(s@.subrange(i0 + 10, e as int))]
                    + attrs(s@, e as int + 1));
                assert(toks_view(out@) + attrs(s@, e as int + 1) =~= toks_view(out0) + attrs(
                    s@,
                    i0,
                ));
            }
            i = e + 1;
        } else if n - i >= 6 && s[i] == 114 && s[i + 1] == 97 && s[i + 2] == 116 && s[i + 3] == 101
            && s[i + 4] == 61 && (s[i + 5] == 39 || s[i + 5] == 34) {
            proof {
                assert(rate_at(s@, i0));
                assert(!time_at(s@, i0) && !currency_at(s@, i0));
                lemma_find_from(s@, i0 + 6, s@[i0 + 5]);
            }
            let e = find_quote(s, i + 6, s[i + 5]);
            if e >= n {
                proof {
                    assert(attrs(s@, i0) =~= Seq::<EcbAttr>::empty());
                    assert(toks_view(out@) =~= attrs(s@, 0));
                }
                return out;
            }
            out.push(EcbToken::Quote(copy_range(s, i + 6, e)));
            proof {
                assert(toks_view(out@) =~= toks_view(out0).push(
                    EcbAttr::Quote(s@.subrange(i0 + 6, e as int)),
                ));
                assert(attrs(s@, i0) =~= seq![EcbAttr::Quote(s@.subrange(i0 + 6, e as int))]
                    + attrs(s@, e as int + 1));
                assert(toks_view(out@) + attrs(s@, e as int + 1) =~= toks_view(out0) + attrs(
                    s@,
                    i0,
                ));
            }
            i = e + 1;
        } else {
            proof {
                assert(!time_at(s@, i0) && !currency_at(s@, i0) && !rate_at(s@, i0));
                assert(attrs(s@, i0) =~= attrs(s@, i0 + 1));
            }
            i = i + 1;
        }
    }
    proof {
        assert(attrs(s@, n as int) =~= Seq::<EcbAttr>::empty());
        assert(toks_view(out@) =~= attrs(s@, 0));
    }
    out
}

/// Value of a `Code` attribute (empty for the other kinds).
pub open spec fn code_val(e: EcbAttr) -> Seq<u8> {
    match e {
        EcbAttr::Code(c) => c,
        _ => Seq::empty(),
    }
}

/// Groups the attribute stream into days: a `time` attribute opens a day;
/// a `rate` attribute directly preceded by a `currency` attribute adds that
/// pair to the open day; anything unattached is dropped.
pub open spec fn group_days(a: Seq<EcbAttr>) -> Seq<(Seq<u8>, Seq<(Seq<u8>, Seq<u8>)>)>
    decreases a.len(),
{
    if a.len() == 0 {
        Seq::empty()
    } else {
        let rest = group_days(a.drop_last());
        match a.last() {
            EcbAttr::Time(tv) => rest.push((tv, Seq::empty())),
            EcbAttr::Code(_) => rest,
            EcbAttr::Quote(rv) => {
                if a.len() >= 2 && (a[a.len() - 2] is Code) && rest.len() > 0 {
                    rest.update(
                        rest.len() - 1,
                        (rest.last().0, rest.last().1.push((code_val(a[a.len() - 2]), rv))),
                    )
                } else {
                    rest
                }
            },
        }
    }
}

pub open spec fn pairs_view(v: Seq<(Vec<u8>, Vec<u8>)>) -> Seq<(Seq<u8>, Seq<u8>)> {
    Seq::new(v.len(), |i: int| (v[i].0@, v[i].1@))
}

pub open spec fn days_view(v: Seq<(Vec<u8>, Vec<(Vec<u8>, Vec<u8>)>)>) -> Seq<
    (Seq<u8>, Seq<(Seq<u8>, Seq<u8>)>),
> {
    Seq::new(v.len(), |i: int| (v[i].0@, pairs_view(v[i].1@)))
}

/// Groups the scanned attributes into raw days.
pub fn group_tokens(toks: &Vec<EcbToken>) -> (r: Vec<(Vec<u8>, Vec<(Vec<u8>, Vec<u8>)>)>)
    ensures
        days_view(r@) == group_days(toks_view(toks@)),
{
    let n = toks.len();
    let mut out: Vec<(Vec<u8>, Vec<(Vec<u8>, Vec<u8>)>)> = Vec::new();
    let mut pending: Option<Vec<u8>> = None;
    let mut i: usize = 0;
    while i < n
        invariant
            i <= n,
            n == toks@.len(),
            days_view(out@) =~~= group_days(toks_view(toks@).subrange(0, i as int)),
            pending is Some <==> (i >= 1 && toks_view(toks@)[i - 1] is Code),
            pending matches Some(c) ==> i >= 1 && toks_view(toks@)[i - 1] == EcbAttr::Code(c@),
        decreases n - i,
    {
        let ghost a = toks_view(toks@);
        let ghost pre = a.subrange(0, i as int);
        let ghost pre1 = a.subrange(0, i as int + 1);
        proof {
            assert(pre1.drop_last() =~= pre);
            assert(pre1.last() == a[i as int]);
        }
        let ghost out0 = out@;
        match &toks[i] {
            EcbToken::Time(v) => {
                out.push((copy_bytes(v), Vec::new()));
                proof {
                    assert(days_view(out@) =~~= days_view(out0).push((v@, Seq::empty())));
                }
                pending = None;
            },
            EcbToken::Code(v) => {
                pending = Some(copy_bytes(v));
            },
            EcbToken::Quote(v) => {
                let attach = pending.is_some() && out.len() > 0;
                if attach {
                    let code = match pending {
                        Some(c) => c,
                        None => Vec::new(),
                    };
                    let k = out.len() - 1;
                    let ghost oldday = out@[k as int];
                    out[k].1.push((code, copy_bytes(v)));
                    proof {
                        assert(out@[k as int].0@ == oldday.0@);
                        assert(pairs_view(out@[k as int].1@) =~~= pairs_view(oldday.1@).push(
                            (code_val(a[i as int - 1]), v@),
                        ));
                        assert(days_view(out@) =~~= days_view(out0).update(
                            k as int,
                            (
                                days_view(out0).last().0,
                                days_view(out0).last().1.push((code_val(a[i as int - 1]), v@)),
                            ),
                        ));
                        assert(pre1.len() >= 2 && pre1[pre1.len() - 2] is Code);
                        assert(pre1[pre1.len() - 2] == a[i as int - 1]);
                    }
                    pending = None;
                } else {
                    proof {
                        if i as int >= 1 && pre1.len() >= 2 && pre1[pre1.len() - 2] is Code {
                            assert(pending is Some);
                        }
                        assert(days_view(out@) =~~= group_days(pre1));
                    }
                    pending = None;
                }
            },
        }
        i = i + 1;
    }
    proof {
        assert(toks_view(toks@).subrange(0, n as int) =~= toks_view(toks@));
    }
    out
}

pub open spec fn bytes_chars(b: Seq<u8>) -> Seq<char> {
    Seq::new(b.len(), |i: int| b[i] as char)
}

/// A usable currency/rate pair: a nonempty ASCII code and a positive
/// decimal quote of at most eighteen digits.
pub open spec fn pair_ok(p: (Seq<u8>, Seq<u8>)) -> bool {
    &&& p.0.len() >= 1
    &&& forall|i: int| 0 <= i < p.0.len() ==> p.0[i] < 128
    &&& decimal_shape(p.1)
    &&& mantissa(p.1).len() <= 18
    &&& decimal_num(p.1) >= 1
}

pub open spec fn spec_quote(b: Seq<u8>) -> Rate {
    Rate { num: decimal_num(b) as u64, den: decimal_den(b) as u64 }
}

/// The day's quotes against the native pivot: EUR at one, then each listed
/// pair, later pairs overriding earlier ones.
pub open spec fn native_map(pairs: Seq<(Seq<u8>, Seq<u8>)>) -> Map<Seq<char>, Rate>
    decreases pairs.len(),
{
    if pairs.len() == 0 {
        Map::empty().insert("EUR"@, Rate { num: 1, den: 1 })
    } else {
        native_map(pairs.drop_last()).insert(
            bytes_chars(pairs.last().0),
            spec_quote(pairs.last().1),
        )
    }
}

/// The raw day parses: a valid ISO date and usable pairs throughout.
pub open spec fn raw_day_ok(d: (Seq<u8>, Seq<(Seq<u8>, Seq<u8>)>)) -> bool {
    &&& iso_shape(d.0)
    &&& is_valid_ymd(iso_year(d.0), iso_month(d.0), iso_day(d.0))
    &&& forall|j: int| 0 <= j < d.1.len() ==> pair_ok(#[trigger] d.1[j])
}

/// The day quotes the internal pivot, so it can be triangulated.
pub open spec fn day_has_pivot(d: (Seq<u8>, Seq<(Seq<u8>, Seq<u8>)>)) -> bool {
    native_map(d.1).contains_key("USD"@)
}

/// The snapshot is the day triangulated into the internal pivot: the pivot
/// itself at exactly one, every other listed currency divided by the day's
/// pivot quote.
pub open spec fn day_matches(d: (Seq<u8>, Seq<(Seq<u8>, Seq<u8>)>), od: DailyRates) -> bool {
    let nm = native_map(d.1);
    &&& od.wf()
    &&& od.date.year as int == iso_year(d.0)
    &&& od.date.month as int == iso_month(d.0)
    &&& od.date.day as int == iso_day(d.0)
    &&& od.base_currency@ == "USD"@
    &&& od.provider@ == "ecb"@
    &&& od.rates.as_map().dom() =~= nm.dom().insert("USD"@)
    &&& od.rates.as_map()["USD"@] == Rate { num: 1, den: 1 }
    &&& crate::convert::is_recip(od.rates.as_map()["EUR"@], nm["USD"@])
    &&& forall|c: Seq<char>|
        #[trigger] od.rates.as_map().contains_key(c) && c != "USD"@ && c != "EUR"@
            ==> is_quotient(od.rates.as_map()[c], nm[c], nm["USD"@])
}

/// The output snapshots are exactly the pivot-bearing days, in order.
pub open spec fn built(g: Seq<(Seq<u8>, Seq<(Seq<u8>, Seq<u8>)>)>, out: Seq<DailyRates>) -> bool
    decreases g.len(),
{
    if g.len() == 0 {
        out.len() == 0
    } else if day_has_pivot(g.last()) {
        out.len() > 0 && built(g.drop_last(), out.drop_last()) && day_matches(
            g.last(),
            out.last(),
        )
    } else {
        built(g.drop_last(), out)
    }
}

pub proof fn lemma_native_has_eur(pairs: Seq<(Seq<u8>, Seq<u8>)>)
    ensures
        native_map(pairs).contains_key("EUR"@),
    decreases pairs.len(),
{
    if pairs.len() > 0 {
        lemma_native_has_eur(pairs.drop_last());
    }
}

fn is_ascii_code(v: &Vec<u8>) -> (r: bool)
    ensures
        r <==> (v@.len() >= 1 && forall|i: int| 0 <= i < v@.len() ==> v@[i] < 128),
{
    let n = v.len();
    if n == 0 {
        return false;
    }
    let mut i: usize = 0;
    while i < n
        invariant
            i <= n,
            n == v@.len(),
            forall|j: int| 0 <= j < i ==> v@[j] < 128,
        decreases n - i,
    {
        if v[i] >= 128 {
            return false;
        }
        i = i + 1;
    }
    true
}

/// Builds the day's native table: EUR at one, then every listed pair.
fn build_native(pairs: &Vec<(Vec<u8>, Vec<u8>)>) -> (r: Result<RateTable, AppError>)
    ensures
        r is Ok <==> forall|j: int| 0 <= j < pairs_view(pairs@).len() ==> pair_ok(
            #[trigger] pairs_view(pairs@)[j],
        ),
        r matches Ok(tbl) ==> {
            &&& tbl.wf()
            &&& forall|j: int| 0 <= j < tbl.entries@.len() ==> (#[trigger] tbl.entries@[j]).1.pos()
            &&& tbl.as_map() == native_map(pairs_view(pairs@))
        },
        r matches Err(e) ==> e is Parse,
{
    let n = pairs.len();
    let mut native = RateTable::new();
    native.upsert(String::from_str("EUR"), Rate::one());
    proof {
        assert(native.as_map() =~= native_map(pairs_view(pairs@).subrange(0, 0)));
    }
    let mut i: usize = 0;
    while i < n
        invariant
            i <= n,
            n == pairs@.len(),
            native.wf(),
            forall|c: Seq<char>|
                native.as_map().contains_key(c) ==> (#[trigger] native.as_map()[c]).pos(),
            native.as_map() == native_map(pairs_view(pairs@).subrange(0, i as int)),
            forall|j: int| 0 <= j < i ==> pair_ok(#[trigger] pairs_view(pairs@)[j]),
        decreases n - i,
    {
        let ghost pv = pairs_view(pairs@);
        proof {
            assert(pv.subrange(0, i as int + 1).drop_last() =~= pv.subrange(0, i as int));
            assert(pv.subrange(0, i as int + 1).last() == pv[i as int]);
        }
        if !is_ascii_code(&pairs[i].0) {
            return Err(AppError::Parse(String::from_str("malformed currency code")));
        }
        let rate = match parse_decimal(pairs[i].1.as_slice()) {
            Some(rt) => rt,
            None => {
                return Err(AppError::Parse(String::from_str("malformed rate value")));
            },
        };
        if rate.num == 0 {
            return Err(AppError::Parse(String::from_str("rate of zero")));
        }
        let code = crate::text::ascii_to_string(copy_bytes(&pairs[i].0));
        proof {
            assert(code@ =~= bytes_chars(pv[i as int].0));
            assert(rate == spec_quote(pv[i as int].1));
        }
        native.upsert(code, rate);
        i = i + 1;
    }
    proof {
        assert(pairs_view(pairs@).subrange(0, n as int) =~= pairs_view(pairs@));
        assert forall|j: int| 0 <= j < native.entries@.len() implies (
        #[trigger] native.entries@[j]).1.pos() by {
            native.lemma_view();
        }
    }
    Ok(native)
}

/// Parses the rate document and triangulates each usable day into the
/// internal pivot. A malformed date or quote fails the whole document; a
/// day without a pivot quote is skipped.
pub fn parse_xml(xml: &[u8]) -> (r: Result<Vec<DailyRates>, AppError>)
    ensures
        r is Ok <==> {
            let g = group_days(attrs(xml@, 0));
            &&& forall|j: int| 0 <= j < g.len() ==> raw_day_ok(#[trigger] g[j])
            &&& forall|j: int|
                0 <= j < g.len() && day_has_pivot(#[trigger] g[j]) ==> crate::convert::convert_fits(
                    native_map(g[j].1),
                    "USD"@,
                )
        },
        r matches Ok(days) ==> {
            let g = group_days(attrs(xml@, 0));
            &&& forall|j: int| 0 <= j < g.len() ==> raw_day_ok(#[trigger] g[j])
            &&& built(g, days@)
            &&& forall|k: int| 0 <= k < days@.len() ==> (#[trigger] days@[k]).wf()
        },
        r matches Err(e) ==> e is Parse || e is Internal,
        r matches Err(AppError::Parse(_)) ==> exists|j: int|
            0 <= j < group_days(attrs(xml@, 0)).len() && !raw_day_ok(
                #[trigger] group_days(attrs(xml@, 0))[j],
            ),
{
    let toks = scan_attrs(xml);
    let groups = group_tokens(&toks);
    let ghost g = group_days(attrs(xml@, 0));
    proof {
        reveal_strlit("EUR");
        reveal_strlit("USD");
        assert("EUR"@ != "USD"@) by {
            assert(("EUR"@)[0] == 'E');
            assert(("USD"@)[0] == 'U');
            if "EUR"@ == "USD"@ {
                assert(("EUR"@)[0] == ("USD"@)[0]);
            }
        }
    }
    let n = groups.len();
    let mut out: Vec<DailyRates> = Vec::new();
    let mut i: usize = 0;
    while i < n
        invariant
            i <= n,
            n == groups@.len(),
            days_view(groups@) == g,
            g == group_days(attrs(xml@, 0)),
            "EUR"@ != "USD"@,
            built(g.subrange(0, i as int), out@),
            forall|j: int| 0 <= j < i ==> raw_day_ok(#[trigger] g[j]),
            forall|j: int|
                0 <= j < i && day_has_pivot(#[trigger] g[j]) ==> crate::convert::convert_fits(
                    native_map(g[j].1),
                    "USD"@,
                ),
            forall|k: int| 0 <= k < out@.len() ==> (#[trigger] out@[k]).wf(),
        decreases n - i,
    {
        let ghost pre1 = g.subrange(0, i as int + 1);
        proof {
            assert(pre1.drop_last() =~= g.subrange(0, i as int));
            assert(pre1.last() == g[i as int]);
        }
        let date = match parse_iso_date(groups[i].0.as_slice()) {
            Some(d) => d,
            None => {
                proof {
                    assert(g[i as int] == days_view(groups@)[i as int]);
                    assert(g[i as int].0 == groups@[i as int].0@);
                    assert(!raw_day_ok(g[i as int]));
                }
                return Err(AppError::Parse(String::from_str("malformed date")));
            },
        };
        let native = match build_native(&groups[i].1) {
            Ok(tbl) => tbl,
            Err(e) => {
                proof {
                    assert(g[i as int] == days_view(groups@)[i as int]);
                    assert(g[i as int].1 == pairs_view(groups@[i as int].1@));
                    assert(!raw_day_ok(g[i as int]));
                }
                return Err(e);
            },
        };
        proof {
            assert(g[i as int] == days_view(groups@)[i as int]);
            assert(g[i as int].0 == groups@[i as int].0@);
            assert(g[i as int].1 == pairs_view(groups@[i as int].1@));
            assert(raw_day_ok(g[i as int]));
        }
        if native.get("USD").is_none() {
            proof {
                assert(!day_has_pivot(g[i as int]));
                assert(built(pre1, out@));
            }
            i = i + 1;
            continue ;
        }
        let mut conv = match convert_base_currency(&native, "EUR", "USD") {
            Ok(tbl) => tbl,
            Err(e) => {
                proof {
                    if e is InvalidCurrency {
                        assert(native.as_map().contains_key("USD"@));
                    }
                    assert(native_map(g[i as int].1) == native.as_map());
                    assert(day_has_pivot(g[i as int]));
                    assert(!crate::convert::convert_fits(native_map(g[i as int].1), "USD"@));
                }
                return Err(e);
            },
        };
        let ghost conv0 = conv.as_map();
        proof {
            assert forall|c: Seq<char>| #[trigger] conv0.contains_key(c) implies
                conv0[c].pos() by {
                conv.lemma_view();
            }
        }
        conv.upsert(String::from_str("USD"), Rate::one());
        let od = DailyRates {
            date,
            base_currency: String::from_str("USD"),
            rates: conv,
            provider: String::from_str("ecb"),
        };
        proof {
            reveal_strlit("EUR");
            reveal_strlit("USD");
            assert("EUR"@ != "USD"@) by {
                assert(("EUR"@)[0] == 'E');
                assert(("USD"@)[0] == 'U');
                if "EUR"@ == "USD"@ {
                    assert(("EUR"@)[0] == ("USD"@)[0]);
                }
            }
            let nm = native_map(g[i as int].1);
            assert(nm == native.as_map());
            assert(crate::convert::convert_fits(nm, "USD"@));
            lemma_native_has_eur(g[i as int].1);
            assert(crate::convert::converted(nm, conv0, "EUR"@, "USD"@));
            assert(od.rates.as_map() == conv0.insert("USD"@, Rate { num: 1, den: 1 }));
            assert(od.rates.as_map().dom() =~= nm.dom().insert("USD"@));
            assert(od.rates.as_map()["EUR"@] == conv0["EUR"@]);
            assert(crate::convert::is_recip(od.rates.as_map()["EUR"@], nm["USD"@]));
            assert forall|c: Seq<char>|
                #[trigger] od.rates.as_map().contains_key(c) && c != "USD"@ && c != "EUR"@
                implies is_quotient(od.rates.as_map()[c], nm[c], nm["USD"@]) by {
            }
            assert(od.wf()) by {
                assert forall|j: int| 0 <= j < od.rates.entries@.len() implies (
                #[trigger] od.rates.entries@[j]).1.pos() by {
                    od.rates.lemma_view();
                    let c = od.rates.entries@[j].0@;
                    assert(od.rates.as_map().contains_key(c));
                    assert(od.rates.as_map()[c] == od.rates.entries@[j].1);
                    if c != "USD"@ {
                        assert(conv0.contains_key(c) && od.rates.as_map()[c] == conv0[c]);
                    }
                }
            }
            assert(day_matches(g[i as int], od));
        }
        let ghost out_before = out@;
        out.push(od);
        proof {
            assert(day_has_pivot(g[i as int])) by {
                assert(native.as_map().contains_key("USD"@));
            }
            assert(out@.drop_last() =~= out_before);
            assert(out@.last() == od);
            assert(day_matches(g[i as int], od));
            assert(built(pre1, out@));
        }
        i = i + 1;
    }
    proof {
        assert(g.subrange(0, n as int) =~= g);
    }
    Ok(out)
}



/// The three upstream endpoints: a single-latest document, a rolling
/// ninety-day document, and the full history.
pub enum EcbEndpoint {
    Daily,
    Recent90,
    FullHistory,
}

/// Chooses the range endpoint: the rolling ninety-day document serves any
/// window starting no further back than ninety days before the reference
/// day; an older start needs the full history.
pub fn choose_range_endpoint(start: Date, today: Date) -> (r: EcbEndpoint)
    ensures
        r is Recent90 <==> start.index() + 90 >= today.index(),
        r is FullHistory <==> start.index() + 90 < today.index(),
{
    if start.day_index() as u64 + 90 >= today.day_index() as u64 {
        EcbEndpoint::Recent90
    } else {
        EcbEndpoint::FullHistory
    }
}

pub fn endpoint_url(e: &EcbEndpoint) -> (r: &'static str)
    ensures
        e is Daily ==> r@ == "https://www.ecb.europa.eu/stats/eurofxref/eurofxref-daily.xml"@,
        e is Recent90 ==> r@ == "https://www.ecb.europa.eu/stats/eurofxref/eurofxref-hist-90d.xml"@,
        e is FullHistory ==> r@ == "https://www.ecb.europa.eu/stats/eurofxref/eurofxref-hist.xml"@,
{
    match e {
        EcbEndpoint::Daily => "https://www.ecb.europa.eu/stats/eurofxref/eurofxref-daily.xml",
        EcbEndpoint::Recent90 => "https://www.ecb.europa.eu/stats/eurofxref/eurofxref-hist-90d.xml",
        EcbEndpoint::FullHistory => "https://www.ecb.europa.eu/stats/eurofxref/eurofxref-hist.xml",
    }
}

/// The currencies this source publishes against its native pivot.
pub fn supported_currencies() -> (r: Vec<Currency>)
    ensures
        r@.len() == 31,
        r@[0].code@ == "EUR"@ && r@[0].name@ == "Euro"@,
        r@[1].code@ == "USD"@ && r@[1].name@ == "US Dollar"@,
        r@[2].code@ == "JPY"@ && r@[2].name@ == "Japanese Yen"@,
        r@[3].code@ == "BGN"@ && r@[3].name@ == "Bulgarian Lev"@,
        r@[4].code@ == "CZK"@ && r@[4].name@ == "Czech Koruna"@,
        r@[5].code@ == "DKK"@ && r@[5].name@ == "Danish Krone"@,
        r@[6].code@ == "GBP"@ && r@[6].name@ == "British Pound"@,
        r@[7].code@ == "HUF"@ && r@[7].name@ == "Hungarian Forint"@,
        r@[8].code@ == "PLN"@ && r@[8].name@ == "Polish Zloty"@,
        r@[9].code@ == "RON"@ && r@[9].name@ == "Romanian Leu"@,
        r@[10].code@ == "SEK"@ && r@[10].name@ == "Swedish Krona"@,
        r@[11].code@ == "CHF"@ && r@[11].name@ == "Swiss Franc"@,
        r@[12].code@ == "ISK"@ && r@[12].name@ == "Icelandic Krona"@,
        r@[13].code@ == "NOK"@ && r@[13].name@ == "Norwegian Krone"@,
        r@[14].code@ == "TRY"@ && r@[14].name@ == "Turkish Lira"@,
        r@[15].code@ == "AUD"@ && r@[15].name@ == "Australian Dollar"@,
        r@[16].code@ == "BRL"@ && r@[16].name@ == "Brazilian Real"@,
        r@[17].code@ == "CAD"@ && r@[17].name@ == "Canadian Dollar"@,
        r@[18].code@ == "CNY"@ && r@[18].name@ == "Chinese Yuan"@,
        r@[19].code@ == "HKD"@ && r@[19].name@ == "Hong Kong Dollar"@,
        r@[20].code@ == "IDR"@ && r@[20].name@ == "Indonesian Rupiah"@,
        r@[21].code@ == "ILS"@ && r@[21].name@ == "Israeli Shekel"@,
        r@[22].code@ == "INR"@ && r@[22].name@ == "Indian Rupee"@,
        r@[23].code@ == "KRW"@ && r@[23].name@ == "South Korean Won"@,
        r@[24].code@ == "MXN"@ && r@[24].name@ == "Mexican Peso"@,
        r@[25].code@ == "MYR"@ && r@[25].name@ == "Malaysian Ringgit"@,
        r@[26].code@ == "NZD"@ && r@[26].name@ == "New Zealand Dollar"@,
        r@[27].code@ == "PHP"@ && r@[27].name@ == "Philippine Peso"@,
        r@[28].code@ == "SGD"@ && r@[28].name@ == "Singapore Dollar"@,
        r@[29].code@ == "THB"@ && r@[29].name@ == "Thai Baht"@,
        r@[30].code@ == "ZAR"@ && r@[30].name@ == "South African Rand"@,
{
    let mut out: Vec<Currency> = Vec::new();
    out.push(Currency { code: String::from_str("EUR"), name: String::from_str("Euro") });
    out.push(Currency { code: String::from_str("USD"), name: String::from_str("US Dollar") });
    out.push(Currency { code: String::from_str("JPY"), name: String::from_str("Japanese Yen") });
    out.push(Currency { code: String::from_str("BGN"), name: String::from_str("Bulgarian Lev") });
    out.push(Currency { code: String::from_str("CZK"), name: String::from_str("Czech Koruna") });
    out.push(Currency { code: String::from_str("DKK"), name: String::from_str("Danish Krone") });
    out.push(Currency { code: String::from_str("GBP"), name: String::from_str("British Pound") });
    out.push(Currency { code: String::from_str("HUF"), name: String::from_str("Hungarian Forint") });
    out.push(Currency { code: String::from_str("PLN"), name: String::from_str("Polish Zloty") });
    out.push(Currency { code: String::from_str("RON"), name: String::from_str("Romanian Leu") });
    out.push(Currency { code: String::from_str("SEK"), name: String::from_str("Swedish Krona") });
    out.push(Currency { code: String::from_str("CHF"), name: String::from_str("Swiss Franc") });
    out.push(Currency { code: String::from_str("ISK"), name: String::from_str("Icelandic Krona") });
    out.push(Currency { code: String::from_str("NOK"), name: String::from_str("Norwegian Krone") });
    out.push(Currency { code: String::from_str("TRY"), name: String::from_str("Turkish Lira") });
    out.push(Currency { code: String::from_str("AUD"), name: String::from_str("Australian Dollar") });
    out.push(Currency { code: String::from_str("BRL"), name: String::from_str("Brazilian Real") });
    out.push(Currency { code: String::from_str("CAD"), name: String::from_str("Canadian Dollar") });
    out.push(Currency { code: String::from_str("CNY"), name: String::from_str("Chinese Yuan") });
    out.push(Currency { code: String::from_str("HKD"), name: String::from_str("Hong Kong Dollar") });
    out.push(Currency { code: String::from_str("IDR"), name: String::from_str("Indonesian Rupiah") });
    out.push(Currency { code: String::from_str("ILS"), name: String::from_str("Israeli Shekel") });
    out.push(Currency { code: String::from_str("INR"), name: String::from_str("Indian Rupee") });
    out.push(Currency { code: String::from_str("KRW"), name: String::from_str("South Korean Won") });
    out.push(Currency { code: String::from_str("MXN"), name: String::from_str("Mexican Peso") });
    out.push(Currency { code: String::from_str("MYR"), name: String::from_str("Malaysian Ringgit") });
    out.push(Currency { code: String::from_str("NZD"), name: String::from_str("New Zealand Dollar") });
    out.push(Currency { code: String::from_str("PHP"), name: String::from_str("Philippine Peso") });
    out.push(Currency { code: String::from_str("SGD"), name: String::from_str("Singapore Dollar") });
    out.push(Currency { code: String::from_str("THB"), name: String::from_str("Thai Baht") });
    out.push(Currency { code: String::from_str("ZAR"), name: String::from_str("South African Rand") });
    out
}

} // verus!
