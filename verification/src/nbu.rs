//! The UAH-pivoted source adapter: parses the flat per-currency JSON record
//! lists and triangulates them into the internal pivot.
//!
//! Quotes arrive as "UAH per 1 unit of the foreign currency", so the
//! triangulation divides: the internal rate of a currency is the source's
//! internal-pivot quote divided by that currency's quote. The internal-pivot
//! quote is the critical cross rate and has no fallback.

use vstd::prelude::*;
use crate::date::Date;
use crate::error::AppError;
use crate::models::DailyRates;
use crate::parse::{
    parse_decimal, parse_dotted_date, decimal_shape, mantissa, decimal_num, decimal_den,
    dotted_shape, dotted_year, dotted_month, dotted_day,
};
use crate::rate::{Rate, is_quotient};
use crate::table::RateTable;
use crate::ecb::{bytes_chars, find_from, lemma_find_from, spec_quote};

verus! {

/// One meaningful token of the record list.
pub enum NbuAttr {
    Open,
    Close,
    DateA(Seq<u8>),
    CcA(Seq<u8>),
    RateA(Seq<u8>),
    RateUA(Seq<u8>),
}

/// `"exchangedate":"` starts at `i`.
pub open spec fn date_key_at(s: Seq<u8>, i: int) -> bool {
    &&& i + 16 <= s.len()
    &&& s[i] == 34
    &&& s[i + 1] == 101
    &&& s[i + 2] == 120
    &&& s[i + 3] == 99
    &&& s[i + 4] == 104
    &&& s[i + 5] == 97
    &&& s[i + 6] == 110
    &&& s[i + 7] == 103
    &&& s[i + 8] == 101
    &&& s[i + 9] == 100
    &&& s[i + 10] == 97
    &&& s[i + 11] == 116
    &&& s[i + 12] == 101
    &&& s[i + 13] == 34
    &&& s[i + 14] == 58
    &&& s[i + 15] == 34
}

/// `"cc":"` starts at `i`.
pub open spec fn cc_key_at(s: Seq<u8>, i: int) -> bool {
    &&& i + 6 <= s.len()
    &&& s[i] == 34
    &&& s[i + 1] == 99
    &&& s[i + 2] == 99
    &&& s[i + 3] == 34
    &&& s[i + 4] == 58
    &&& s[i + 5] == 34
}

/// `"rate_per_unit":` starts at `i`.
pub open spec fn rate_unit_key_at(s: Seq<u8>, i: int) -> bool {
    &&& i + 16 <= s.len()
    &&& s[i] == 34
    &&& s[i + 1] == 114
    &&& s[i + 2] == 97
    &&& s[i + 3] == 116
    &&& s[i + 4] == 101
    &&& s[i + 5] == 95
    &&& s[i + 6] == 112
    &&& s[i + 7] == 101
    &&& s[i + 8] == 114
    &&& s[i + 9] == 95
    &&& s[i + 10] == 117
    &&& s[i + 11] == 110
    &&& s[i + 12] == 105
    &&& s[i + 13] == 116
    &&& s[i + 14] == 34
    &&& s[i + 15] == 58
}

/// `"rate":` starts at `i`.
pub open spec fn rate_key_at(s: Seq<u8>, i: int) -> bool {
    &&& i + 7 <= s.len()
    &&& s[i] == 34
    &&& s[i + 1] == 114
    &&& s[i + 2] == 97
    &&& s[i + 3] == 116
    &&& s[i + 4] == 101
    &&& s[i + 5] == 34
    &&& s[i + 6] == 58
}

/// Position of the first number-terminating byte (comma, closing brace or
/// closing bracket) at or after `i`.
pub open spec fn find_num_end(s: Seq<u8>, i: int) -> int
    decreases s.len() - i when 0 <= i
{
    if i >= s.len() {
        s.len() as int
    } else if s[i] == 44 || s[i] == 125 || s[i] == 93 {
        i
    } else {
        find_num_end(s, i + 1)
    }
}

pub proof fn lemma_find_num_end(s: Seq<u8>, i: int)
    requires
        0 <= i <= s.len(),
    ensures
        i <= find_num_end(s, i) <= s.len(),
    decreases s.len() - i,
{
    if i < s.len() && !(s[i] == 44 || s[i] == 125 || s[i] == 93) {
        lemma_find_num_end(s, i + 1);
    }
}

/// The tokens of the record list from position `i` on. An unterminated
/// value ends the stream.
pub open spec fn nbu_attrs(s: Seq<u8>, i: int) -> Seq<NbuAttr>
    decreases s.len() - i when 0 <= i
{
    if i >= s.len() {
        Seq::empty()
    } else if s[i] == 123 {
        seq![NbuAttr::Open] + nbu_attrs(s, i + 1)
    } else if s[i] == 125 {
        seq![NbuAttr::Close] + nbu_attrs(s, i + 1)
    } else if date_key_at(s, i) {
        let e = find_from(s, i + 16, 34);
        if i + 16 <= e < s.len() {
            seq![NbuAttr::DateA(s.subrange(i + 16, e))] + nbu_attrs(s, e + 1)
        } else {
            Seq::empty()
        }
    } else if cc_key_at(s, i) {
        let e = find_from(s, i + 6, 34);
        if i + 6 <= e < s.len() {
            seq![NbuAttr::CcA(s.subrange(i + 6, e))] + nbu_attrs(s, e + 1)
        } else {
            Seq::empty()
        }
    } else if rate_unit_key_at(s, i) {
        let e = find_num_end(s, i + 16);
        if i + 16 <= e <= s.len() {
            seq![NbuAttr::RateUA(s.subrange(i + 16, e))] + nbu_attrs(s, e)
        } else {
            Seq::empty()
        }
    } else if rate_key_at(s, i) {
        let e = find_num_end(s, i + 7);
        if i + 7 <= e <= s.len() {
            seq![NbuAttr::RateA(s.subrange(i + 7, e))] + nbu_attrs(s, e)
        } else {
            Seq::empty()
        }
    } else {
        nbu_attrs(s, i + 1)
    }
}

/// One scanned token, with its value bytes.
pub enum NbuToken {
    Open,
    Close,
    DateV(Vec<u8>),
    CcV(Vec<u8>),
    RateV(Vec<u8>),
    RateUV(Vec<u8>),
}

pub open spec fn nbu_tok_view(t: NbuToken) -> NbuAttr {
    match t {
        NbuToken::Open => NbuAttr::Open,
        NbuToken::Close => NbuAttr::Close,
        NbuToken::DateV(v) => NbuAttr::DateA(v@),
        NbuToken::CcV(v) => NbuAttr::CcA(v@),
        NbuToken::RateV(v) => NbuAttr::RateA(v@),
        NbuToken::RateUV(v) => NbuAttr::RateUA(v@),
    }
}

pub open spec fn nbu_toks_view(ts: Seq<NbuToken>) -> Seq<NbuAttr> {
    Seq::new(ts.len(), |i: int| nbu_tok_view(ts[i]))
}

fn copy_range(s: &[u8], a: usize, b: usize) -> (r: Vec<u8>)
    requires
        a <= b <= s@.len(),
    ensures
        r@ == s@.subrange(a as int, b as int),
{
    let mut out: Vec<u8> = Vec::new();
    let mut i: usize = a;
    while i < b
        invariant
            a <= i <= b <= s@.len(),
            out@ =~= s@.subrange(a as int, i as int),
        decreases b - i,
    {
        out.push(s[i]);
        proof {
            assert(out@ =~= s@.subrange(a as int, i as int + 1));
        }
        i = i + 1;
    }
    out
}

fn find_quote_byte(s: &[u8], from: usize) -> (r: usize)
    requires
        from <= s@.len(),
    ensures
        r as int == find_from(s@, from as int, 34),
{
    let n = s.len();
    let mut i: usize = from;
    while i < n
        invariant
            from <= i <= n,
            n == s@.len(),
            find_from(s@, from as int, 34) == find_from(s@, i as int, 34),
        decreases n - i,
    {
        if s[i] == 34 {
            return i;
        }
        i = i + 1;
    }
    n
}

fn find_number_end(s: &[u8], from: usize) -> (r: usize)
    requires
        from <= s@.len(),
    ensures
        r as int == find_num_end(s@, from as int),
{
    let n = s.len();
    let mut i: usize = from;
    while i < n
        invariant
            from <= i <= n,
            n == s@.len(),
            find_num_end(s@, from as int) == find_num_end(s@, i as int),
        decreases n - i,
    {
        if s[i] == 44 || s[i] == 125 || s[i] == 93 {
            return i;
        }
        i = i + 1;
    }
    n
}

/// Scans the record list for its braces and the date, code and rate fields.
pub fn scan_records(s: &[u8]) -> (r: Vec<NbuToken>)
    ensures
        nbu_toks_view(r@) == nbu_attrs(s@, 0),
{
    let n = s.len();
    let mut out: Vec<NbuToken> = Vec::new();
    let mut i: usize = 0;
    while i < n
        invariant
            i <= n,
            n == s@.len(),
            nbu_toks_view(out@) + nbu_attrs(s@, i as int) =~= nbu_attrs(s@, 0),
        decreases n - i,
    {
        let ghost i0 = i as int;
        let ghost out0 = out@;
        if s[i] == 123 {
            out.push(NbuToken::Open);
            proof {
                assert(nbu_toks_view(out@) =~= nbu_toks_view(out0).push(NbuAttr::Open));
                assert(nbu_attrs(s@, i0) =~= seq![NbuAttr::Open] + nbu_attrs(s@, i0 + 1));
                assert(nbu_toks_view(out@) + nbu_attrs(s@, i0 + 1) =~= nbu_toks_view(out0)
                    + nbu_attrs(s@, i0));
            }
            i = i + 1;
        } else if s[i] == 125 {
            out.push(NbuToken::Close);
            proof {
                assert(nbu_toks_view(out@) =~= nbu_toks_view(out0).push(NbuAttr::Close));
                assert(nbu_attrs(s@, i0) =~= seq![NbuAttr::Close] + nbu_attrs(s@, i0 + 1));
                assert(nbu_toks_view(out@) + nbu_attrs(s@, i0 + 1) =~= nbu_toks_view(out0)
                    + nbu_attrs(s@, i0));
            }
            i = i + 1;
        } else if n - i >= 16 && s[i] == 34 && s[i + 1] == 101 && s[i + 2] == 120 && s[i + 3] == 99
            && s[i + 4] == 104 && s[i + 5] == 97 && s[i + 6] == 110 && s[i + 7] == 103 && s[i + 8]
            == 101 && s[i + 9] == 100 && s[i + 10] == 97 && s[i + 11] == 116 && s[i + 12] == 101
            && s[i + 13] == 34 && s[i + 14] == 58 && s[i + 15] == 34 {
            proof {
                assert(date_key_at(s@, i0));
                lemma_find_from(s@, i0 + 16, 34);
            }
            let e = find_quote_byte(s, i + 16);
            if e >= n {
                proof {
                    assert(nbu_attrs(s@, i0) =~= Seq::<NbuAttr>::empty());
                    assert(nbu_toks_view(out@) =~= nbu_attrs(s@, 0));
                }
                return out;
            }
            out.push(NbuToken::DateV(copy_range(s, i + 16, e)));
            proof {
                assert(nbu_toks_view(out@) =~= nbu_toks_view(out0).push(
                    NbuAttr::DateA(s@.subrange(i0 + 16, e as int)),
                ));
                assert(nbu_attrs(s@, i0) =~= seq![NbuAttr::DateA(s@.subrange(i0 + 16, e as int))]
                    + nbu_attrs(s@, e as int + 1));
                assert(nbu_toks_view(out@) + nbu_attrs(s@, e as int + 1) =~= nbu_toks_view(out0)
                    + nbu_attrs(s@, i0));
            }
            i = e + 1;
        } else if n - i >= 6 && s[i] == 34 && s[i + 1] == 99 && s[i + 2] == 99 && s[i + 3] == 34
            && s[i + 4] == 58 && s[i + 5] == 34 {
            proof {
                assert(cc_key_at(s@, i0));
                assert(!date_key_at(s@, i0));
                lemma_find_from(s@, i0 + 6, 34);
            }
            let e = find_quote_byte(s, i + 6);
            if e >= n {
                proof {
                    assert(nbu_attrs(s@, i0) =~= Seq::<NbuAttr>::empty());
                    assert(nbu_toks_view(out@) =~= nbu_attrs(s@, 0));
                }
                return out;
            }
            out.push(NbuToken::CcV(copy_range(s, i + 6, e)));
            proof {
                assert(nbu_toks_view(out@) =~= nbu_toks_view(out0).push(
                    NbuAttr::CcA(s@.subrange(i0 + 6, e as int)),
                ));
                assert(nbu_attrs(s@, i0) =~= seq![NbuAttr::CcA(s@.subrange(i0 + 6, e as int))]
                    + nbu_attrs(s@, e as int + 1));
                assert(nbu_toks_view(out@) + nbu_attrs(s@, e as int + 1) =~= nbu_toks_view(out0)
                    + nbu_attrs(s@, i0));
            }
            i = e + 1;
        } else if n - i >= 16 && s[i] == 34 && s[i + 1] == 114 && s[i + 2] == 97 && s[i + 3] == 116
            && s[i + 4] == 101 && s[i + 5] == 95 && s[i + 6] == 112 && s[i + 7] == 101 && s[i + 8]
            == 114 && s[i + 9] == 95 && s[i + 10] == 117 && s[i + 11] == 110 && s[i + 12] == 105
            && s[i + 13] == 116 && s[i + 14] == 34 && s[i + 15] == 58 {
            proof {
                assert(rate_unit_key_at(s@, i0));
                assert(!date_key_at(s@, i0) && !cc_key_at(s@, i0));
                lemma_find_num_end(s@, i0 + 16);
            }
            let e = find_number_end(s, i + 16);
            out.push(NbuToken::RateUV(copy_range(s, i + 16, e)));
            proof {
                assert(nbu_toks_view(out@) =~= nbu_toks_view(out0).push(
                    NbuAttr::RateUA(s@.subrange(i0 + 16, e as int)),
                ));
                assert(nbu_attrs(s@, i0) =~= seq![NbuAttr::RateUA(s@.subrange(i0 + 16, e as int))]
                    + nbu_attrs(s@, e as int));
                assert(nbu_toks_view(out@) + nbu_attrs(s@, e as int) =~= nbu_toks_view(out0)
                    + nbu_attrs(s@, i0));
            }
            if e <= i + 16 {
                proof {
                    assert(nbu_attrs(s@, e as int) =~= nbu_attrs(s@, i0 + 16));
                }
            }
            i = if e > i { e } else { i + 16 };
            proof {
                assert(nbu_toks_view(out@) + nbu_attrs(s@, i as int) =~= nbu_attrs(s@, 0));
            }
        } else if n - i >= 7 && s[i] == 34 && s[i + 1] == 114 && s[i + 2] == 97 && s[i + 3] == 116
            && s[i + 4] == 101 && s[i + 5] == 34 && s[i + 6] == 58 {
            proof {
                assert(rate_key_at(s@, i0));
                assert(!date_key_at(s@, i0) && !cc_key_at(s@, i0) && !rate_unit_key_at(s@, i0));
                lemma_find_num_end(s@, i0 + 7);
            }
            let e = find_number_end(s, i + 7);
            out.push(NbuToken::RateV(copy_range(s, i + 7, e)));
            proof {
                assert(nbu_toks_view(out@) =~= nbu_toks_view(out0).push(
                    NbuAttr::RateA(s@.subrange(i0 + 7, e as int)),
                ));
                assert(nbu_attrs(s@, i0) =~= seq![NbuAttr::RateA(s@.subrange(i0 + 7, e as int))]
                    + nbu_attrs(s@, e as int));
                assert(nbu_toks_view(out@) + nbu_attrs(s@, e as int) =~= nbu_toks_view(out0)
                    + nbu_attrs(s@, i0));
            }
            i = if e > i { e } else { i + 7 };
            proof {
                assert(nbu_toks_view(out@) + nbu_attrs(s@, i as int) =~= nbu_attrs(s@, 0));
            }
        } else {
            proof {
                assert(!date_key_at(s@, i0) && !cc_key_at(s@, i0) && !rate_unit_key_at(s@, i0)
                    && !rate_key_at(s@, i0));
                assert(nbu_attrs(s@, i0) =~= nbu_attrs(s@, i0 + 1));
            }
            i = i + 1;
        }
    }
    proof {
        assert(nbu_attrs(s@, n as int) =~= Seq::<NbuAttr>::empty());
        assert(nbu_toks_view(out@) =~= nbu_attrs(s@, 0));
    }
    out
}

pub open spec fn optv(o: Option<Seq<u8>>) -> Seq<u8> {
    match o {
        Some(v) => v,
        None => Seq::empty(),
    }
}

/// Folds the token stream into records: a brace opens a record, the fields
/// fill it (later values win; the per-unit rate takes precedence over the
/// raw rate), and a closing brace emits it when date, code and a rate are
/// all present. Anything incomplete is dropped.
pub open spec fn recs_from(
    a: Seq<NbuAttr>,
    i: int,
    open: bool,
    d: Option<Seq<u8>>,
    c: Option<Seq<u8>>,
    r: Option<Seq<u8>>,
    ru: Option<Seq<u8>>,
) -> Seq<(Seq<u8>, Seq<u8>, Seq<u8>)>
    decreases a.len() - i when 0 <= i
{
    if i >= a.len() {
        Seq::empty()
    } else {
        match a[i] {
            NbuAttr::Open => recs_from(a, i + 1, true, None, None, None, None),
            NbuAttr::Close => {
                if open && d is Some && c is Some && (ru is Some || r is Some) {
                    seq![
                        (optv(d), optv(c), if ru is Some { optv(ru) } else { optv(r) }),
                    ] + recs_from(a, i + 1, false, None, None, None, None)
                } else {
                    recs_from(a, i + 1, false, None, None, None, None)
                }
            },
            NbuAttr::DateA(v) => recs_from(a, i + 1, open, Some(v), c, r, ru),
            NbuAttr::CcA(v) => recs_from(a, i + 1, open, d, Some(v), r, ru),
            NbuAttr::RateA(v) => recs_from(a, i + 1, open, d, c, Some(v), ru),
            NbuAttr::RateUA(v) => recs_from(a, i + 1, open, d, c, r, Some(v)),
        }
    }
}

/// The records of the scanned document.
pub open spec fn records_of(a: Seq<NbuAttr>) -> Seq<(Seq<u8>, Seq<u8>, Seq<u8>)> {
    recs_from(a, 0, false, None, None, None, None)
}

pub open spec fn raw_recs_view(v: Seq<(Vec<u8>, Vec<u8>, Vec<u8>)>) -> Seq<
    (Seq<u8>, Seq<u8>, Seq<u8>),
> {
    Seq::new(v.len(), |i: int| (v[i].0@, v[i].1@, v[i].2@))
}

pub open spec fn ov(o: Option<Vec<u8>>) -> Option<Seq<u8>> {
    match o {
        Some(v) => Some(v@),
        None => None,
    }
}

/// Groups the scanned tokens into raw records.
pub fn group_records(toks: &Vec<NbuToken>) -> (r: Vec<(Vec<u8>, Vec<u8>, Vec<u8>)>)
    ensures
        raw_recs_view(r@) == records_of(nbu_toks_view(toks@)),
{
    let ghost a = nbu_toks_view(toks@);
    let n = toks.len();
    let mut out: Vec<(Vec<u8>, Vec<u8>, Vec<u8>)> = Vec::new();
    let mut open: bool = false;
    let mut d: Option<Vec<u8>> = None;
    let mut c: Option<Vec<u8>> = None;
    let mut r: Option<Vec<u8>> = None;
    let mut ru: Option<Vec<u8>> = None;
    let mut i: usize = 0;
    while i < n
        invariant
            i <= n,
            n == toks@.len(),
            a == nbu_toks_view(toks@),
            raw_recs_view(out@) + recs_from(a, i as int, open, ov(d), ov(c), ov(r), ov(ru))
                =~~= records_of(a),
        decreases n - i,
    {
        let ghost out0 = out@;
        match &toks[i] {
            NbuToken::Open => {
                open = true;
                d = None;
                c = None;
                r = None;
                ru = None;
            },
            NbuToken::Close => {
                let complete = open && d.is_some() && c.is_some() && (ru.is_some()
                    || r.is_some());
                if complete {
                    let dv = match d {
                        Some(v) => v,
                        None => Vec::new(),
                    };
                    let cv = match c {
                        Some(v) => v,
                        None => Vec::new(),
                    };
                    let use_ru = ru.is_some();
                    let rv = if use_ru {
                        match ru {
                            Some(v) => v,
                            None => Vec::new(),
                        }
                    } else {
                        match r {
                            Some(v) => v,
                            None => Vec::new(),
                        }
                    };
                    out.push((dv, cv, rv));
                    proof {
                        assert(raw_recs_view(out@) =~~= raw_recs_view(out0).push(
                            (out@.last().0@, out@.last().1@, out@.last().2@),
                        ));
                    }
                }
                open = false;
                d = None;
                c = None;
                r = None;
                ru = None;
            },
            NbuToken::DateV(v) => {
                d = Some(copy_bytes_nbu(v));
            },
            NbuToken::CcV(v) => {
                c = Some(copy_bytes_nbu(v));
            },
            NbuToken::RateV(v) => {
                r = Some(copy_bytes_nbu(v));
            },
            NbuToken::RateUV(v) => {
                ru = Some(copy_bytes_nbu(v));
            },
        }
        i = i + 1;
    }
    proof {
        assert(recs_from(a, n as int, open, ov(d), ov(c), ov(r), ov(ru)) =~= Seq::<
            (Seq<u8>, Seq<u8>, Seq<u8>),
        >::empty());
        assert(raw_recs_view(out@) =~~= records_of(a));
    }
    out
}

fn copy_bytes_nbu(v: &Vec<u8>) -> (r: Vec<u8>)
    ensures
        r@ == v@,
{
    let r = copy_range(v.as_slice(), 0, v.len());
    proof {
        assert(v@.subrange(0, v@.len() as int) =~= v@);
    }
    r
}

/// ASCII lower-case letters folded to upper case; everything else as is.
pub open spec fn upper_byte(b: u8) -> u8 {
    if 97 <= b <= 122 {
        (b - 32) as u8
    } else {
        b
    }
}

pub open spec fn upper_bytes(s: Seq<u8>) -> Seq<u8> {
    Seq::new(s.len(), |i: int| upper_byte(s[i]))
}

/// Folds a code to upper case, as the source's batch endpoint reports
/// lower-case codes while the stored tables key on upper-case ones.
fn uppercase_ascii(v: &Vec<u8>) -> (r: Vec<u8>)
    ensures
        r@ == upper_bytes(v@),
{
    let n = v.len();
    let mut out: Vec<u8> = Vec::new();
    let mut i: usize = 0;
    while i < n
        invariant
            i <= n,
            n == v@.len(),
            out@ =~= upper_bytes(v@).subrange(0, i as int),
        decreases n - i,
    {
        let b = v[i];
        out.push(if 97 <= b && b <= 122 { b - 32 } else { b });
        proof {
            assert(out@ =~= upper_bytes(v@).subrange(0, i as int + 1));
        }
        i = i + 1;
    }
    proof {
        assert(upper_bytes(v@).subrange(0, n as int) =~= upper_bytes(v@));
    }
    out
}

/// A usable record: a valid dotted date, a nonempty ASCII code, and a
/// positive decimal quote of at most eighteen digits.
pub open spec fn record_ok(rec: (Seq<u8>, Seq<u8>, Seq<u8>)) -> bool {
    &&& dotted_shape(rec.0)
    &&& crate::date::is_valid_ymd(dotted_year(rec.0), dotted_month(rec.0), dotted_day(rec.0))
    &&& rec.1.len() >= 1
    &&& forall|i: int| 0 <= i < rec.1.len() ==> rec.1[i] < 128
    &&& decimal_shape(rec.2)
    &&& mantissa(rec.2).len() <= 18
    &&& decimal_num(rec.2) >= 1
}

/// Parses the record list into (date, currency code, quote) rows, exactly
/// the records the document carries, codes folded to upper case. Any
/// malformed record fails the call.
pub fn parse_rate_records(json: &[u8]) -> (r: Result<Vec<(Date, String, Rate)>, AppError>)
    ensures
        ({
            let recs = records_of(nbu_attrs(json@, 0));
            &&& (r is Ok <==> forall|j: int| 0 <= j < recs.len() ==> record_ok(#[trigger] recs[j]))
            &&& (r matches Ok(v) ==> {
                &&& v@.len() == recs.len()
                &&& forall|k: int|
                    0 <= k < v@.len() ==> {
                        let rec = recs[k];
                        &&& (#[trigger] v@[k]).0.wf()
                        &&& v@[k].0.year as int == dotted_year(rec.0)
                        &&& v@[k].0.month as int == dotted_month(rec.0)
                        &&& v@[k].0.day as int == dotted_day(rec.0)
                        &&& v@[k].1@ == bytes_chars(upper_bytes(rec.1))
                        &&& v@[k].2 == spec_quote(rec.2)
                        &&& v@[k].2.pos()
                    }
            })
            &&& (r matches Err(e) ==> e is Parse)
        }),
{
    let toks = scan_records(json);
    let raw = group_records(&toks);
    let ghost recs = records_of(nbu_attrs(json@, 0));
    let n = raw.len();
    let mut out: Vec<(Date, String, Rate)> = Vec::new();
    let mut i: usize = 0;
    while i < n
        invariant
            i <= n,
            n == raw@.len(),
            raw_recs_view(raw@) == recs,
            recs == records_of(nbu_attrs(json@, 0)),
            out@.len() == i,
            forall|j: int| 0 <= j < i ==> record_ok(#[trigger] recs[j]),
            forall|k: int|
                0 <= k < i ==> {
                    let rec = recs[k];
                    &&& (#[trigger] out@[k]).0.wf()
                    &&& out@[k].0.year as int == dotted_year(rec.0)
                    &&& out@[k].0.month as int == dotted_month(rec.0)
                    &&& out@[k].0.day as int == dotted_day(rec.0)
                    &&& out@[k].1@ == bytes_chars(upper_bytes(rec.1))
                    &&& out@[k].2 == spec_quote(rec.2)
                    &&& out@[k].2.pos()
                },
        decreases n - i,
    {
        proof {
            assert(recs[i as int] == (raw@[i as int].0@, raw@[i as int].1@, raw@[i as int].2@));
        }
        let date = match parse_dotted_date(raw[i].0.as_slice()) {
            Some(dt) => dt,
            None => {
                proof {
                    assert(!record_ok(recs[i as int]));
                }
                return Err(AppError::Parse(String::from_str("malformed record date")));
            },
        };
        if !is_ascii_code_nbu(&raw[i].1) {
            proof {
                assert(!record_ok(recs[i as int]));
            }
            return Err(AppError::Parse(String::from_str("malformed currency code")));
        }
        let rate = match parse_decimal(raw[i].2.as_slice()) {
            Some(rt) => rt,
            None => {
                proof {
                    assert(!record_ok(recs[i as int]));
                }
                return Err(AppError::Parse(String::from_str("malformed rate value")));
            },
        };
        if rate.num == 0 {
            proof {
                assert(!record_ok(recs[i as int]));
            }
            return Err(AppError::Parse(String::from_str("rate of zero")));
        }
        let upper = uppercase_ascii(&raw[i].1);
        proof {
            assert(forall|j: int| 0 <= j < upper@.len() ==> upper@[j] < 128);
        }
        let code = crate::text::ascii_to_string(upper);
        proof {
            assert(code@ =~= bytes_chars(upper_bytes(recs[i as int].1)));
        }
        out.push((date, code, rate));
        i = i + 1;
    }
    Ok(out)
}

fn is_ascii_code_nbu(v: &Vec<u8>) -> (r: bool)
    ensures
        r <==> (v@.len() >= 1 && forall|i: int| 0 <= i < v@.len() ==> v@[i] < 128),
{
    let n = v.len();
    if n == 0 {
        return false;
    }
    let mut i: usize = 0;
    while i < n
        invariant
            i <= n,
            n == v@.len(),
            forall|j: int| 0 <= j < i ==> v@[j] < 128,
        decreases n - i,
    {
        if v[i] >= 128 {
            return false;
        }
        i = i + 1;
    }
    true
}

/// Every listed quote divides the internal-pivot quote within the
/// representation: the success condition of the triangulation.
pub open spec fn day_triangulation_fits(t: Map<Seq<char>, Rate>) -> bool {
    forall|c: Seq<char>|
        #[trigger] t.contains_key(c) && c != "USD"@ ==> crate::rate::div_fits(t["USD"@], t[c])
}

/// The table is the native one triangulated into the internal pivot: the
/// pivot at exactly one; the native pivot at the source's internal-pivot
/// quote (unless the source also quotes it, when it divides like the rest);
/// every other currency is the internal-pivot quote divided by its own.
pub open spec fn uah_triangulated(nm: Map<Seq<char>, Rate>, out: Map<Seq<char>, Rate>) -> bool {
    &&& out.dom() =~= nm.dom().insert("UAH"@).insert("USD"@)
    &&& out["USD"@] == Rate { num: 1, den: 1 }
    &&& (!nm.contains_key("UAH"@) ==> out["UAH"@] == nm["USD"@])
    &&& forall|c: Seq<char>|
        #[trigger] out.contains_key(c) && c != "USD"@ && (c != "UAH"@ || nm.contains_key("UAH"@))
            ==> is_quotient(out[c], nm["USD"@], nm[c])
}

/// Triangulates a day's native quotes ("UAH per 1 unit") into the internal
/// pivot. The source's internal-pivot quote is the critical cross rate:
/// without it the day is unusable.
pub fn nbu_triangulate(native: &RateTable) -> (r: Result<RateTable, AppError>)
    requires
        native.wf(),
        forall|i: int| 0 <= i < native.entries@.len() ==> (#[trigger] native.entries@[i]).1.pos(),
    ensures
        r is Err <==> !native.as_map().contains_key("USD"@) || !day_triangulation_fits(
            native.as_map(),
        ),
        !native.as_map().contains_key("USD"@) ==> (r matches Err(e) && e is Provider),
        r matches Err(AppError::Provider(_)) ==> !native.as_map().contains_key("USD"@),
        r matches Ok(out) ==> {
            &&& out.wf()
            &&& forall|i: int| 0 <= i < out.entries@.len() ==> (#[trigger] out.entries@[i]).1.pos()
            &&& uah_triangulated(native.as_map(), out.as_map())
        },
        r matches Err(e) ==> e is Provider || e is Internal,
{
    let ghost nm = native.as_map();
    let usd = match native.get("USD") {
        Some(q) => q,
        None => {
            return Err(
                AppError::Provider(String::from_str("internal pivot quote missing")),
            );
        },
    };
    proof {
        native.lemma_view();
        assert(usd.pos()) by {
            let j = choose|j: int|
                0 <= j < native.entries@.len() && (#[trigger] native.entries@[j]).0@ == "USD"@;
            assert(native.as_map()[native.entries@[j].0@] == native.entries@[j].1);
        }
        reveal_strlit("USD");
        reveal_strlit("UAH");
        assert("USD"@ != "UAH"@) by {
            assert(("USD"@)[1] == 'S');
            assert(("UAH"@)[1] == 'A');
            if "USD"@ == "UAH"@ {
                assert(("USD"@)[1] == ("UAH"@)[1]);
            }
        }
    }
    let n = native.len();
    let mut out = RateTable::new();
    out.upsert(String::from_str("UAH"), usd);
    let mut i: usize = 0;
    while i < n
        invariant
            native.wf(),
            forall|j: int|
                0 <= j < native.entries@.len() ==> (#[trigger] native.entries@[j]).1.pos(),
            nm == native.as_map(),
            nm.contains_key("USD"@),
            nm["USD"@] == usd,
            usd.pos(),
            "USD"@ != "UAH"@,
            n == native.entries@.len(),
            i <= n,
            out.wf(),
            forall|c: Seq<char>|
                out.as_map().contains_key(c) ==> (#[trigger] out.as_map()[c]).pos(),
            out.as_map().dom() =~= Set::new(
                |c: Seq<char>|
                    c == "UAH"@ || (c != "USD"@ && exists|j: int|
                        0 <= j < i && (#[trigger] native.entries@[j]).0@ == c),
            ),
            forall|c: Seq<char>|
                out.as_map().contains_key(c) && (c != "UAH"@ || exists|j: int|
                    0 <= j < i && (#[trigger] native.entries@[j]).0@ == "UAH"@) ==> is_quotient(
                    #[trigger] out.as_map()[c],
                    usd,
                    nm[c],
                ),
            (forall|j: int| 0 <= j < i ==> (#[trigger] native.entries@[j]).0@ != "UAH"@)
                ==> out.as_map()["UAH"@] == usd,
            forall|j: int|
                0 <= j < i && (#[trigger] native.entries@[j]).0@ != "USD"@
                    ==> crate::rate::div_fits(usd, native.entries@[j].1),
        decreases n - i,
    {
        let code = native.code_at(i);
        let rate = native.rate_at(i);
        proof {
            crate::table::lemma_entries_map_at(native.entries@, i as int);
        }
        let usd_owned = String::from_str("USD");
        if !(code == usd_owned) {
            match usd.checked_div(&rate) {
                Some(q) => {
                    out.upsert(code, q);
                },
                None => {
                    proof {
                        assert(nm.contains_key(code@) && nm[code@] == rate);
                        assert(!day_triangulation_fits(nm));
                    }
                    return Err(
                        AppError::Internal(String::from_str("rate out of representable range")),
                    );
                },
            }
        }
        i = i + 1;
    }
    out.upsert(String::from_str("USD"), Rate::one());
    proof {
        native.lemma_view();
        assert(out.as_map().dom() =~= nm.dom().insert("UAH"@).insert("USD"@)) by {
            assert forall|c: Seq<char>| #[trigger] nm.dom().contains(c) && c != "USD"@ && c
                != "UAH"@ implies out.as_map().dom().contains(c) by {
                let j = choose|j: int|
                    0 <= j < native.entries@.len() && (#[trigger] native.entries@[j]).0@ == c;
                assert(c != "USD"@ && exists|j2: int|
                    0 <= j2 < n && (#[trigger] native.entries@[j2]).0@ == c);
            }
            assert forall|c: Seq<char>| #[trigger] out.as_map().dom().contains(c) && c != "USD"@
                && c != "UAH"@ implies nm.dom().contains(c) by {
                let j = choose|j: int|
                    0 <= j < n && (#[trigger] native.entries@[j]).0@ == c;
                crate::table::lemma_entries_map_at(native.entries@, j);
            }
        }
        assert forall|c: Seq<char>|
            #[trigger] out.as_map().contains_key(c) && c != "USD"@ && (c != "UAH"@
                || nm.contains_key("UAH"@)) implies is_quotient(out.as_map()[c], usd, nm[c]) by {
            if c == "UAH"@ {
                let j = choose|j: int|
                    0 <= j < native.entries@.len() && (#[trigger] native.entries@[j]).0@ == c;
                assert(exists|j2: int|
                    0 <= j2 < n && (#[trigger] native.entries@[j2]).0@ == "UAH"@);
            }
        }
        assert(day_triangulation_fits(nm)) by {
            assert forall|c: Seq<char>| #[trigger] nm.contains_key(c) && c != "USD"@ implies
                crate::rate::div_fits(nm["USD"@], nm[c]) by {
                let j = choose|j: int|
                    0 <= j < native.entries@.len() && (#[trigger] native.entries@[j]).0@ == c;
                crate::table::lemma_entries_map_at(native.entries@, j);
            }
        }
        assert forall|i2: int| 0 <= i2 < out.entries@.len() implies (
        #[trigger] out.entries@[i2]).1.pos() by {
            out.lemma_view();
        }
    }
    Ok(out)
}

/// The quotes of all listed records, keyed by code, later records winning.
pub open spec fn records_table(rs: Seq<(Date, String, Rate)>) -> Map<Seq<char>, Rate>
    decreases rs.len(),
{
    if rs.len() == 0 {
        Map::empty()
    } else {
        records_table(rs.drop_last()).insert(rs.last().1@, rs.last().2)
    }
}

/// Builds one snapshot from a single response's records, dated `date`:
/// collect the native quotes, then triangulate into the internal pivot.
pub fn snapshot_from_records(records: &Vec<(Date, String, Rate)>, date: Date) -> (r: Result<
    DailyRates,
    AppError,
>)
    requires
        date.wf(),
        forall|i: int| 0 <= i < records@.len() ==> (#[trigger] records@[i]).2.pos(),
    ensures
        r is Err <==> !records_table(records@).contains_key("USD"@) || !day_triangulation_fits(
            records_table(records@),
        ),
        !records_table(records@).contains_key("USD"@) ==> (r matches Err(e) && e is Provider),
        r matches Err(AppError::Provider(_)) ==> !records_table(records@).contains_key("USD"@),
        r matches Ok(od) ==> {
            &&& od.wf()
            &&& od.date == date
            &&& od.base_currency@ == "USD"@
            &&& od.provider@ == "nbu"@
            &&& uah_triangulated(records_table(records@), od.rates.as_map())
        },
        r matches Err(e) ==> e is Provider || e is Internal,
{
    let n = records.len();
    let mut native = RateTable::new();
    let mut i: usize = 0;
    while i < n
        invariant
            i <= n,
            n == records@.len(),
            forall|j: int| 0 <= j < records@.len() ==> (#[trigger] records@[j]).2.pos(),
            native.wf(),
            forall|c: Seq<char>|
                native.as_map().contains_key(c) ==> (#[trigger] native.as_map()[c]).pos(),
            native.as_map() == records_table(records@.subrange(0, i as int)),
        decreases n - i,
    {
        proof {
            assert(records@.subrange(0, i as int + 1).drop_last() =~= records@.subrange(
                0,
                i as int,
            ));
            assert(records@.subrange(0, i as int + 1).last() == records@[i as int]);
        }
        native.upsert(records[i].1.clone(), records[i].2);
        i = i + 1;
    }
    proof {
        assert(records@.subrange(0, n as int) =~= records@);
        assert forall|j: int| 0 <= j < native.entries@.len() implies (
        #[trigger] native.entries@[j]).1.pos() by {
            native.lemma_view();
        }
    }
    let rates = match nbu_triangulate(&native) {
        Ok(t) => t,
        Err(e) => {
            return Err(e);
        },
    };
    Ok(
        DailyRates {
            date,
            base_currency: String::from_str("USD"),
            rates,
            provider: String::from_str("nbu"),
        },
    )
}

/// The quotes of the listed records dated day `idx`, keyed by code.
pub open spec fn date_merge(rs: Seq<(Date, String, Rate)>, idx: int) -> Map<Seq<char>, Rate>
    decreases rs.len(),
{
    if rs.len() == 0 {
        Map::empty()
    } else if rs.last().0.index() == idx {
        date_merge(rs.drop_last(), idx).insert(rs.last().1@, rs.last().2)
    } else {
        date_merge(rs.drop_last(), idx)
    }
}

/// Some record carries exactly this date.
pub open spec fn date_from_records(records: Seq<(Date, String, Rate)>, d: Date) -> bool {
    exists|i: int| 0 <= i < records.len() && (#[trigger] records[i]).0 == d
}

/// The date list has an entry with this day index.
pub open spec fn day_indexed(ds: Seq<Date>, idx: int) -> bool {
    exists|k: int| 0 <= k < ds.len() && (#[trigger] ds[k]).index() == idx
}

/// The merged output has an entry with this day index.
pub open spec fn merged_day_indexed(out: Seq<(Date, RateTable)>, idx: int) -> bool {
    exists|k: int| 0 <= k < out.len() && (#[trigger] out[k]).0.index() == idx
}

fn date_listed_in(out: &Vec<Date>, idx: u32) -> (r: bool)
    ensures
        r <==> exists|k: int| 0 <= k < out@.len() && (#[trigger] out@[k]).index() == idx,
{
    let m = out.len();
    let mut k: usize = 0;
    while k < m
        invariant
            k <= m,
            m == out@.len(),
            forall|k2: int| 0 <= k2 < k ==> (#[trigger] out@[k2]).index() != idx,
        decreases m - k,
    {
        if out[k].day_index() == idx {
            proof {
                assert(out@[k as int].index() == idx);
            }
            return true;
        }
        k = k + 1;
    }
    false
}

fn distinct_dates(records: &Vec<(Date, String, Rate)>) -> (r: Vec<Date>)
    ensures
        forall|k1: int, k2: int|
            0 <= k1 < k2 < r@.len() ==> (#[trigger] r@[k1]).index() != (#[trigger] r@[k2]).index(),
        forall|k: int| 0 <= k < r@.len() ==> date_from_records(records@, (#[trigger] r@[k])),
        forall|i: int|
            0 <= i < records@.len() ==> day_indexed(r@, (#[trigger] records@[i]).0.index()),
{
    let n = records.len();
    let mut out: Vec<Date> = Vec::new();
    let mut i: usize = 0;
    while i < n
        invariant
            i <= n,
            n == records@.len(),
            forall|k1: int, k2: int|
                0 <= k1 < k2 < out@.len() ==> (#[trigger] out@[k1]).index() != (
                #[trigger] out@[k2]).index(),
            forall|k: int|
                0 <= k < out@.len() ==> date_from_records(records@, (#[trigger] out@[k])),
            forall|j: int|
                0 <= j < i ==> day_indexed(out@, (#[trigger] records@[j]).0.index()),
        decreases n - i,
    {
        let ghost out0 = out@;
        let idx = records[i].0.day_index();
        let seen = date_listed_in(&out, idx);
        if !seen {
            out.push(records[i].0);
            proof {
                assert(out@[out@.len() - 1] == records@[i as int].0);
            }
        }
        proof {
            assert forall|j: int| 0 <= j < i + 1 implies day_indexed(
                out@,
                (#[trigger] records@[j]).0.index(),
            ) by {
                if j < i {
                    assert(day_indexed(out0, records@[j].0.index()));
                    let kk = choose|kk: int|
                        0 <= kk < out0.len() && (#[trigger] out0[kk]).index()
                            == records@[j].0.index();
                    assert(out@[kk].index() == records@[j].0.index());
                } else {
                    if seen {
                        let kk = choose|kk: int|
                            0 <= kk < out0.len() && (#[trigger] out0[kk]).index() == idx;
                        assert(out@[kk].index() == records@[j].0.index());
                    } else {
                        assert(out@[out@.len() - 1].index() == records@[j].0.index());
                    }
                }
            }
            assert forall|k: int| 0 <= k < out@.len() implies date_from_records(
                records@,
                (#[trigger] out@[k]),
            ) by {
                if k < out0.len() {
                    assert(date_from_records(records@, out0[k]));
                    let ii = choose|ii: int|
                        0 <= ii < records@.len() && (#[trigger] records@[ii]).0 == out0[k];
                    assert(records@[ii].0 == out@[k]);
                } else {
                    assert(records@[i as int].0 == out@[k]);
                }
            }
        }
        i = i + 1;
    }
    out
}

/// Builds one day's merged table from all records dated that day.
fn day_table(records: &Vec<(Date, String, Rate)>, date: Date) -> (r: RateTable)
    requires
        forall|i: int| 0 <= i < records@.len() ==> (#[trigger] records@[i]).2.pos(),
    ensures
        r.wf(),
        forall|c: Seq<char>| r.as_map().contains_key(c) ==> (#[trigger] r.as_map()[c]).pos(),
        r.as_map() == date_merge(records@, date.index()),
{
    let n = records.len();
    let mut out = RateTable::new();
    let mut i: usize = 0;
    while i < n
        invariant
            i <= n,
            n == records@.len(),
            forall|j: int| 0 <= j < records@.len() ==> (#[trigger] records@[j]).2.pos(),
            out.wf(),
            forall|c: Seq<char>|
                out.as_map().contains_key(c) ==> (#[trigger] out.as_map()[c]).pos(),
            out.as_map() == date_merge(records@.subrange(0, i as int), date.index()),
        decreases n - i,
    {
        proof {
            assert(records@.subrange(0, i as int + 1).drop_last() =~= records@.subrange(
                0,
                i as int,
            ));
            assert(records@.subrange(0, i as int + 1).last() == records@[i as int]);
        }
        if records[i].0.day_index() == date.day_index() {
            out.upsert(records[i].1.clone(), records[i].2);
        }
        i = i + 1;
    }
    proof {
        assert(records@.subrange(0, n as int) =~= records@);
    }
    out
}

/// Merges the records of the per-currency batch responses by date: one
/// table per distinct date, in first-seen order, carrying every record's
/// quote for that date.
#[verifier::rlimit(50)]
pub fn merge_records_by_date(records: &Vec<(Date, String, Rate)>) -> (r: Vec<(Date, RateTable)>)
    requires
        forall|i: int|
            0 <= i < records@.len() ==> (#[trigger] records@[i]).0.wf() && records@[i].2.pos(),
    ensures
        forall|k1: int, k2: int|
            0 <= k1 < k2 < r@.len() ==> (#[trigger] r@[k1]).0.index() != (
            #[trigger] r@[k2]).0.index(),
        forall|k: int|
            0 <= k < r@.len() ==> {
                let e = #[trigger] r@[k];
                &&& e.0.wf()
                &&& e.1.wf()
                &&& (forall|c: Seq<char>|
                    e.1.as_map().contains_key(c) ==> (#[trigger] e.1.as_map()[c]).pos())
                &&& e.1.as_map() == date_merge(records@, e.0.index())
                &&& date_from_records(records@, e.0)
            },
        forall|i: int|
            0 <= i < records@.len() ==> merged_day_indexed(
                r@,
                (#[trigger] records@[i]).0.index(),
            ),
{
    let dates = distinct_dates(records);
    let n = dates.len();
    let mut out: Vec<(Date, RateTable)> = Vec::new();
    let mut i: usize = 0;
    while i < n
        invariant
            i <= n,
            n == dates@.len(),
            forall|j: int|
                0 <= j < records@.len() ==> (#[trigger] records@[j]).0.wf() && records@[j].2.pos(),
            forall|k1: int, k2: int|
                0 <= k1 < k2 < dates@.len() ==> (#[trigger] dates@[k1]).index() != (
                #[trigger] dates@[k2]).index(),
            forall|k: int|
                0 <= k < dates@.len() ==> date_from_records(records@, (#[trigger] dates@[k])),
            out@.len() == i,
            forall|k: int| 0 <= k < i ==> (#[trigger] out@[k]).0 == dates@[k],
            forall|k: int|
                0 <= k < i ==> {
                    let e = #[trigger] out@[k];
                    &&& e.1.wf()
                    &&& (forall|c: Seq<char>|
                        e.1.as_map().contains_key(c) ==> (#[trigger] e.1.as_map()[c]).pos())
                    &&& e.1.as_map() == date_merge(records@, e.0.index())
                },
        decreases n - i,
    {
        let tbl = day_table(records, dates[i]);
        out.push((dates[i], tbl));
        i = i + 1;
    }
    proof {
        assert forall|k: int| 0 <= k < out@.len() implies {
            let e = #[trigger] out@[k];
            &&& e.0.wf()
            &&& date_from_records(records@, e.0)
        } by {
            assert(out@[k].0 == dates@[k]);
            assert(date_from_records(records@, dates@[k]));
            let ii = choose|ii: int|
                0 <= ii < records@.len() && (#[trigger] records@[ii]).0 == dates@[k];
            assert(records@[ii].0 == out@[k].0);
            assert(records@[ii].0.wf());
        }
        assert forall|i2: int| 0 <= i2 < records@.len() implies merged_day_indexed(
            out@,
            (#[trigger] records@[i2]).0.index(),
        ) by {
            assert(day_indexed(dates@, records@[i2].0.index()));
            let kk = choose|kk: int|
                0 <= kk < dates@.len() && (#[trigger] dates@[kk]).index()
                    == records@[i2].0.index();
            assert(out@[kk].0.index() == records@[i2].0.index());
        }
    }
    out
}

/// The output snapshots are exactly the pivot-bearing merged days, in order.
pub open spec fn nbu_built(g: Seq<(Date, RateTable)>, out: Seq<DailyRates>) -> bool
    decreases g.len(),
{
    if g.len() == 0 {
        out.len() == 0
    } else if g.last().1.as_map().contains_key("USD"@) {
        out.len() > 0 && nbu_built(g.drop_last(), out.drop_last()) && {
            let od = out.last();
            &&& od.wf()
            &&& od.date == g.last().0
            &&& od.base_currency@ == "USD"@
            &&& od.provider@ == "nbu"@
            &&& uah_triangulated(g.last().1.as_map(), od.rates.as_map())
        }
    } else {
        nbu_built(g.drop_last(), out)
    }
}

/// Triangulates each merged day into the internal pivot; a day without the
/// internal-pivot quote is skipped entirely.
pub fn snapshots_from_merged(days: &Vec<(Date, RateTable)>) -> (r: Result<
    Vec<DailyRates>,
    AppError,
>)
    requires
        forall|k: int|
            0 <= k < days@.len() ==> {
                let e = #[trigger] days@[k];
                &&& e.0.wf()
                &&& e.1.wf()
                &&& forall|c: Seq<char>|
                    e.1.as_map().contains_key(c) ==> (#[trigger] e.1.as_map()[c]).pos()
            },
    ensures
        r is Err <==> exists|k: int|
            0 <= k < days@.len() && (#[trigger] days@[k]).1.as_map().contains_key("USD"@)
                && !day_triangulation_fits(days@[k].1.as_map()),
        r matches Ok(out) ==> nbu_built(days@, out@) && forall|k: int|
            0 <= k < out@.len() ==> (#[trigger] out@[k]).wf(),
        r matches Err(e) ==> e is Provider || e is Internal,
{
    let n = days.len();
    let mut out: Vec<DailyRates> = Vec::new();
    let mut i: usize = 0;
    while i < n
        invariant
            i <= n,
            n == days@.len(),
            forall|k: int|
                0 <= k < days@.len() ==> {
                    let e = #[trigger] days@[k];
                    &&& e.0.wf()
                    &&& e.1.wf()
                    &&& forall|c: Seq<char>|
                        e.1.as_map().contains_key(c) ==> (#[trigger] e.1.as_map()[c]).pos()
                },
            nbu_built(days@.subrange(0, i as int), out@),
            forall|k: int|
                0 <= k < i && (#[trigger] days@[k]).1.as_map().contains_key("USD"@)
                    ==> day_triangulation_fits(days@[k].1.as_map()),
            forall|k: int| 0 <= k < out@.len() ==> (#[trigger] out@[k]).wf(),
        decreases n - i,
    {
        let ghost pre1 = days@.subrange(0, i as int + 1);
        proof {
            assert(pre1.drop_last() =~= days@.subrange(0, i as int));
            assert(pre1.last() == days@[i as int]);
        }
        let native = days[i].1.duplicate();
        proof {
            assert(native.entries@ =~= days@[i as int].1.entries@);
            assert(native.as_map() == days@[i as int].1.as_map());
            assert(native.wf());
            assert forall|j: int| 0 <= j < native.entries@.len() implies (
            #[trigger] native.entries@[j]).1.pos() by {
                native.lemma_view();
                let c = native.entries@[j].0@;
                assert(native.as_map().contains_key(c) && native.as_map()[c]
                    == native.entries@[j].1);
            }
        }
        if !native.contains("USD") {
            proof {
                assert(!days@[i as int].1.as_map().contains_key("USD"@));
                assert(nbu_built(pre1, out@));
            }
            i = i + 1;
            continue ;
        }
        let rates = match nbu_triangulate(&native) {
            Ok(t) => t,
            Err(e) => {
                proof {
                    assert(days@[i as int].1.as_map().contains_key("USD"@)
                        && !day_triangulation_fits(days@[i as int].1.as_map()));
                }
                return Err(e);
            },
        };
        let od = DailyRates {
            date: days[i].0,
            base_currency: String::from_str("USD"),
            rates,
            provider: String::from_str("nbu"),
        };
        proof {
            assert(od.wf()) by {
                assert forall|j: int| 0 <= j < od.rates.entries@.len() implies (
                #[trigger] od.rates.entries@[j]).1.pos() by {
                }
            }
        }
        let ghost out_before = out@;
        out.push(od);
        proof {
            assert(out@.drop_last() =~= out_before);
            assert(out@.last() == od);
            assert(nbu_built(pre1, out@));
        }
        i = i + 1;
    }
    proof {
        assert(days@.subrange(0, n as int) =~= days@);
    }
    Ok(out)
}

/// The regional currencies this source is used for; the internal pivot is
/// added dynamically when fetching.
pub fn nbu_currencies() -> (r: Vec<String>)
    ensures
        r@.len() == 8,
        r@[0]@ == "UAH"@,
        r@[1]@ == "KZT"@,
        r@[2]@ == "LBP"@,
        r@[3]@ == "MDL"@,
        r@[4]@ == "SAR"@,
        r@[5]@ == "VND"@,
        r@[6]@ == "EGP"@,
        r@[7]@ == "GEL"@,
{
    let mut out: Vec<String> = Vec::new();
    out.push(String::from_str("UAH"));
    out.push(String::from_str("KZT"));
    out.push(String::from_str("LBP"));
    out.push(String::from_str("MDL"));
    out.push(String::from_str("SAR"));
    out.push(String::from_str("VND"));
    out.push(String::from_str("EGP"));
    out.push(String::from_str("GEL"));
    out
}

/// The currencies to fetch: the internal pivot for the cross rate, then the
/// regional list (which does not repeat the pivot).
pub fn currencies_to_fetch() -> (r: Vec<String>)
    ensures
        r@.len() == 9,
        r@[0]@ == "USD"@,
        forall|i: int| 1 <= i < 9 ==> (#[trigger] r@[i])@ == nbu_currency_at(i - 1),
{
    let mut out: Vec<String> = Vec::new();
    out.push(String::from_str("USD"));
    let list = nbu_currencies();
    let mut i: usize = 0;
    while i < 8
        invariant
            i <= 8,
            list@.len() == 8,
            forall|j: int| 0 <= j < 8 ==> (#[trigger] list@[j])@ == nbu_currency_at(j),
            out@.len() == i + 1,
            out@[0]@ == "USD"@,
            forall|j: int| 1 <= j < i + 1 ==> (#[trigger] out@[j])@ == nbu_currency_at(j - 1),
        decreases 8 - i,
    {
        out.push(list[i].clone());
        i = i + 1;
    }
    out
}

/// The regional currency at the given position of the list.
pub open spec fn nbu_currency_at(i: int) -> Seq<char> {
    if i == 0 { "UAH"@ }
    else if i == 1 { "KZT"@ }
    else if i == 2 { "LBP"@ }
    else if i == 3 { "MDL"@ }
    else if i == 4 { "SAR"@ }
    else if i == 5 { "VND"@ }
    else if i == 6 { "EGP"@ }
    else { "GEL"@ }
}

/// The date written `YYYYMMDD`, as the per-date endpoint expects.
pub fn format_date_for_nbu(date: Date) -> (r: String)
    requires
        date.wf(),
    ensures
        r@.len() == 8,
        r@[0] == ((date.year / 1000 + 48) as u8) as char,
        r@[1] == ((date.year / 100 % 10 + 48) as u8) as char,
        r@[2] == ((date.year / 10 % 10 + 48) as u8) as char,
        r@[3] == ((date.year % 10 + 48) as u8) as char,
        r@[4] == ((date.month / 10 + 48) as u8) as char,
        r@[5] == ((date.month % 10 + 48) as u8) as char,
        r@[6] == ((date.day / 10 + 48) as u8) as char,
        r@[7] == ((date.day % 10 + 48) as u8) as char,
{
    date.format_compact()
}

/// The date written `YYYYMMDD`, as the batch endpoint expects.
pub fn format_date_for_batch(date: Date) -> (r: String)
    requires
        date.wf(),
    ensures
        r@.len() == 8,
{
    date.format_compact()
}

/// Parses the source's `DD.MM.YYYY` date form.
pub fn parse_nbu_date(s: &[u8]) -> (r: Option<Date>)
    ensures
        r is Some <==> dotted_shape(s@) && crate::date::is_valid_ymd(
            dotted_year(s@),
            dotted_month(s@),
            dotted_day(s@),
        ),
        r matches Some(dt) ==> dt.wf() && dt.year as int == dotted_year(s@) && dt.month as int
            == dotted_month(s@) && dt.day as int == dotted_day(s@),
{
    parse_dotted_date(s)
}

pub fn nbu_base_url() -> (r: &'static str)
    ensures
        r@ == "https://bank.gov.ua/NBUStatService/v1/statdirectory/exchange"@,
{
    "https://bank.gov.ua/NBUStatService/v1/statdirectory/exchange"
}

pub fn nbu_batch_url() -> (r: &'static str)
    ensures
        r@ == "https://bank.gov.ua/NBU_Exchange/exchange_site"@,
{
    "https://bank.gov.ua/NBU_Exchange/exchange_site"
}

} // verus!
