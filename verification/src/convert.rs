//! The conversion engine: re-anchors a rate table from one base currency to
//! another by triangulation. This single primitive serves both the adapters
//! normalizing a native pivot into the internal one and the query path
//! converting the internal pivot into a client-requested base.

use vstd::prelude::*;
use crate::error::AppError;
use crate::rate::{Rate, rate_eq, is_quotient, div_fits, red_num, red_den};
use crate::table::RateTable;

verus! {

/// Every quote of the table, other than the new base's own, has a
/// representable exact quotient against the new base's quote.
pub open spec fn convert_fits(t: Map<Seq<char>, Rate>, to: Seq<char>) -> bool {
    forall|c: Seq<char>|
        t.contains_key(c) && c != to ==> div_fits(#[trigger] t[c], t[to])
}

/// The value `r` is the exact reciprocal of `b`.
pub open spec fn is_recip(r: Rate, b: Rate) -> bool {
    r.num * b.num == b.den * r.den
}

/// The re-anchored table's quotes carry the exact representations the
/// conversion computes: each quotient in lowest terms, the old base at the
/// plain reciprocal. This pins the representation (not just the value), so
/// downstream arithmetic on the result has a stated success condition.
pub open spec fn reduced_quotients(
    t: Map<Seq<char>, Rate>,
    u: Map<Seq<char>, Rate>,
    a: Seq<char>,
    b: Seq<char>,
) -> bool {
    &&& u[a] == (Rate { num: t[b].den, den: t[b].num })
    &&& forall|c: Seq<char>|
        u.contains_key(c) && c != a ==> (#[trigger] u[c]).num as nat == red_num(
            (t[c].num * t[b].den) as nat,
            (t[c].den * t[b].num) as nat,
        ) && u[c].den as nat == red_den(
            (t[c].num * t[b].den) as nat,
            (t[c].den * t[b].num) as nat,
        )
}

/// `u` is the table `t`, re-anchored from base `a` to base `b`: the key set
/// exchanges `b` for `a`; every other key's quote is divided by `t[b]`; the
/// old base enters at the reciprocal of `t[b]`.
pub open spec fn converted(
    t: Map<Seq<char>, Rate>,
    u: Map<Seq<char>, Rate>,
    a: Seq<char>,
    b: Seq<char>,
) -> bool {
    &&& u.dom() =~= t.dom().remove(b).insert(a)
    &&& forall|c: Seq<char>|
        u.contains_key(c) && c != a ==> is_quotient(#[trigger] u[c], t[c], t[b])
    &&& is_recip(u[a], t[b])
}

/// Re-anchors `rates`, a table quoted against `from_base`, to `to_base`.
///
/// With equal bases this is the identity. Otherwise the table must quote
/// `to_base`; each remaining quote is divided by that quote, and `from_base`
/// is inserted at its reciprocal. `to_base` itself (implicitly 1) is not
/// re-inserted.
pub fn convert_base_currency(rates: &RateTable, from_base: &str, to_base: &str) -> (r: Result<
    RateTable,
    AppError,
>)
    requires
        rates.wf(),
        forall|i: int| 0 <= i < rates.entries@.len() ==> (#[trigger] rates.entries@[i]).1.pos(),
    ensures
        r is Ok <==> from_base@ == to_base@ || (rates.as_map().contains_key(to_base@)
            && convert_fits(rates.as_map(), to_base@)),
        from_base@ != to_base@ && !rates.as_map().contains_key(to_base@) ==> (r matches Err(
            AppError::InvalidCurrency(c),
        ) && c@ == to_base@),
        r matches Ok(out) ==> out.wf() && forall|i: int|
            0 <= i < out.entries@.len() ==> (#[trigger] out.entries@[i]).1.pos(),
        r matches Err(e) ==> e is InvalidCurrency || e is Internal,
        r matches Err(AppError::InvalidCurrency(c)) ==> c@ == to_base@ && from_base@ != to_base@
            && !rates.as_map().contains_key(to_base@),
        from_base@ == to_base@ ==> (r matches Ok(out) && out.as_map() == rates.as_map()),
        from_base@ != to_base@ ==> (r matches Ok(out) ==> converted(
            rates.as_map(),
            out.as_map(),
            from_base@,
            to_base@,
        ) && reduced_quotients(rates.as_map(), out.as_map(), from_base@, to_base@)),
{
    let from_owned: String = from_base.to_owned();
    let to_owned_: String = to_base.to_owned();
    if from_owned == to_owned_ {
        return Ok(rates.duplicate());
    }
    let quote = match rates.get(to_base) {
        Some(q) => q,
        None => {
            return Err(AppError::InvalidCurrency(to_owned_));
        },
    };
    proof {
        rates.lemma_view();
        assert(quote.pos());
    }
    let ghost t = rates.as_map();
    let n = rates.len();
    let mut out = RateTable::new();
    let mut i: usize = 0;
    while i < n
        invariant
            rates.wf(),
            forall|j: int| 0 <= j < rates.entries@.len() ==> (#[trigger] rates.entries@[j]).1.pos(),
            t == rates.as_map(),
            from_owned@ == from_base@,
            to_owned_@ == to_base@,
            from_base@ != to_base@,
            t.contains_key(to_owned_@),
            t[to_owned_@] == quote,
            quote.pos(),
            n == rates.entries@.len(),
            i <= n,
            out.wf(),
            forall|c: Seq<char>|
                out.as_map().contains_key(c) ==> (#[trigger] out.as_map()[c]).pos(),
            forall|j: int|
                0 <= j < i && (#[trigger] rates.entries@[j]).0@ != to_owned_@ ==> div_fits(
                    rates.entries@[j].1,
                    quote,
                ),
            out.as_map().dom() =~= Set::new(
                |c: Seq<char>|
                    c != to_owned_@ && exists|j: int|
                        0 <= j < i && (#[trigger] rates.entries@[j]).0@ == c,
            ),
            forall|c: Seq<char>|
                out.as_map().contains_key(c) ==> is_quotient(#[trigger] out.as_map()[c], t[c], quote),
            forall|c: Seq<char>|
                out.as_map().contains_key(c) ==> (#[trigger] out.as_map()[c]).num as nat == red_num(
                    (t[c].num * quote.den) as nat,
                    (t[c].den * quote.num) as nat,
                ) && out.as_map()[c].den as nat == red_den(
                    (t[c].num * quote.den) as nat,
                    (t[c].den * quote.num) as nat,
                ),
        decreases n - i,
    {
        let code = rates.code_at(i);
        let rate = rates.rate_at(i);
        proof {
            rates.lemma_view();
            crate::table::lemma_entries_map_at(rates.entries@, i as int);
        }
        if !(code == to_owned_) {
            match rate.checked_div(&quote) {
                Some(d) => {
                    out.upsert(code, d);
                },
                None => {
                    proof {
                        assert(!div_fits(t[code@], quote));
                        assert(!convert_fits(t, to_owned_@));
                    }
                    return Err(
                        AppError::Internal(String::from_str("rate out of representable range")),
                    );
                },
            }
        }
        i = i + 1;
    }
    let ghost loop_map = out.as_map();
    let recip = quote.recip();
    out.upsert(from_owned, recip);
    proof {
        rates.lemma_view();
        assert(out.as_map().dom() =~= t.dom().remove(to_owned_@).insert(from_owned@)) by {
            assert forall|c: Seq<char>| #[trigger] t.dom().contains(c) && c != to_owned_@
                implies out.as_map().dom().contains(c) by {
                let j = choose|j: int|
                    0 <= j < rates.entries@.len() && (#[trigger] rates.entries@[j]).0@ == c;
                assert(c != to_owned_@ && exists|j2: int|
                    0 <= j2 < n && (#[trigger] rates.entries@[j2]).0@ == c);
                assert(loop_map.dom().contains(c));
            }
            assert forall|c: Seq<char>| #[trigger] out.as_map().dom().contains(c) && c
                != from_owned@ implies t.dom().contains(c) && c != to_owned_@ by {
                assert(loop_map.dom().contains(c));
                let j = choose|j: int|
                    0 <= j < n && (#[trigger] rates.entries@[j]).0@ == c;
                crate::table::lemma_entries_map_at(rates.entries@, j);
            }
        }
        assert(converted(t, out.as_map(), from_base@, to_base@));
        assert(reduced_quotients(t, out.as_map(), from_base@, to_base@)) by {
            assert(out.as_map()[from_owned@] == (Rate { num: quote.den, den: quote.num }));
            assert forall|c: Seq<char>|
                out.as_map().contains_key(c) && c != from_base@ implies (
            #[trigger] out.as_map()[c]).num as nat == red_num(
                (t[c].num * quote.den) as nat,
                (t[c].den * quote.num) as nat,
            ) && out.as_map()[c].den as nat == red_den(
                (t[c].num * quote.den) as nat,
                (t[c].den * quote.num) as nat,
            ) by {
                assert(out.as_map()[c] == loop_map[c]);
            }
        }
        assert(convert_fits(t, to_base@)) by {
            assert forall|c: Seq<char>| t.contains_key(c) && c != to_base@ implies div_fits(
                #[trigger] t[c],
                t[to_base@],
            ) by {
                let j = choose|j: int|
                    0 <= j < rates.entries@.len() && (#[trigger] rates.entries@[j]).0@ == c;
                assert(rates.entries@[j].1 == t[c]) by {
                    crate::table::lemma_entries_map_at(rates.entries@, j);
                }
            }
        }
        assert forall|i2: int| 0 <= i2 < out.entries@.len() implies (
        #[trigger] out.entries@[i2]).1.pos() by {
            out.lemma_view();
        }
    }
    Ok(out)
}

/// Multiplying equals by a positive factor preserves distinctness.
proof fn lemma_mul_cancel(x: int, y: int, a: int)
    requires
        a >= 1,
        x * a == y * a,
    ensures
        x == y,
{
    assert(x == y) by (nonlinear_arith)
        requires a >= 1, x * a == y * a;
}

/// Converting a table to itself is the identity; this is stated directly in
/// the ensures of [`convert_base_currency`]. The round trip is the law below:
/// re-anchoring from `a` to `b` and back restores every quote's value for
/// every key the two directions both carry.
pub proof fn lemma_convert_round_trip(
    t: Map<Seq<char>, Rate>,
    u: Map<Seq<char>, Rate>,
    v: Map<Seq<char>, Rate>,
    a: Seq<char>,
    b: Seq<char>,
)
    requires
        a != b,
        t.contains_key(b),
        forall|c: Seq<char>| t.contains_key(c) ==> (#[trigger] t[c]).pos(),
        forall|c: Seq<char>| u.contains_key(c) ==> (#[trigger] u[c]).pos(),
        converted(t, u, a, b),
        converted(u, v, b, a),
    ensures
        forall|c: Seq<char>|
            t.contains_key(c) && v.contains_key(c) ==> rate_eq(#[trigger] v[c], t[c]),
{
    assert forall|c: Seq<char>| t.contains_key(c) && v.contains_key(c) implies rate_eq(
        #[trigger] v[c],
        t[c],
    ) by {
        assert(v.dom() =~= u.dom().remove(a).insert(b));
        assert(u.dom() =~= t.dom().remove(b).insert(a));
        if c == b {
            // v[b] is the reciprocal of u[a], itself the reciprocal of t[b].
            let x = v[b];
            let y = u[a];
            let z = t[b];
            assert(x.num * y.num == y.den * x.den);
            assert(y.num * z.num == z.den * y.den);
            assert((x.num * z.den) * (y.num * z.num) == (z.num * x.den) * (z.den * y.den))
                by (nonlinear_arith)
                requires
                    x.num * y.num == y.den * x.den,
            ;
            assert(y.num * z.num >= 1) by (nonlinear_arith)
                requires y.num >= 1, z.num >= 1;
            lemma_mul_cancel(x.num * z.den, z.num * x.den, y.num * z.num);
        } else {
            // c keeps its quote: two exact divisions cancel.
            assert(c != a);
            assert(u.contains_key(c));
            let vc = v[c];
            let uc = u[c];
            let ua = u[a];
            let tc = t[c];
            let tb = t[b];
            // vc == uc / ua, uc == tc / tb, ua == 1 / tb.
            assert(vc.num * (uc.den * ua.num) == (uc.num * ua.den) * vc.den);
            assert(uc.num * (tc.den * tb.num) == (tc.num * tb.den) * uc.den);
            assert(ua.num * tb.num == tb.den * ua.den);
            // Scale the first equation by tc.den * tb.num and substitute.
            assert((vc.num * (uc.den * ua.num)) * (tc.den * tb.num) == ((uc.num * ua.den) * vc.den)
                * (tc.den * tb.num)) by (nonlinear_arith)
                requires
                    vc.num * (uc.den * ua.num) == (uc.num * ua.den) * vc.den,
            ;
            assert(((uc.num * ua.den) * vc.den) * (tc.den * tb.num) == ((tc.num * tb.den) * uc.den)
                * (ua.den * vc.den)) by (nonlinear_arith)
                requires
                    uc.num * (tc.den * tb.num) == (tc.num * tb.den) * uc.den,
            ;
            assert((vc.num * (uc.den * ua.num)) * (tc.den * tb.num) == (vc.num * tc.den) * (uc.den
                * (ua.num * tb.num))) by (nonlinear_arith);
            assert((vc.num * tc.den) * (uc.den * (ua.num * tb.num)) == (vc.num * tc.den) * (uc.den
                * (tb.den * ua.den))) by (nonlinear_arith)
                requires
                    ua.num * tb.num == tb.den * ua.den,
            ;
            assert(((tc.num * tb.den) * uc.den) * (ua.den * vc.den) == (tc.num * vc.den) * (uc.den
                * (tb.den * ua.den))) by (nonlinear_arith);
            assert(uc.den * (tb.den * ua.den) >= 1) by (nonlinear_arith)
                requires uc.den >= 1, tb.den >= 1, ua.den >= 1;
            lemma_mul_cancel(vc.num * tc.den, tc.num * vc.den, uc.den * (tb.den * ua.den));
        }
    }
}

} // verus!
