use vstd::prelude::*;

use crate::data::ExchangeQuotes;
use crate::data::lookup_exchange;
use crate::data::lookup_rate;
use crate::data::rate_of;
use crate::data::wf_funding_rates;
use crate::engine::OppModel;
use crate::engine::Quote;
use crate::engine::arb_opps;
use crate::engine::opp_of;
use crate::engine::opps_row;
use crate::engine::opps_rows;
use crate::engine::quoting;
use crate::engine::wf_opp;

verus! {

proof fn lemma_row_wf(symbol: Seq<char>, q: Seq<Quote>, min: int, i: int, j: int)
    ensures
        forall|k: int|
            0 <= k < opps_row(symbol, q, min, i, j).len() ==> wf_opp(
                symbol,
                min,
                #[trigger] opps_row(symbol, q, min, i, j)[k],
            ),
    decreases q.len() - j,
{
    if j >= q.len() || !(0 <= i < j) {
    } else {
        lemma_row_wf(symbol, q, min, i, j + 1);
        let o = opp_of(symbol, q[i], q[j]);
        let rest = opps_row(symbol, q, min, i, j + 1);
        if o.spread >= min {
            assert(opps_row(symbol, q, min, i, j) == seq![o] + rest);
            assert(wf_opp(symbol, min, o));
            assert forall|k: int|
                0 <= k < opps_row(symbol, q, min, i, j).len() implies wf_opp(
                symbol,
                min,
                #[trigger] opps_row(symbol, q, min, i, j)[k],
            ) by {
                if k == 0 {
                    assert(opps_row(symbol, q, min, i, j)[0] == o);
                } else {
                    assert(opps_row(symbol, q, min, i, j)[k] == rest[k - 1]);
                }
            }
        } else {
            assert(opps_row(symbol, q, min, i, j) == rest);
        }
    }
}

proof fn lemma_rows_wf(symbol: Seq<char>, q: Seq<Quote>, min: int, i: int)
    ensures
        forall|k: int|
            0 <= k < opps_rows(symbol, q, min, i).len() ==> wf_opp(
                symbol,
                min,
                #[trigger] opps_rows(symbol, q, min, i)[k],
            ),
    decreases q.len() - i,
{
    if i < 0 || i >= q.len() {
    } else {
        lemma_row_wf(symbol, q, min, i, i + 1);
        lemma_rows_wf(symbol, q, min, i + 1);
        let row = opps_row(symbol, q, min, i, i + 1);
        let rest = opps_rows(symbol, q, min, i + 1);
        assert(opps_rows(symbol, q, min, i) == row + rest);
        assert forall|k: int|
            0 <= k < opps_rows(symbol, q, min, i).len() implies wf_opp(
            symbol,
            min,
            #[trigger] opps_rows(symbol, q, min, i)[k],
        ) by {
            if k < row.len() {
                assert(opps_rows(symbol, q, min, i)[k] == row[k]);
            } else {
                assert(opps_rows(symbol, q, min, i)[k] == rest[k - row.len()]);
            }
        }
    }
}

proof fn lemma_row_complete(symbol: Seq<char>, q: Seq<Quote>, min: int, i: int, j: int, jj: int)
    requires
        0 <= i < j <= jj < q.len(),
        opp_of(symbol, q[i], q[jj]).spread >= min,
    ensures
        opps_row(symbol, q, min, i, j).contains(opp_of(symbol, q[i], q[jj])),
    decreases jj - j,
{
    let target = opp_of(symbol, q[i], q[jj]);
    let o = opp_of(symbol, q[i], q[j]);
    let rest = opps_row(symbol, q, min, i, j + 1);
    if jj == j {
        assert(opps_row(symbol, q, min, i, j) == seq![o] + rest);
        assert(opps_row(symbol, q, min, i, j)[0] == target);
    } else {
        lemma_row_complete(symbol, q, min, i, j + 1, jj);
        let idx = choose|idx: int| 0 <= idx < rest.len() && rest[idx] == target;
        if o.spread >= min {
            assert(opps_row(symbol, q, min, i, j) == seq![o] + rest);
            assert(opps_row(symbol, q, min, i, j)[idx + 1] == target);
        } else {
            assert(opps_row(symbol, q, min, i, j) == rest);
            assert(opps_row(symbol, q, min, i, j)[idx] == target);
        }
    }
}

proof fn lemma_rows_complete(symbol: Seq<char>, q: Seq<Quote>, min: int, i: int, ii: int, jj: int)
    requires
        0 <= i <= ii < jj < q.len(),
        opp_of(symbol, q[ii], q[jj]).spread >= min,
    ensures
        opps_rows(symbol, q, min, i).contains(opp_of(symbol, q[ii], q[jj])),
    decreases ii - i,
{
    let target = opp_of(symbol, q[ii], q[jj]);
    let row = opps_row(symbol, q, min, i, i + 1);
    let rest = opps_rows(symbol, q, min, i + 1);
    assert(opps_rows(symbol, q, min, i) == row + rest);
    if ii == i {
        lemma_row_complete(symbol, q, min, i, i + 1, jj);
        let idx = choose|idx: int| 0 <= idx < row.len() && row[idx] == target;
        assert(opps_rows(symbol, q, min, i)[idx] == target);
    } else {
        lemma_rows_complete(symbol, q, min, i + 1, ii, jj);
        let idx = choose|idx: int| 0 <= idx < rest.len() && rest[idx] == target;
        assert(opps_rows(symbol, q, min, i)[row.len() + idx] == target);
    }
}

/// The filter boundary is inclusive and exact: the opportunity of any pair
/// of quoting exchanges whose spread reaches `min` — equality included — is
/// in the computed sequence. Together with
/// [`lemma_opportunities_well_formed`] (no computed opportunity has a spread
/// below `min`), an opportunity appears if and only if its spread reaches
/// the threshold.
pub proof fn lemma_threshold_complete(symbol: Seq<char>, q: Seq<Quote>, min: int, i: int, j: int)
    requires
        0 <= i < j < q.len(),
        opp_of(symbol, q[i], q[j]).spread >= min,
    ensures
        arb_opps(symbol, q, min).contains(opp_of(symbol, q[i], q[j])),
{
    lemma_rows_complete(symbol, q, min, 0, i, j);
}

proof fn lemma_row_len(symbol: Seq<char>, q: Seq<Quote>, min: int, i: int, j: int)
    requires
        min <= 0,
        0 <= i < j <= q.len(),
    ensures
        opps_row(symbol, q, min, i, j).len() == q.len() - j,
    decreases q.len() - j,
{
    if j == q.len() {
    } else {
        lemma_row_len(symbol, q, min, i, j + 1);
        let o = opp_of(symbol, q[i], q[j]);
        assert(o.spread >= 0);
        assert(opps_row(symbol, q, min, i, j) == seq![o] + opps_row(symbol, q, min, i, j + 1));
    }
}

proof fn lemma_rows_len(symbol: Seq<char>, q: Seq<Quote>, min: int, i: int)
    requires
        min <= 0,
        0 <= i <= q.len(),
    ensures
        2 * opps_rows(symbol, q, min, i).len() == (q.len() - i) * (q.len() - i - 1),
    decreases q.len() - i,
{
    let n = q.len() as int;
    if i == n {
        assert((n - i) * (n - i - 1) == 0) by (nonlinear_arith)
            requires i == n;
    } else {
        lemma_rows_len(symbol, q, min, i + 1);
        lemma_row_len(symbol, q, min, i, i + 1);
        assert(opps_rows(symbol, q, min, i) == opps_row(symbol, q, min, i, i + 1) + opps_rows(
            symbol,
            q,
            min,
            i + 1,
        ));
        assert(2 * (n - i - 1) + (n - i - 1) * (n - i - 2) == (n - i) * (n - i - 1))
            by (nonlinear_arith);
    }
}

/// Before filtering, enumerating the pairs of `n` quoting exchanges yields
/// exactly `n * (n - 1) / 2` candidates. A threshold of zero filters nothing
/// out, spreads being absolute values.
pub proof fn lemma_pair_count(symbol: Seq<char>, q: Seq<Quote>)
    ensures
        2 * arb_opps(symbol, q, 0).len() == q.len() * (q.len() - 1),
        arb_opps(symbol, q, 0).len() == q.len() * (q.len() - 1) / 2,
{
    lemma_rows_len(symbol, q, 0, 0);
    let l = arb_opps(symbol, q, 0).len() as int;
    vstd::arithmetic::div_mod::lemma_div_multiples_vanish(l, 2);
    assert(q.len() * (q.len() - 1) / 2 == (2 * l) / 2);
}

/// Two opportunities concern the same unordered pair of exchanges.
pub open spec fn same_pair(o1: OppModel, o2: OppModel) -> bool {
    ||| (o1.exchange1 == o2.exchange1 && o1.exchange2 == o2.exchange2)
    ||| (o1.exchange1 == o2.exchange2 && o1.exchange2 == o2.exchange1)
}

/// No exchange identifier occurs twice among the quotes.
pub open spec fn unique_exchanges(q: Seq<Quote>) -> bool {
    forall|a: int, b: int| 0 <= a < b < q.len() ==> q[a].exchange != q[b].exchange
}

/// No unordered pair of exchanges occurs twice in the sequence.
pub open spec fn distinct_pairs(s: Seq<OppModel>) -> bool {
    forall|k1: int, k2: int| 0 <= k1 < k2 < s.len() ==> !#[trigger] same_pair(s[k1], s[k2])
}

proof fn lemma_row_avoids(symbol: Seq<char>, q: Seq<Quote>, min: int, i: int, j: int, e: Seq<char>)
    requires
        0 <= i < q.len() ==> q[i].exchange != e,
        forall|t: int| j <= t < q.len() ==> q[t].exchange != e,
    ensures
        forall|k: int|
            0 <= k < opps_row(symbol, q, min, i, j).len() ==> (#[trigger] opps_row(
                symbol,
                q,
                min,
                i,
                j,
            )[k]).exchange1 != e && opps_row(symbol, q, min, i, j)[k].exchange2 != e,
    decreases q.len() - j,
{
    if j >= q.len() || !(0 <= i < j) {
    } else {
        lemma_row_avoids(symbol, q, min, i, j + 1, e);
        let o = opp_of(symbol, q[i], q[j]);
        let rest = opps_row(symbol, q, min, i, j + 1);
        if o.spread >= min {
            assert(opps_row(symbol, q, min, i, j) == seq![o] + rest);
            assert forall|k: int|
                0 <= k < opps_row(symbol, q, min, i, j).len() implies (#[trigger] opps_row(
                symbol,
                q,
                min,
                i,
                j,
            )[k]).exchange1 != e && opps_row(symbol, q, min, i, j)[k].exchange2 != e by {
                if k == 0 {
                    assert(opps_row(symbol, q, min, i, j)[0] == o);
                } else {
                    assert(opps_row(symbol, q, min, i, j)[k] == rest[k - 1]);
                }
            }
        } else {
            assert(opps_row(symbol, q, min, i, j) == rest);
        }
    }
}

proof fn lemma_rows_avoids(symbol: Seq<char>, q: Seq<Quote>, min: int, i: int, e: Seq<char>)
    requires
        forall|t: int| i <= t < q.len() ==> q[t].exchange != e,
    ensures
        forall|k: int|
            0 <= k < opps_rows(symbol, q, min, i).len() ==> (#[trigger] opps_rows(
                symbol,
                q,
                min,
                i,
            )[k]).exchange1 != e && opps_rows(symbol, q, min, i)[k].exchange2 != e,
    decreases q.len() - i,
{
    if i < 0 || i >= q.len() {
    } else {
        lemma_row_avoids(symbol, q, min, i, i + 1, e);
        lemma_rows_avoids(symbol, q, min, i + 1, e);
        let row = opps_row(symbol, q, min, i, i + 1);
        let rest = opps_rows(symbol, q, min, i + 1);
        assert(opps_rows(symbol, q, min, i) == row + rest);
        assert forall|k: int|
            0 <= k < opps_rows(symbol, q, min, i).len() implies (#[trigger] opps_rows(
            symbol,
            q,
            min,
            i,
        )[k]).exchange1 != e && opps_rows(symbol, q, min, i)[k].exchange2 != e by {
            if k < row.len() {
                assert(opps_rows(symbol, q, min, i)[k] == row[k]);
            } else {
                assert(opps_rows(symbol, q, min, i)[k] == rest[k - row.len()]);
            }
        }
    }
}

proof fn lemma_row_distinct(symbol: Seq<char>, q: Seq<Quote>, min: int, i: int, j: int)
    requires
        unique_exchanges(q),
        0 <= i < j,
    ensures
        forall|k: int|
            0 <= k < opps_row(symbol, q, min, i, j).len() ==> (#[trigger] opps_row(
                symbol,
                q,
                min,
                i,
                j,
            )[k]).exchange1 == q[i].exchange && opps_row(symbol, q, min, i, j)[k].exchange2
                != q[i].exchange,
        forall|k1: int, k2: int|
            0 <= k1 < k2 < opps_row(symbol, q, min, i, j).len() ==> (#[trigger] opps_row(
                symbol,
                q,
                min,
                i,
                j,
            )[k1]).exchange2 != (#[trigger] opps_row(symbol, q, min, i, j)[k2]).exchange2,
    decreases q.len() - j,
{
    if j >= q.len() {
    } else {
        lemma_row_distinct(symbol, q, min, i, j + 1);
        lemma_row_avoids(symbol, q, min, i, j + 1, q[j].exchange);
        let o = opp_of(symbol, q[i], q[j]);
        let rest = opps_row(symbol, q, min, i, j + 1);
        if o.spread >= min {
            assert(opps_row(symbol, q, min, i, j) == seq![o] + rest);
            assert forall|k: int|
                0 <= k < opps_row(symbol, q, min, i, j).len() implies (#[trigger] opps_row(
                symbol,
                q,
                min,
                i,
                j,
            )[k]).exchange1 == q[i].exchange && opps_row(symbol, q, min, i, j)[k].exchange2
                != q[i].exchange by {
                if k == 0 {
                    assert(opps_row(symbol, q, min, i, j)[0] == o);
                } else {
                    assert(opps_row(symbol, q, min, i, j)[k] == rest[k - 1]);
                }
            }
            assert forall|k1: int, k2: int|
                0 <= k1 < k2 < opps_row(symbol, q, min, i, j).len() implies (
            #[trigger] opps_row(symbol, q, min, i, j)[k1]).exchange2 != (#[trigger] opps_row(
                symbol,
                q,
                min,
                i,
                j,
            )[k2]).exchange2 by {
                if k1 == 0 {
                    assert(opps_row(symbol, q, min, i, j)[0] == o);
                    assert(opps_row(symbol, q, min, i, j)[k2] == rest[k2 - 1]);
                    assert(rest[k2 - 1].exchange2 != q[j].exchange);
                } else {
                    assert(opps_row(symbol, q, min, i, j)[k1] == rest[k1 - 1]);
                    assert(opps_row(symbol, q, min, i, j)[k2] == rest[k2 - 1]);
                }
            }
        } else {
            assert(opps_row(symbol, q, min, i, j) == rest);
        }
    }
}

proof fn lemma_rows_distinct(symbol: Seq<char>, q: Seq<Quote>, min: int, i: int)
    requires
        unique_exchanges(q),
        0 <= i,
    ensures
        forall|k: int|
            0 <= k < opps_rows(symbol, q, min, i).len() ==> (#[trigger] opps_rows(
                symbol,
                q,
                min,
                i,
            )[k]).exchange1 != opps_rows(symbol, q, min, i)[k].exchange2,
        distinct_pairs(opps_rows(symbol, q, min, i)),
    decreases q.len() - i,
{
    if i >= q.len() {
    } else {
        lemma_rows_distinct(symbol, q, min, i + 1);
        lemma_row_distinct(symbol, q, min, i, i + 1);
        lemma_rows_avoids(symbol, q, min, i + 1, q[i].exchange);
        let row = opps_row(symbol, q, min, i, i + 1);
        let rest = opps_rows(symbol, q, min, i + 1);
        let s = opps_rows(symbol, q, min, i);
        assert(s == row + rest);
        assert forall|k: int|
            0 <= k < s.len() implies (#[trigger] s[k]).exchange1 != s[k].exchange2 by {
            if k < row.len() {
                assert(s[k] == row[k]);
            } else {
                assert(s[k] == rest[k - row.len()]);
            }
        }
        assert forall|k1: int, k2: int|
            0 <= k1 < k2 < s.len() implies !#[trigger] same_pair(s[k1], s[k2]) by {
            if k2 < row.len() {
                assert(s[k1] == row[k1]);
                assert(s[k2] == row[k2]);
                assert(row[k1].exchange1 == q[i].exchange);
                assert(row[k2].exchange1 == q[i].exchange);
                assert(row[k1].exchange2 != row[k2].exchange2);
                assert(row[k1].exchange2 != q[i].exchange);
                assert(row[k2].exchange2 != q[i].exchange);
            } else if k1 < row.len() {
                assert(s[k1] == row[k1]);
                assert(s[k2] == rest[k2 - row.len()]);
                assert(row[k1].exchange1 == q[i].exchange);
                assert(rest[k2 - row.len()].exchange1 != q[i].exchange);
                assert(rest[k2 - row.len()].exchange2 != q[i].exchange);
            } else {
                assert(s[k1] == rest[k1 - row.len()]);
                assert(s[k2] == rest[k2 - row.len()]);
                assert(!same_pair(rest[k1 - row.len()], rest[k2 - row.len()]));
            }
        }
    }
}

/// With distinct quoting exchanges, no exchange is ever paired with itself
/// and no unordered pair of exchanges appears twice, whatever the threshold.
pub proof fn lemma_pairs_distinct(symbol: Seq<char>, q: Seq<Quote>, min: int)
    requires
        unique_exchanges(q),
    ensures
        forall|k: int|
            0 <= k < arb_opps(symbol, q, min).len() ==> (#[trigger] arb_opps(
                symbol,
                q,
                min,
            )[k]).exchange1 != arb_opps(symbol, q, min)[k].exchange2,
        distinct_pairs(arb_opps(symbol, q, min)),
{
    lemma_rows_distinct(symbol, q, min, 0);
}

/// Well-formedness of a rate mapping carries over to its prefixes.
proof fn lemma_wf_drop_last(fr: Seq<ExchangeQuotes>)
    requires
        wf_funding_rates(fr),
        fr.len() > 0,
    ensures
        wf_funding_rates(fr.drop_last()),
{
    let prefix = fr.drop_last();
    assert forall|a: int, b: int| 0 <= a < b < prefix.len() implies prefix[a].exchange@
        != prefix[b].exchange@ by {
        assert(prefix[a] == fr[a]);
        assert(prefix[b] == fr[b]);
    }
    assert forall|a: int| 0 <= a < prefix.len() implies crate::data::wf_entries(
        #[trigger] prefix[a].entries@,
    ) by {
        assert(prefix[a] == fr[a]);
    }
}

proof fn lemma_lookup_exchange_extend(fr: Seq<ExchangeQuotes>, e: Seq<char>)
    requires
        fr.len() > 0,
    ensures
        lookup_exchange(fr.drop_last(), e) matches Some(s) ==> lookup_exchange(fr, e) == Some(s),
        lookup_exchange(fr.drop_last(), e) is None ==> lookup_exchange(fr, e) == (
        if fr.last().exchange@ == e {
            Some(fr.last().entries@)
        } else {
            None
        }),
    decreases fr.len(),
{
    let prefix = fr.drop_last();
    if fr.len() == 1 {
        assert(prefix =~= Seq::<ExchangeQuotes>::empty());
        assert(fr.last() == fr[0]);
    } else {
        assert(prefix[0] == fr[0]);
        if fr[0].exchange@ == e {
        } else {
            assert(prefix.drop_first() =~= fr.drop_first().drop_last());
            assert(fr.drop_first().last() == fr.last());
            lemma_lookup_exchange_extend(fr.drop_first(), e);
        }
    }
}

proof fn lemma_lookup_exchange_absent(fr: Seq<ExchangeQuotes>, e: Seq<char>)
    requires
        forall|t: int| 0 <= t < fr.len() ==> (#[trigger] fr[t].exchange@) != e,
    ensures
        lookup_exchange(fr, e) is None,
    decreases fr.len(),
{
    if fr.len() == 0 {
    } else {
        assert forall|t: int| 0 <= t < fr.drop_first().len() implies (#[trigger] fr.drop_first()[t].exchange@)
            != e by {
            assert(fr.drop_first()[t] == fr[t + 1]);
        }
        lemma_lookup_exchange_absent(fr.drop_first(), e);
    }
}

/// For a well-formed snapshot, the quoting list for a symbol is exactly the
/// rate mapping restricted to the exchanges that quote it: every listed
/// quote is the rate the snapshot holds for that exchange and symbol, and
/// every exchange holding a rate for the symbol is listed with it.
pub proof fn lemma_quoting_matches_rates(fr: Seq<ExchangeQuotes>, symbol: Seq<char>)
    requires
        wf_funding_rates(fr),
    ensures
        forall|k: int|
            0 <= k < quoting(fr, symbol).len() ==> rate_of(
                fr,
                (#[trigger] quoting(fr, symbol)[k]).exchange,
                symbol,
            ) == Some(quoting(fr, symbol)[k].rate),
        forall|e: Seq<char>, r: int|
            rate_of(fr, e, symbol) == Some(r) ==> #[trigger] quoting(fr, symbol).contains(
                Quote { exchange: e, rate: r },
            ),
    decreases fr.len(),
{
    if fr.len() == 0 {
    } else {
        let prefix_fr = fr.drop_last();
        lemma_wf_drop_last(fr);
        lemma_quoting_matches_rates(prefix_fr, symbol);
        let prefix = quoting(prefix_fr, symbol);
        let s = quoting(fr, symbol);
        let last = fr.last();
        assert(last == fr[fr.len() - 1]);
        assert forall|t: int| 0 <= t < prefix_fr.len() implies (#[trigger] prefix_fr[t].exchange@)
            != last.exchange@ by {
            assert(prefix_fr[t] == fr[t]);
        }
        lemma_lookup_exchange_absent(prefix_fr, last.exchange@);

        assert forall|k: int| 0 <= k < s.len() implies rate_of(
            fr,
            (#[trigger] s[k]).exchange,
            symbol,
        ) == Some(s[k].rate) by {
            lemma_lookup_exchange_extend(fr, s[k].exchange);
            if k < prefix.len() {
                assert(s[k] == prefix[k]);
            } else {
                assert(s[k] == Quote {
                    exchange: last.exchange@,
                    rate: lookup_rate(last.entries@, symbol)->Some_0,
                });
            }
        }

        assert forall|e: Seq<char>, r: int| rate_of(fr, e, symbol) == Some(r) implies
            #[trigger] s.contains(Quote { exchange: e, rate: r }) by {
            lemma_lookup_exchange_extend(fr, e);
            match lookup_exchange(prefix_fr, e) {
                Some(_) => {
                    assert(rate_of(prefix_fr, e, symbol) == Some(r));
                    assert(prefix.contains(Quote { exchange: e, rate: r }));
                    let idx = choose|idx: int|
                        0 <= idx < prefix.len() && prefix[idx] == Quote { exchange: e, rate: r };
                    assert(s[idx] == Quote { exchange: e, rate: r });
                },
                None => {
                    assert(e == last.exchange@);
                    assert(lookup_rate(last.entries@, symbol) == Some(r));
                    assert(s == prefix.push(Quote { exchange: e, rate: r }));
                    assert(s[s.len() - 1] == Quote { exchange: e, rate: r });
                },
            }
        }
    }
}

proof fn lemma_quoting_avoids(fr: Seq<ExchangeQuotes>, symbol: Seq<char>, e: Seq<char>)
    requires
        forall|t: int| 0 <= t < fr.len() ==> (#[trigger] fr[t].exchange@) != e,
    ensures
        forall|k: int|
            0 <= k < quoting(fr, symbol).len() ==> (#[trigger] quoting(fr, symbol)[k]).exchange
                != e,
    decreases fr.len(),
{
    if fr.len() == 0 {
    } else {
        assert forall|t: int| 0 <= t < fr.drop_last().len() implies (#[trigger] fr.drop_last()[t].exchange@)
            != e by {
            assert(fr.drop_last()[t] == fr[t]);
        }
        lemma_quoting_avoids(fr.drop_last(), symbol, e);
        assert(fr.last() == fr[fr.len() - 1]);
        let prefix = quoting(fr.drop_last(), symbol);
        match crate::data::lookup_rate(fr.last().entries@, symbol) {
            Some(r) => {
                let s = quoting(fr, symbol);
                assert(s == prefix.push(Quote { exchange: fr.last().exchange@, rate: r }));
                assert forall|k: int| 0 <= k < s.len() implies (#[trigger] s[k]).exchange
                    != e by {
                    if k < prefix.len() {
                        assert(s[k] == prefix[k]);
                    } else {
                        assert(s[k].exchange == fr[fr.len() - 1].exchange@);
                    }
                }
            },
            None => {
                assert(quoting(fr, symbol) == prefix);
            },
        }
    }
}

/// A well-formed snapshot's rate mapping never lists an exchange twice, so
/// the quoting list for any symbol carries distinct exchange identifiers.
pub proof fn lemma_quoting_unique(fr: Seq<ExchangeQuotes>, symbol: Seq<char>)
    requires
        wf_funding_rates(fr),
    ensures
        unique_exchanges(quoting(fr, symbol)),
    decreases fr.len(),
{
    if fr.len() == 0 {
    } else {
        let prefix_fr = fr.drop_last();
        lemma_wf_drop_last(fr);
        lemma_quoting_unique(prefix_fr, symbol);
        let e = fr.last().exchange@;
        assert(fr.last() == fr[fr.len() - 1]);
        assert forall|t: int| 0 <= t < prefix_fr.len() implies (#[trigger] prefix_fr[t].exchange@)
            != e by {
            assert(prefix_fr[t] == fr[t]);
        }
        lemma_quoting_avoids(prefix_fr, symbol, e);
        let prefix = quoting(prefix_fr, symbol);
        match crate::data::lookup_rate(fr.last().entries@, symbol) {
            Some(r) => {
                let pushed = prefix.push(Quote { exchange: e, rate: r });
                assert forall|a: int, b: int| 0 <= a < b < pushed.len() implies pushed[a].exchange
                    != pushed[b].exchange by {
                    if b < prefix.len() {
                        assert(pushed[a] == prefix[a]);
                        assert(pushed[b] == prefix[b]);
                    } else {
                        assert(pushed[a] == prefix[a]);
                        assert(pushed[b].exchange == e);
                    }
                }
            },
            None => {},
        }
    }
}

/// Every computed opportunity is well formed: it carries the requested
/// symbol, its spread is the absolute difference of its two raw rates and
/// reaches the threshold, and the exchange with the numerically smaller rate
/// is the long leg, the other the short leg — so the long leg's rate never
/// exceeds the short leg's.
pub proof fn lemma_opportunities_well_formed(symbol: Seq<char>, q: Seq<Quote>, min: int)
    ensures
        forall|k: int|
            0 <= k < arb_opps(symbol, q, min).len() ==> wf_opp(
                symbol,
                min,
                #[trigger] arb_opps(symbol, q, min)[k],
            ),
{
    lemma_rows_wf(symbol, q, min, 0);
}

} // verus!
