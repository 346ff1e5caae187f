use vstd::prelude::*;

use crate::data::ExchangeQuotes;
use crate::data::FundingRatesData;
use crate::data::lookup_rate;

verus! {

/// One exchange's quote for the symbol under consideration: the exchange
/// identifier and the raw fixed-point rate.
pub ghost struct Quote {
    pub exchange: Seq<char>,
    pub rate: int,
}

/// Mathematical model of an [`ArbitrageOpportunity`].
pub ghost struct OppModel {
    pub symbol: Seq<char>,
    pub exchange1: Seq<char>,
    pub rate1: int,
    pub exchange2: Seq<char>,
    pub rate2: int,
    pub spread: int,
    pub long_exchange: Seq<char>,
    pub short_exchange: Seq<char>,
}

/// A qualifying exchange pair for one symbol, in raw fixed-point units
/// (scale 1/10000).
///
/// `spread` is the absolute difference of the two raw rates; the exchange
/// with the numerically smaller rate is the `long_exchange` (a long holder
/// pays less / receives more under standard funding convention), the other
/// the `short_exchange`. Conversion of rates and spread to decimal form
/// (divide by 10000) is a caller concern at the output boundary.
#[derive(Debug, Clone)]
pub struct ArbitrageOpportunity {
    pub symbol: String,
    pub exchange1: String,
    pub rate1: i32,
    pub exchange2: String,
    pub rate2: i32,
    pub spread: u32,
    pub long_exchange: String,
    pub short_exchange: String,
}

impl View for ArbitrageOpportunity {
    type V = OppModel;

    open spec fn view(&self) -> OppModel {
        OppModel {
            symbol: self.symbol@,
            exchange1: self.exchange1@,
            rate1: self.rate1 as int,
            exchange2: self.exchange2@,
            rate2: self.rate2 as int,
            spread: self.spread as int,
            long_exchange: self.long_exchange@,
            short_exchange: self.short_exchange@,
        }
    }
}

/// The models of a sequence of opportunities.
pub open spec fn views_of(s: Seq<ArbitrageOpportunity>) -> Seq<OppModel> {
    s.map_values(|o: ArbitrageOpportunity| o@)
}

/// The quotes of a collected (exchange, raw rate) list.
pub open spec fn quotes_of(s: Seq<(String, i32)>) -> Seq<Quote> {
    s.map_values(|p: (String, i32)| Quote { exchange: p.0@, rate: p.1 as int })
}

/// The exchanges quoting `symbol` in `fr`, each with its raw rate, in the
/// order the rate mapping lists them. Exchanges with no quote for the symbol
/// are silently excluded.
pub open spec fn quoting(fr: Seq<ExchangeQuotes>, symbol: Seq<char>) -> Seq<Quote>
    decreases fr.len(),
{
    if fr.len() == 0 {
        Seq::empty()
    } else {
        let prefix = quoting(fr.drop_last(), symbol);
        match lookup_rate(fr.last().entries@, symbol) {
            Some(r) => prefix.push(Quote { exchange: fr.last().exchange@, rate: r }),
            None => prefix,
        }
    }
}

/// Absolute difference of two raw rates.
pub open spec fn spread_of(r1: int, r2: int) -> int {
    if r1 >= r2 {
        r1 - r2
    } else {
        r2 - r1
    }
}

/// The opportunity built from two quotes for `symbol`: both legs, the
/// absolute spread, and the long/short assignment by rate comparison.
pub open spec fn opp_of(symbol: Seq<char>, a: Quote, b: Quote) -> OppModel {
    OppModel {
        symbol: symbol,
        exchange1: a.exchange,
        rate1: a.rate,
        exchange2: b.exchange,
        rate2: b.rate,
        spread: spread_of(a.rate, b.rate),
        long_exchange: if a.rate < b.rate {
            a.exchange
        } else {
            b.exchange
        },
        short_exchange: if a.rate < b.rate {
            b.exchange
        } else {
            a.exchange
        },
    }
}

/// The opportunities of the pairs `(i, j), (i, j+1), ..., (i, n-1)` whose
/// spread reaches `min`, in that order.
pub open spec fn opps_row(symbol: Seq<char>, q: Seq<Quote>, min: int, i: int, j: int) -> Seq<
    OppModel,
>
    decreases q.len() - j,
{
    if j >= q.len() || !(0 <= i < j) {
        Seq::empty()
    } else {
        let o = opp_of(symbol, q[i], q[j]);
        let rest = opps_row(symbol, q, min, i, j + 1);
        if o.spread >= min {
            seq![o] + rest
        } else {
            rest
        }
    }
}

/// The opportunities of all pairs `(i', j')` with `i <= i' < j' < n` whose
/// spread reaches `min`, enumerated first-index-major.
pub open spec fn opps_rows(symbol: Seq<char>, q: Seq<Quote>, min: int, i: int) -> Seq<OppModel>
    decreases q.len() - i,
{
    if i < 0 || i >= q.len() {
        Seq::empty()
    } else {
        opps_row(symbol, q, min, i, i + 1) + opps_rows(symbol, q, min, i + 1)
    }
}

/// Every opportunity of `symbol` among the quotes `q` whose spread reaches
/// `min`: each unordered pair of distinct quoting exchanges considered
/// exactly once, in discovery order.
pub open spec fn arb_opps(symbol: Seq<char>, q: Seq<Quote>, min: int) -> Seq<OppModel> {
    opps_rows(symbol, q, min, 0)
}

/// The raw rate an opportunity assigns to the leg named `leg`.
pub open spec fn leg_rate(o: OppModel, leg: Seq<char>) -> int {
    if leg == o.exchange1 {
        o.rate1
    } else {
        o.rate2
    }
}

/// What holds of every single opportunity computed for `symbol` under the
/// threshold `min`: it is about that symbol; its spread is the absolute
/// difference of its two raw rates and reaches the threshold; the leg with
/// the numerically smaller rate is the long one, the other the short one.
pub open spec fn wf_opp(symbol: Seq<char>, min: int, o: OppModel) -> bool {
    &&& o.symbol == symbol
    &&& o.spread == spread_of(o.rate1, o.rate2)
    &&& o.spread >= min
    &&& (o.rate1 < o.rate2 ==> o.long_exchange == o.exchange1 && o.short_exchange == o.exchange2)
    &&& (o.rate1 >= o.rate2 ==> o.long_exchange == o.exchange2 && o.short_exchange == o.exchange1)
    &&& leg_rate(o, o.long_exchange) <= leg_rate(o, o.short_exchange)
}

/// Sorted by spread, largest first.
pub open spec fn sorted_desc(s: Seq<OppModel>) -> bool {
    forall|a: int, b: int|
        0 <= a <= b < s.len() ==> #[trigger] s[a].spread >= #[trigger] s[b].spread
}

/// Sorts opportunities by spread, largest first, by insertion into a fresh
/// vector. Equal spreads keep no particular order beyond determinism of this
/// procedure; the result is some spread-descending arrangement of the input.
fn sort_by_spread_desc(input: Vec<ArbitrageOpportunity>) -> (r: Vec<ArbitrageOpportunity>)
    ensures
        views_of(r@).to_multiset() == views_of(input@).to_multiset(),
        sorted_desc(views_of(r@)),
        r@.len() == input@.len(),
{
    broadcast use vstd::seq_lib::group_to_multiset_ensures;

    let mut rest = input;
    let ghost all = views_of(rest@);
    let mut out: Vec<ArbitrageOpportunity> = Vec::new();
    proof {
        assert(views_of(out@) =~= Seq::<OppModel>::empty());
        assert(views_of(out@).to_multiset().add(views_of(rest@).to_multiset()) =~= all.to_multiset());
    }
    while rest.len() > 0
        invariant
            sorted_desc(views_of(out@)),
            views_of(out@).to_multiset().add(views_of(rest@).to_multiset()) == all.to_multiset(),
            out@.len() + rest@.len() == all.len(),
        decreases rest.len(),
    {
        let ghost rest_before = rest@;
        let x = rest.pop().unwrap();
        proof {
            assert(views_of(rest_before) =~= views_of(rest@).push(x@));
        }
        let mut k: usize = 0;
        while k < out.len() && out[k].spread >= x.spread
            invariant
                0 <= k <= out@.len(),
                forall|t: int| 0 <= t < k ==> #[trigger] views_of(out@)[t].spread >= x@.spread,
            decreases out@.len() - k,
        {
            assert(views_of(out@)[k as int] == out@[k as int]@);
            k = k + 1;
        }
        let ghost out_before = views_of(out@);
        let ghost pos = k as int;
        proof {
            assert(pos < out_before.len() ==> out_before[pos].spread < x@.spread);
        }
        out.insert(k, x);
        proof {
            assert(views_of(out@) =~= out_before.insert(pos, x@));
            out_before.insert_ensures(pos, x@);
            let vn = views_of(out@);
            assert forall|a: int, b: int|
                0 <= a <= b < vn.len() implies #[trigger] vn[a].spread
                >= #[trigger] vn[b].spread by {
                if a < pos {
                    assert(vn[a] == out_before[a]);
                }
                if b < pos {
                    assert(vn[b] == out_before[b]);
                }
                if a > pos {
                    assert(vn[a] == out_before[a - 1]);
                }
                if b > pos {
                    assert(vn[b] == out_before[b - 1]);
                }
                if a == pos && b > pos {
                    assert(out_before[pos].spread < x@.spread);
                    assert(out_before[b - 1].spread <= out_before[pos].spread);
                }
            }
            vstd::seq_lib::to_multiset_insert(out_before, pos, x@);
            assert(vn.to_multiset() =~= out_before.to_multiset().insert(x@));
            assert(out_before.to_multiset().insert(x@).add(views_of(rest@).to_multiset())
                =~= out_before.to_multiset().add(views_of(rest@).to_multiset().insert(x@)));
            vstd::seq_lib::to_multiset_build(views_of(rest@), x@);
            assert(views_of(rest@).to_multiset().insert(x@) =~= views_of(
                rest_before,
            ).to_multiset());
        }
    }
    proof {
        assert(views_of(rest@) =~= Seq::<OppModel>::empty());
        assert(views_of(out@).to_multiset().add(Seq::<OppModel>::empty().to_multiset())
            =~= views_of(out@).to_multiset());
    }
    out
}

/// Fewer than two quotes admit no exchange pair, so no opportunity.
pub proof fn lemma_arb_opps_few(symbol: Seq<char>, q: Seq<Quote>, min: int)
    requires
        q.len() < 2,
    ensures
        arb_opps(symbol, q, min) == Seq::<OppModel>::empty(),
{
    if q.len() == 1 {
        assert(opps_row(symbol, q, min, 0, 1) =~= Seq::<OppModel>::empty());
        assert(opps_rows(symbol, q, min, 1) =~= Seq::<OppModel>::empty());
        assert(arb_opps(symbol, q, min) =~= Seq::<OppModel>::empty());
    } else {
        assert(arb_opps(symbol, q, min) =~= Seq::<OppModel>::empty());
    }
}

impl FundingRatesData {
    /// Finds every arbitrage opportunity for `symbol` whose spread reaches
    /// `min_spread` (in raw fixed-point units, scale 1/10000), sorted by
    /// spread descending.
    ///
    /// Exchanges that do not quote the symbol are silently excluded; fewer
    /// than two quoting exchanges yield an empty sequence, which is a normal
    /// outcome, not an error. An opportunity whose spread equals `min_spread`
    /// exactly is included. Ties on equal spread are ordered by this
    /// procedure deterministically, but no particular tie order is promised.
    pub fn find_arbitrage_opportunities(&self, symbol: &str, min_spread: u32) -> (r: Vec<
        ArbitrageOpportunity,
    >)
        ensures
            views_of(r@).to_multiset() == arb_opps(
                symbol@,
                quoting(self.funding_rates@, symbol@),
                min_spread as int,
            ).to_multiset(),
            sorted_desc(views_of(r@)),
            r@.len() == arb_opps(
                symbol@,
                quoting(self.funding_rates@, symbol@),
                min_spread as int,
            ).len(),
            quoting(self.funding_rates@, symbol@).len() < 2 ==> r@.len() == 0,
            forall|k: int|
                0 <= k < r@.len() ==> wf_opp(
                    symbol@,
                    min_spread as int,
                    #[trigger] views_of(r@)[k],
                ),
    {
        let symbol_key: String = symbol.to_owned();
        let fr = &self.funding_rates;
        let ghost m = min_spread as int;

        // Collect the rates quoted for the symbol, in mapping order.
        let mut rates: Vec<(String, i32)> = Vec::new();
        let mut i: usize = 0;
        proof {
            assert(fr@.take(0) =~= Seq::<ExchangeQuotes>::empty());
            assert(quotes_of(rates@) =~= quoting(fr@.take(0), symbol@));
        }
        while i < fr.len()
            invariant
                0 <= i <= fr@.len(),
                symbol_key@ == symbol@,
                quotes_of(rates@) == quoting(fr@.take(i as int), symbol@),
            decreases fr@.len() - i,
        {
            let ghost before = rates@;
            match crate::data::find_rate(&fr[i].entries, &symbol_key) {
                Some(rate) => {
                    rates.push((fr[i].exchange.clone(), rate));
                    proof {
                        assert(quotes_of(rates@) =~= quotes_of(before).push(
                            Quote { exchange: fr@[i as int].exchange@, rate: rate as int },
                        ));
                    }
                },
                None => {},
            }
            proof {
                assert(fr@.take(i as int + 1).drop_last() =~= fr@.take(i as int));
                assert(fr@.take(i as int + 1).last() == fr@[i as int]);
            }
            i = i + 1;
        }
        proof {
            assert(fr@.take(fr@.len() as int) =~= fr@);
        }
        let ghost q = quoting(fr@, symbol@);

        if rates.len() < 2 {
            let out: Vec<ArbitrageOpportunity> = Vec::new();
            proof {
                lemma_arb_opps_few(symbol@, q, m);
                assert(views_of(out@) =~= Seq::<OppModel>::empty());
                assert(views_of(out@).to_multiset() =~= arb_opps(symbol@, q, m).to_multiset());
                assert(views_of(out@).len() == 0);
            }
            return out;
        }
        let n = rates.len();

        // Enumerate every unordered pair of distinct quoting exchanges
        // exactly once and keep the pairs whose spread reaches the threshold.
        let mut opps: Vec<ArbitrageOpportunity> = Vec::new();
        proof {
            assert(views_of(opps@) =~= Seq::<OppModel>::empty());
            assert(views_of(opps@) + opps_rows(symbol@, q, m, 0) =~= opps_rows(symbol@, q, m, 0));
        }
        let mut i: usize = 0;
        while i < n
            invariant
                0 <= i <= n,
                n == rates@.len(),
                n >= 2,
                q == quotes_of(rates@),
                symbol_key@ == symbol@,
                m == min_spread as int,
                views_of(opps@) + opps_rows(symbol@, q, m, i as int) == opps_rows(
                    symbol@,
                    q,
                    m,
                    0,
                ),
            decreases n - i,
        {
            let mut j: usize = i + 1;
            proof {
                assert(views_of(opps@) + opps_row(symbol@, q, m, i as int, i as int + 1)
                    + opps_rows(symbol@, q, m, i as int + 1) =~= views_of(opps@) + (opps_row(
                    symbol@,
                    q,
                    m,
                    i as int,
                    i as int + 1,
                ) + opps_rows(symbol@, q, m, i as int + 1)));
            }
            while j < n
                invariant
                    0 <= i < j <= n,
                    n == rates@.len(),
                    q == quotes_of(rates@),
                    symbol_key@ == symbol@,
                    m == min_spread as int,
                    views_of(opps@) + opps_row(symbol@, q, m, i as int, j as int) + opps_rows(
                        symbol@,
                        q,
                        m,
                        i as int + 1,
                    ) == opps_rows(symbol@, q, m, 0),
                decreases n - j,
            {
                let rate1: i32 = rates[i].1;
                let rate2: i32 = rates[j].1;
                let d: i64 = rate1 as i64 - rate2 as i64;
                let a64: i64 = if d < 0 {
                    -d
                } else {
                    d
                };
                let spread: u32 = a64 as u32;
                let ghost o = opp_of(symbol@, q[i as int], q[j as int]);
                proof {
                    assert(q[i as int] == Quote {
                        exchange: rates@[i as int].0@,
                        rate: rates@[i as int].1 as int,
                    });
                    assert(q[j as int] == Quote {
                        exchange: rates@[j as int].0@,
                        rate: rates@[j as int].1 as int,
                    });
                    assert(0 <= a64 <= u32::MAX as i64);
                    assert(spread as int == spread_of(rate1 as int, rate2 as int));
                }
                if spread >= min_spread {
                    let exchange1 = rates[i].0.clone();
                    let exchange2 = rates[j].0.clone();
                    let long_exchange = if rate1 < rate2 {
                        rates[i].0.clone()
                    } else {
                        rates[j].0.clone()
                    };
                    let short_exchange = if rate1 < rate2 {
                        rates[j].0.clone()
                    } else {
                        rates[i].0.clone()
                    };
                    let opp = ArbitrageOpportunity {
                        symbol: symbol_key.clone(),
                        exchange1,
                        rate1,
                        exchange2,
                        rate2,
                        spread,
                        long_exchange,
                        short_exchange,
                    };
                    let ghost before = opps@;
                    proof {
                        assert(opp@ == o);
                    }
                    opps.push(opp);
                    proof {
                        assert(views_of(opps@) =~= views_of(before) + seq![o]);
                        assert(opps_row(symbol@, q, m, i as int, j as int) == seq![o] + opps_row(
                            symbol@,
                            q,
                            m,
                            i as int,
                            j as int + 1,
                        ));
                        assert(views_of(opps@) + opps_row(symbol@, q, m, i as int, j as int + 1)
                            + opps_rows(symbol@, q, m, i as int + 1) =~= views_of(before)
                            + opps_row(symbol@, q, m, i as int, j as int) + opps_rows(
                            symbol@,
                            q,
                            m,
                            i as int + 1,
                        ));
                    }
                } else {
                    proof {
                        assert(opps_row(symbol@, q, m, i as int, j as int) == opps_row(
                            symbol@,
                            q,
                            m,
                            i as int,
                            j as int + 1,
                        ));
                    }
                }
                j = j + 1;
            }
            proof {
                assert(opps_row(symbol@, q, m, i as int, n as int) =~= Seq::<OppModel>::empty());
                assert(views_of(opps@) + Seq::<OppModel>::empty() + opps_rows(
                    symbol@,
                    q,
                    m,
                    i as int + 1,
                ) =~= views_of(opps@) + opps_rows(symbol@, q, m, i as int + 1));
            }
            i = i + 1;
        }
        proof {
            assert(opps_rows(symbol@, q, m, n as int) =~= Seq::<OppModel>::empty());
            assert(views_of(opps@) + opps_rows(symbol@, q, m, n as int) =~= views_of(opps@));
            assert(views_of(opps@) == arb_opps(symbol@, q, m));
        }
        // Sort by spread descending.
        let r = sort_by_spread_desc(opps);
        proof {
            broadcast use vstd::seq_lib::group_to_multiset_ensures;

            crate::laws::lemma_opportunities_well_formed(symbol@, q, m);
            let arb = arb_opps(symbol@, q, m);
            assert forall|k: int| 0 <= k < r@.len() implies wf_opp(
                symbol@,
                m,
                #[trigger] views_of(r@)[k],
            ) by {
                let v = views_of(r@)[k];
                assert(views_of(r@).contains(v));
                assert(views_of(r@).to_multiset().count(v) > 0);
                assert(arb.to_multiset().count(v) > 0);
                assert(arb.contains(v));
                let idx = choose|idx: int| 0 <= idx < arb.len() && arb[idx] == v;
                assert(wf_opp(symbol@, m, arb[idx]));
            }
        }
        r
    }
}

} // verus!
