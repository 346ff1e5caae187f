use vstd::prelude::*;

verus! {

/// Identifier and display name of one exchange, as published by the upstream
/// exchange registry.
#[derive(Debug, Clone)]
pub struct ExchangeInfo {
    pub name: String,
    pub display: String,
}

/// The exchange registry of a snapshot: per-exchange display names plus a
/// flat list of exchange identifiers.
#[derive(Debug, Clone)]
pub struct ExchangesData {
    pub exchange_names: Vec<ExchangeInfo>,
    pub exchanges: Vec<String>,
}

/// One symbol's raw funding rate on some exchange.
///
/// Rates are fixed-point integers at scale 1/10000: a raw value of 5 stands
/// for 0.0005, i.e. 0.05%.
#[derive(Debug, Clone)]
pub struct RateEntry {
    pub symbol: String,
    pub rate: i32,
}

/// All funding rates one exchange quotes, keyed by symbol.
#[derive(Debug, Clone)]
pub struct ExchangeQuotes {
    pub exchange: String,
    pub entries: Vec<RateEntry>,
}

/// An immutable funding-rate snapshot fetched at one point in time.
///
/// `funding_rates` is an association list from exchange identifier to that
/// exchange's per-symbol rate list; a well-formed snapshot never repeats a
/// key (see [`wf_funding_rates`]). `oi_rankings`, `default_oi_rank` and
/// `timestamp` are passed through unmodified and play no part in the engine.
#[derive(Debug, Clone)]
pub struct FundingRatesData {
    pub symbols: Vec<String>,
    pub exchanges: ExchangesData,
    pub funding_rates: Vec<ExchangeQuotes>,
    pub oi_rankings: Vec<(String, String)>,
    pub default_oi_rank: String,
    pub timestamp: String,
}

/// The raw rate `entries` associates with `symbol`, if any (first match).
pub open spec fn lookup_rate(entries: Seq<RateEntry>, symbol: Seq<char>) -> Option<int>
    decreases entries.len(),
{
    if entries.len() == 0 {
        None
    } else if entries[0].symbol@ == symbol {
        Some(entries[0].rate as int)
    } else {
        lookup_rate(entries.drop_first(), symbol)
    }
}

/// The per-symbol rate list `funding_rates` associates with `exchange`, if
/// any (first match).
pub open spec fn lookup_exchange(fr: Seq<ExchangeQuotes>, exchange: Seq<char>) -> Option<
    Seq<RateEntry>,
>
    decreases fr.len(),
{
    if fr.len() == 0 {
        None
    } else if fr[0].exchange@ == exchange {
        Some(fr[0].entries@)
    } else {
        lookup_exchange(fr.drop_first(), exchange)
    }
}

/// The raw rate a snapshot quotes for `symbol` on `exchange`, if any.
pub open spec fn rate_of(fr: Seq<ExchangeQuotes>, exchange: Seq<char>, symbol: Seq<char>) -> Option<
    int,
> {
    match lookup_exchange(fr, exchange) {
        Some(entries) => lookup_rate(entries, symbol),
        None => None,
    }
}

/// A rate list is well formed when no symbol is listed twice.
pub open spec fn wf_entries(entries: Seq<RateEntry>) -> bool {
    forall|i: int, j: int|
        0 <= i < j < entries.len() ==> entries[i].symbol@ != entries[j].symbol@
}

/// A rate mapping is well formed when no exchange is listed twice and each
/// exchange's own rate list is well formed. A snapshot decoded from the
/// upstream JSON mappings always has this shape.
pub open spec fn wf_funding_rates(fr: Seq<ExchangeQuotes>) -> bool {
    &&& forall|i: int, j: int|
        0 <= i < j < fr.len() ==> fr[i].exchange@ != fr[j].exchange@
    &&& forall|i: int| 0 <= i < fr.len() ==> wf_entries(#[trigger] fr[i].entries@)
}

impl FundingRatesData {
    pub open spec fn wf(&self) -> bool {
        wf_funding_rates(self.funding_rates@)
    }
}

/// Finds the rate list of `exchange` by scanning the association list.
pub(crate) fn find_exchange<'a>(fr: &'a Vec<ExchangeQuotes>, exchange: &String) -> (r: Option<
    &'a Vec<RateEntry>,
>)
    ensures
        match r {
            Some(entries) => lookup_exchange(fr@, exchange@) == Some(entries@),
            None => lookup_exchange(fr@, exchange@) is None,
        },
{
    let mut i: usize = 0;
    proof {
        assert(fr@.skip(0) =~= fr@);
    }
    while i < fr.len()
        invariant
            0 <= i <= fr.len(),
            lookup_exchange(fr@, exchange@) == lookup_exchange(fr@.skip(i as int), exchange@),
        decreases fr.len() - i,
    {
        if fr[i].exchange == *exchange {
            assert(fr@.skip(i as int)[0] == fr@[i as int]);
            return Some(&fr[i].entries);
        }
        proof {
            assert(fr@.skip(i as int).drop_first() =~= fr@.skip(i as int + 1));
        }
        i = i + 1;
    }
    proof {
        assert(fr@.skip(i as int) =~= Seq::<ExchangeQuotes>::empty());
    }
    None
}

/// Finds the raw rate of `symbol` by scanning one exchange's rate list.
pub(crate) fn find_rate(entries: &Vec<RateEntry>, symbol: &String) -> (r: Option<i32>)
    ensures
        match r {
            Some(rate) => lookup_rate(entries@, symbol@) == Some(rate as int),
            None => lookup_rate(entries@, symbol@) is None,
        },
{
    let mut i: usize = 0;
    proof {
        assert(entries@.skip(0) =~= entries@);
    }
    while i < entries.len()
        invariant
            0 <= i <= entries.len(),
            lookup_rate(entries@, symbol@) == lookup_rate(entries@.skip(i as int), symbol@),
        decreases entries.len() - i,
    {
        if entries[i].symbol == *symbol {
            assert(entries@.skip(i as int)[0] == entries@[i as int]);
            return Some(entries[i].rate);
        }
        proof {
            assert(entries@.skip(i as int).drop_first() =~= entries@.skip(i as int + 1));
        }
        i = i + 1;
    }
    proof {
        assert(entries@.skip(i as int) =~= Seq::<RateEntry>::empty());
    }
    None
}

impl FundingRatesData {
    /// Looks up the raw funding rate for a specific exchange and symbol.
    ///
    /// Returns the raw fixed-point rate (scale 1/10000) exactly when the
    /// snapshot quotes `symbol` on `exchange`, and `RateNotFound` otherwise —
    /// never a default or zero value. Conversion to decimal form (divide by
    /// 10000) is the caller's output-boundary concern.
    pub fn get_rate(&self, exchange: &str, symbol: &str) -> (r: Result<
        i32,
        crate::error::onlyfundingError,
    >)
        ensures
            match r {
                Ok(rate) => rate_of(self.funding_rates@, exchange@, symbol@) == Some(rate as int),
                Err(e) => e is RateNotFound && rate_of(self.funding_rates@, exchange@, symbol@)
                    is None,
            },
    {
        let exchange_key: String = exchange.to_owned();
        let symbol_key: String = symbol.to_owned();
        if let Some(entries) = find_exchange(&self.funding_rates, &exchange_key) {
            if let Some(rate) = find_rate(entries, &symbol_key) {
                return Ok(rate);
            }
        }
        Err(crate::error::onlyfundingError::RateNotFound)
    }
}

} // verus!
