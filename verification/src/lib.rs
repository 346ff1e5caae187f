//! Verified core of a funding-rate arbitrage client for cryptocurrency
//! perpetual futures.
//!
//! The library models a funding-rate snapshot (one point-in-time view of the
//! raw fixed-point rates every exchange quotes), a single-rate lookup, and an
//! arbitrage engine that enumerates exchange pairs for one symbol, filters
//! them by a minimum spread, assigns long/short legs, and sorts the result by
//! descending spread. Rates are kept as raw integers (scale 1/10000)
//! throughout, so all comparisons are exact; conversion to decimal form is a
//! caller concern at the output boundary.

mod data;
mod engine;
mod error;
mod laws;

pub use data::ExchangeInfo;
pub use data::ExchangeQuotes;
pub use data::ExchangesData;
pub use data::FundingRatesData;
pub use data::RateEntry;
pub use data::lookup_exchange;
pub use data::lookup_rate;
pub use data::rate_of;
pub use data::wf_entries;
pub use data::wf_funding_rates;
pub use engine::ArbitrageOpportunity;
pub use engine::OppModel;
pub use engine::Quote;
pub use engine::arb_opps;
pub use engine::leg_rate;
pub use engine::lemma_arb_opps_few;
pub use engine::opp_of;
pub use engine::opps_row;
pub use engine::opps_rows;
pub use engine::quoting;
pub use engine::sorted_desc;
pub use engine::spread_of;
pub use engine::views_of;
pub use engine::wf_opp;
pub use error::classify_status;
pub use error::is_success_status;
pub use error::onlyfundingError;
pub use laws::distinct_pairs;
pub use laws::lemma_opportunities_well_formed;
pub use laws::lemma_pair_count;
pub use laws::lemma_pairs_distinct;
pub use laws::lemma_quoting_matches_rates;
pub use laws::lemma_quoting_unique;
pub use laws::lemma_threshold_complete;
pub use laws::same_pair;
pub use laws::unique_exchanges;
