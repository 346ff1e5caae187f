use vstd::prelude::*;

verus! {

/// Failure taxonomy of the client core.
///
/// Every failure is surfaced verbatim to the immediate caller; nothing is
/// retried or recovered internally.
#[derive(Debug, Clone)]
pub enum onlyfundingError {
    /// A network-level failure reaching the upstream source.
    Transport(String),
    /// The upstream responded with a non-success HTTP status; carries the
    /// status code and the reason text.
    Api(u16, String),
    /// The response body does not parse into the expected snapshot shape.
    Decode(String),
    /// A rate lookup missed: the exchange is absent from the rate mapping,
    /// or the symbol is absent under that exchange.
    RateNotFound,
}

/// True exactly for the HTTP status codes that count as success (2xx).
pub open spec fn is_success_status(status: u16) -> bool {
    200 <= status < 300
}

/// Classifies an upstream HTTP status: success statuses pass through,
/// every other status becomes an `Api` error carrying the status code and
/// the reason text unchanged.
pub fn classify_status(status: u16, reason: &str) -> (r: Result<(), onlyfundingError>)
    ensures
        is_success_status(status) <==> r is Ok,
        !is_success_status(status) ==> (r matches Err(e)
            && e matches onlyfundingError::Api(st, msg)
            && st == status
            && msg@ == reason@),
{
    if 200 <= status && status < 300 {
        Ok(())
    } else {
        Err(onlyfundingError::Api(status, reason.to_owned()))
    }
}

} // verus!
