//! The sentiment index series: a small fixed-size list of fear/greed
//! points, with provider-reported errors surfaced distinctly from
//! transport failures.

use vstd::prelude::*;
use crate::errors::FetchError;

verus! {

/// One sentiment point as the provider delivers it: an index value in
/// `0..=100` and its classification, both as text, and an epoch-seconds
/// timestamp as text.
pub struct FearGreedData {
    /// Index value, `"0"` to `"100"`.
    pub value: String,
    /// Classification, `"Extreme Fear"` to `"Extreme Greed"`.
    pub value_classification: String,
    /// Epoch seconds, as text.
    pub timestamp: String,
}

/// Resolve a fetched sentiment response: a provider-reported error in the
/// response metadata fails the fetch as a `Provider` error with exactly
/// that message; otherwise the points pass through unchanged.
pub fn resolve_sentiment(data: Vec<FearGreedData>, metadata_error: Option<String>) -> (r: Result<
    Vec<FearGreedData>,
    FetchError,
>)
    ensures
        match metadata_error {
            Option::Some(m) => r matches Result::Err(FetchError::Provider(pm)) && pm == m,
            Option::None => r matches Result::Ok(d) && d == data,
        },
{
    match metadata_error {
        Some(m) => Err(FetchError::Provider(m)),
        None => Ok(data),
    }
}

} // verus!
