//! The fetch error taxonomy: transport failures, malformed payloads, empty
//! first pages, and provider-reported logical errors.

use vstd::prelude::*;
use vstd::string::StringExecFns;

verus! {

/// Why a fetch failed.
#[derive(Debug)]
pub enum FetchError {
    /// HTTP or network failure, with what the transport reported.
    Transport(String),
    /// The payload shape did not match the wire format.
    Decode(String),
    /// The first page returned no candles outside the legitimate no-data
    /// case.
    EmptyResult,
    /// The provider reported a logical error through its own response
    /// metadata, distinct from an HTTP failure.
    Provider(String),
}

impl FetchError {
    /// The description the error renders to.
    pub open spec fn spec_describe(self) -> Seq<char> {
        match self {
            FetchError::Transport(m) => "transport error: "@ + m@,
            FetchError::Decode(m) => "decode error: "@ + m@,
            FetchError::EmptyResult => "empty result from first page"@,
            FetchError::Provider(m) => "provider error: "@ + m@,
        }
    }

    /// Render the error as text.
    pub fn describe(&self) -> (r: String)
        ensures
            r@ == self.spec_describe(),
    {
        let mut out = String::new();
        match self {
            FetchError::Transport(m) => {
                out.append("transport error: ");
                out.append(m.as_str());
            },
            FetchError::Decode(m) => {
                out.append("decode error: ");
                out.append(m.as_str());
            },
            FetchError::EmptyResult => {
                out.append("empty result from first page");
            },
            FetchError::Provider(m) => {
                out.append("provider error: ");
                out.append(m.as_str());
            },
        }
        proof {
            assert(out@ =~= self.spec_describe());
        }
        out
    }
}

} // verus!
