//! Log anomaly detection engine: trains a per-group numeric index from
//! baseline log lines and scores target lines by dissimilarity against it.
//!
//! The library resolves abstract content into concrete line sources, groups
//! sources by a normalized identity, trains one index per group, and streams
//! target lines through the matching index to produce scored anomalies with
//! surrounding context. Opening, enumerating and fetching locations is left
//! to the caller; this crate works on plain values.

use vstd::prelude::*;

pub mod codec;
pub mod compress;
pub mod hashing_index;
pub mod index;
pub mod model;
pub mod noop_index;
pub mod report;
pub mod source;
pub mod urls;

verus! {

/// Errors reported by the library. All conditions are typed and recoverable;
/// no verified function of this crate panics.
#[derive(Debug, Clone, PartialEq, Eq)]
pub enum Error {
    /// A user-supplied URL could not be parsed.
    MalformedUrl,
    /// Baseline discovery produced no usable content.
    EmptyBaselines,
    /// Baselines cannot be discovered for this content; they must be given.
    BaselinesNotProvided,
    /// Expanding a content yielded no valid source.
    EmptySources,
    /// No index matches a target source during reporting.
    MissingIndex,
    /// The caller could not open or read a source; the message is its own.
    SourceOpen(String),
    /// A persisted model artifact could not be decoded.
    CorruptModel,
}

/// True when `s` begins with the four characters `http`.
pub open spec fn starts_with_http(s: Seq<char>) -> bool {
    s.len() >= 4 && s[0] == 'h' && s[1] == 't' && s[2] == 't' && s[3] == 'p'
}

/// The user input: either a filesystem path or a URL.
#[derive(Debug, Clone, PartialEq, Eq)]
pub enum Input {
    Path(String),
    Url(String),
}

impl Input {
    /// Classifies a raw string: anything beginning with `http` is a URL,
    /// everything else a path. Pure and total.
    pub fn from_string(s: String) -> (r: Input)
        ensures
            starts_with_http(s@) ==> r == Input::Url(s),
            !starts_with_http(s@) ==> r == Input::Path(s),
    {
        let n = s.as_str().unicode_len();
        if n >= 4 && s.as_str().get_char(0) == 'h' && s.as_str().get_char(1) == 't'
            && s.as_str().get_char(2) == 't' && s.as_str().get_char(3) == 'p' {
            Input::Url(s)
        } else {
            Input::Path(s)
        }
    }
}

} // verus!
