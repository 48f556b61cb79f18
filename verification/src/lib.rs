//! Agent State Fabric kernel: the verified core.
//!
//! Capabilities and their caveat grammar, call-time evaluation, promotion
//! merges, canonical object identity, trace-chain verification and the
//! snapshot tree format, each stated over a mathematical model and proved.

#![verifier::loop_isolation(false)]

pub mod json;
pub mod json_text;
pub mod capability;
pub mod evaluate;
pub mod narrowing;
pub mod promote;
pub mod canon;
pub mod trace;
pub mod snapshot;
pub mod tools;
pub mod authority;
pub mod ledger;
pub mod keys;
pub mod payload;
pub mod broker;
pub mod promotion;
pub mod escalation;
pub mod fabric;
pub mod restore;


use vstd::prelude::*;

verus! {

/// The instant an RFC 3339 timestamp denotes, in nanoseconds since the Unix
/// epoch; `None` when the text is not an RFC 3339 timestamp.
pub uninterp spec fn rfc3339_instant(s: Seq<char>) -> Option<int>;

/// Parse an RFC 3339 timestamp into a comparable instant (nanoseconds since
/// the Unix epoch); `None` if malformed.
///
/// All authority-relevant timestamp comparisons (expiry, `time` caveats,
/// attenuation `time` subset) go through this. Lexical comparison of RFC 3339
/// strings is wrong for mixed sub-second precision (`"…00Z"` sorts after
/// `"…00.5Z"` because `'Z' > '.'`), which would fail open at a bound.
/// Callers treat `None` as fail-closed.
///
/// Trusted: calls `time::OffsetDateTime::parse` with the RFC 3339 format and
/// reads the result through `unix_timestamp_nanos`. The contract claims only
/// that the result is a fixed function of the text (named by
/// [`rfc3339_instant`]); the order of the returned integers is the order of
/// the parsed instants, since `OffsetDateTime` orders by its UTC instant.
#[verifier::external_body]
pub fn parse_instant(s: &str) -> (r: Option<i128>)
    ensures
        r matches Some(n) ==> rfc3339_instant(s@) == Some(n as int),
        r is None ==> rfc3339_instant(s@) is None,
{
    time::OffsetDateTime::parse(s, &time::format_description::well_known::Rfc3339).ok().map(
        |t| t.unix_timestamp_nanos(),
    )
}

} // verus!
