//! The diagnostic outcome header.
//!
//! Every proxied response carries one header named `x-joinproxy-response`
//! whose value is exactly `Hit` or `Miss`. It is purely observational: it
//! never influences caching or coordination, and tagging changes nothing
//! else about a response's headers.

use vstd::prelude::*;

verus! {

/// How a request was resolved, as shown to the client: `Miss` for the one
/// leader that fetched, `Hit` for a cached or joined result.
#[derive(Clone, Copy, Debug, PartialEq, Eq, Structural)]
pub enum Outcome {
    Hit,
    Miss,
}

/// The name of the diagnostic header.
pub fn header_name() -> (s: String)
    ensures
        s@ == "x-joinproxy-response"@,
{
    "x-joinproxy-response".to_owned()
}

/// The header value for an outcome: exactly `Hit` or `Miss`.
pub fn outcome_label(o: Outcome) -> (s: String)
    ensures
        o is Hit ==> s@ == "Hit"@,
        o is Miss ==> s@ == "Miss"@,
{
    match o {
        Outcome::Hit => "Hit".to_owned(),
        Outcome::Miss => "Miss".to_owned(),
    }
}

/// Appends the diagnostic header to a response's headers. Every existing
/// header is left exactly as it was.
pub fn tag_response(headers: &mut Vec<(String, String)>, o: Outcome)
    ensures
        final(headers)@.len() == old(headers)@.len() + 1,
        final(headers)@.subrange(0, old(headers)@.len() as int) == old(headers)@,
        final(headers)@.last().0@ == "x-joinproxy-response"@,
        o is Hit ==> final(headers)@.last().1@ == "Hit"@,
        o is Miss ==> final(headers)@.last().1@ == "Miss"@,
{
    let name = header_name();
    let value = outcome_label(o);
    headers.push((name, value));
    proof {
        assert(headers@.subrange(0, old(headers)@.len() as int) =~= old(headers)@);
    }
}

} // verus!
