//! Splitting `"<left><separator><right>"` strings into a pair of values.
//!
//! The separator search and the splitting are verified; which half-strings
//! parse to a value of the target type, and to what value, is the business of
//! the standard library's `FromStr` implementations, so nothing is assumed
//! about them.

use vstd::prelude::*;
use std::str::FromStr;

verus! {

/// Splits `s` at the first occurrence of `separator` into the part before and
/// the part after it, or returns `None` when the separator does not occur.
pub fn split_at_separator<'a>(s: &'a str, separator: char) -> (r: Option<(
    &'a str,
    &'a str,
)>)
    ensures
        r is Some <==> s@.contains(separator),
        r matches Some(parts) ==> exists|i: int|
            0 <= i < s@.len() && s@[i] == separator && (forall|j: int|
                0 <= j < i ==> s@[j] != separator) && parts.0@ == s@.subrange(0, i)
                && parts.1@ == s@.subrange(i + 1, s@.len() as int),
{
    let n = s.unicode_len();
    let mut i: usize = 0;
    while i < n
        invariant
            n == s@.len(),
            i <= n,
            forall|j: int| 0 <= j < i ==> s@[j] != separator,
        decreases n - i,
    {
        if s.get_char(i) == separator {
            let left = s.substring_char(0, i);
            let right = s.substring_char(i + 1, n);
            assert(s@.contains(separator)) by {
                assert(s@[i as int] == separator);
            }
            return Some((left, right));
        }
        i = i + 1;
    }
    assert(!s@.contains(separator)) by {
        assert(forall|j: int| 0 <= j < s@.len() ==> s@[j] != separator);
    }
    None
}

/// Relies on `FromStr::from_str` of the standard library: which strings parse,
/// and to what value, is each implementation's own affair, so nothing is
/// promised of the outcome.
#[verifier::external_body]
fn parse_value<T: FromStr>(s: &str) -> (r: Option<T>) {
    T::from_str(s).ok()
}

/// Pairs up the two parsed halves: a pair comes back exactly when both halves
/// parsed.
pub fn combine_parsed<T>(left: Option<T>, right: Option<T>) -> (r: Option<(T, T)>)
    ensures
        r is Some <==> (left is Some && right is Some),
        r matches Some(p) ==> left == Some(p.0) && right == Some(p.1),
{
    match (left, right) {
        (Some(l), Some(rv)) => Some((l, rv)),
        _ => None,
    }
}

/// Parses `s` as a coordinate pair such as `"200x600"` or `"20.10,0.0"`:
/// the text before the first `separator` and the text after it, each read by
/// `T::from_str`.
///
/// When `s` holds no separator there is nothing to split and the result is
/// `None`; when it does, the result is the pair of parses of the two halves,
/// which succeeds exactly when both halves parse.
pub fn parse_pair<T: FromStr>(s: &str, separator: char) -> (r: Option<(T, T)>)
    ensures
        !s@.contains(separator) ==> r is None,
        r is Some ==> s@.contains(separator),
{
    match split_at_separator(s, separator) {
        None => None,
        Some((left, right)) => combine_parsed(parse_value(left), parse_value(right)),
    }
}

} // verus!
