//! Trusted wrappers around the few outside calls the library needs: the
//! wall clock, fresh identifier generation, and character-level access to
//! strings. Each wrapper's contract states only what the wrapped call's
//! documentation plainly promises.

use vstd::prelude::*;

verus! {

/// Characters that can appear in a generated identifier: the ten decimal
/// digits, the six lowercase hexadecimal letters, and the hyphen.
pub open spec fn id_char(c: char) -> bool {
    crate::digits::is_digit(c) || c == 'a' || c == 'b' || c == 'c' || c == 'd' || c == 'e' || c
        == 'f' || c == '-'
}

/// Relies on uuid::Uuid::new_v4 and its Display impl: a fresh random
/// identifier rendered in the hyphenated form, always 36 characters of
/// lowercase hexadecimal digits and hyphens. Nothing is assumed about
/// which identifier comes back.
#[verifier::external_body]
pub(crate) fn fresh_id() -> (r: String)
    ensures
        r@.len() == 36,
        forall|i: int| 0 <= i < r@.len() ==> id_char(#[trigger] r@[i]),
{
    uuid::Uuid::new_v4().to_string()
}

/// Relies on std::time::SystemTime::now and duration_since(UNIX_EPOCH):
/// the current wall-clock time in whole nanoseconds since the epoch,
/// clamped into the non-negative range of i64. Nothing else is assumed
/// about the value: the clock may move backwards between calls.
#[verifier::external_body]
pub(crate) fn now_nanos() -> (r: i64)
    ensures
        r >= 0,
{
    match std::time::SystemTime::now().duration_since(std::time::UNIX_EPOCH) {
        Ok(d) => i64::try_from(d.as_nanos()).unwrap_or(i64::MAX),
        Err(_) => 0,
    }
}

/// Relies on str::chars: the characters of the string, in order.
#[verifier::external_body]
pub(crate) fn str_chars(s: &str) -> (r: Vec<char>)
    ensures
        r@ == s@,
{
    s.chars().collect()
}

/// Relies on String's FromIterator impl: the string made of exactly these
/// characters, in order.
#[verifier::external_body]
pub(crate) fn chars_to_string(v: &Vec<char>) -> (r: String)
    ensures
        r@ == v@,
{
    v.iter().collect()
}

} // verus!
