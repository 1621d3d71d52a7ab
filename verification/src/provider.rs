//! Ambient values the core needs: the current time and fresh identifiers.
//!
//! Both are nondeterministic, so their contracts state only what holds of
//! every outcome; the logic around them is verified for every value they can
//! hand back.

use vstd::prelude::*;

verus! {

/// Whether `s` is a hyphenated UUID rendering: 36 characters, hyphens at
/// positions 8, 13, 18 and 23, lowercase hex digits everywhere else.
pub open spec fn is_uuid_chars(s: Seq<char>) -> bool {
    &&& s.len() == 36
    &&& s[8] == '-' && s[13] == '-' && s[18] == '-' && s[23] == '-'
    &&& forall|i: int|
        0 <= i < 36 && i != 8 && i != 13 && i != 18 && i != 23 ==> is_lower_hex_char(#[trigger] s[i])
}

/// Whether `c` is a lowercase hexadecimal digit.
pub open spec fn is_lower_hex_char(c: char) -> bool {
    ('0' <= c && c <= '9') || ('a' <= c && c <= 'f')
}

/// Relies on `uuid::Uuid::new_v4` and its `Display` impl: a fresh random
/// version-4 UUID rendered in the hyphenated lowercase form.  The value is
/// random, so nothing beyond its shape is stated.
#[verifier::external_body]
pub fn fresh_uuid() -> (r: String)
    ensures
        is_uuid_chars(r@),
{
    uuid::Uuid::new_v4().to_string()
}

/// Relies on `chrono::Utc::now` composed with `timestamp_millis`: the current
/// wall-clock time in milliseconds since the Unix epoch.  The clock is outside
/// the library's control, so nothing is stated of the value.
#[verifier::external_body]
pub fn now_millis() -> i64 {
    chrono::Utc::now().timestamp_millis()
}

} // verus!
