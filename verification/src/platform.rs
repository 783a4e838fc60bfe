//! Trusted wrappers around the platform: the clock, fresh identifiers, and
//! the passcode digest. Each wrapper holds exactly one call into an outside
//! crate; everything that is computed from their results is verified
//! elsewhere in the library.

use vstd::prelude::*;

verus! {

/// The SHA-256 digest of the UTF-8 encoding of a character sequence. The
/// digest is a deterministic function of the characters alone.
pub uninterp spec fn sha256_of(s: Seq<char>) -> Seq<u8>;

/// Relies on `sha2::Sha256` through `digest::Digest::digest`: the SHA-256
/// digest of the input bytes, a deterministic function of the input alone,
/// exactly 32 bytes long.
#[verifier::external_body]
pub(crate) fn sha256_digest(s: &str) -> (r: Vec<u8>)
    ensures
        r@ == sha256_of(s@),
        r@.len() == 32,
{
    let out = <sha2::Sha256 as sha2::Digest>::digest(s.as_bytes());
    out.to_vec()
}

/// Relies on `chrono::Local::now` formatted as `%Y-%m-%d`: the caller's
/// current local calendar date. Nothing is assumed of the clock's value;
/// callers validate the string like any other date.
#[verifier::external_body]
pub(crate) fn today_local() -> (r: String) {
    chrono::Local::now().format("%Y-%m-%d").to_string()
}

/// Relies on `chrono::Utc::now().to_rfc3339()`: the current UTC time as an
/// RFC 3339 timestamp. Nothing is assumed of the clock's value.
#[verifier::external_body]
pub(crate) fn now_utc_rfc3339() -> (r: String) {
    chrono::Utc::now().to_rfc3339()
}

/// Relies on `uuid::Uuid::new_v4().to_string()`: a random version-4 UUID in
/// its hyphenated form, which is exactly 36 ASCII characters. The value is
/// random, so nothing further is assumed of it.
#[verifier::external_body]
pub(crate) fn fresh_session_id() -> (r: String)
    ensures
        r@.len() == 36,
{
    uuid::Uuid::new_v4().to_string()
}

/// Relies on `String::push` from std, which vstd leaves unspecified:
/// it appends exactly the one character to the string.
pub assume_specification[ String::push ](s: &mut String, c: char)
    ensures
        final(s)@ == old(s)@.push(c),
;

} // verus!
