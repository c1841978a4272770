//! Trusted adapters over the outside crates that the store logic calls
//! in the middle of its work: fresh identifiers, timestamp rendering,
//! case folding and import validation. Each wrapper's contract states
//! what the outside source documents, and no more.

use vstd::prelude::*;

use crate::errors::MemoryError;

verus! {

/// The largest timestamp, in seconds since the Unix epoch, that the
/// four-digit-year RFC 3339 rendering admits: 9999-12-31T23:59:59Z.
pub const MAX_TIMESTAMP_SECS: u64 = 253402300799;

/// What `str::to_lowercase` returns: a function of the characters alone.
pub uninterp spec fn lower_of(s: Seq<char>) -> Seq<char>;

/// What chrono renders for a second count: a function of the count alone.
pub uninterp spec fn rfc3339_of(secs: u64) -> Seq<char>;

/// Whether serde_json accepts the text as a JSON document: a function of
/// the text alone.
pub uninterp spec fn is_valid_json(s: Seq<char>) -> bool;

/// Relies on str::to_lowercase: the result depends on the characters
/// alone, and an empty string stays empty.
#[verifier::external_body]
pub(crate) fn lowercase(s: &str) -> (r: String)
    ensures
        r@ == lower_of(s@),
        s@.len() == 0 ==> r@.len() == 0,
{
    s.to_lowercase()
}

/// Relies on uuid's Uuid::new_v4 and its hyphenated rendering: a fresh
/// random identifier, always 36 characters long. Two calls may or may
/// not collide, so nothing more is promised.
#[verifier::external_body]
pub(crate) fn fresh_uuid() -> (r: String)
    ensures
        r@.len() == 36,
{
    uuid::Uuid::new_v4().to_string()
}

/// Relies on chrono's DateTime::from_timestamp_secs and to_rfc3339: the
/// rendered text depends on the second count alone, and every count up
/// to year 9999 lies inside chrono's documented range.
#[verifier::external_body]
pub(crate) fn format_rfc3339(secs: u64) -> (r: String)
    requires
        secs <= MAX_TIMESTAMP_SECS,
    ensures
        r@ == rfc3339_of(secs),
{
    match chrono::DateTime::<chrono::Utc>::from_timestamp_secs(secs as i64) {
        Some(dt) => dt.to_rfc3339(),
        None => String::new(),
    }
}

/// Relies on serde_json::from_str::<Value>: acceptance depends on the
/// text alone.
#[verifier::external_body]
pub(crate) fn json_parses(s: &str) -> (r: bool)
    ensures
        r == is_valid_json(s@),
{
    serde_json::from_str::<serde_json::Value>(s).is_ok()
}

/// Validates an import payload: accepts exactly the texts that parse as
/// JSON, and rejects the rest as malformed input.
pub fn validate_import(data: &str) -> (r: Result<(), MemoryError>)
    ensures
        is_valid_json(data@) <==> r is Ok,
        !is_valid_json(data@) <==> (r matches Err(e) && e == MemoryError::Validation),
{
    if json_parses(data) {
        Ok(())
    } else {
        Err(MemoryError::Validation)
    }
}

} // verus!
