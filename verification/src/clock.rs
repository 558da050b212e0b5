use vstd::prelude::*;

verus! {

/// Relies on std's `SystemTime::now` and `SystemTime::duration_since`
/// against the Unix epoch, with `Duration::as_secs` on the offset: whole
/// seconds since the epoch, or nothing when the clock stands before it.
/// Both arms return, so the call cannot panic; the value depends on the
/// wall clock, so nothing is promised of it.
#[verifier::external_body]
pub(crate) fn now_unix_seconds() -> Option<u64> {
    match std::time::SystemTime::now().duration_since(std::time::UNIX_EPOCH) {
        Ok(offset) => Some(offset.as_secs()),
        Err(_) => None,
    }
}

/// The store keeps creation times as non-negative seconds since the Unix
/// epoch; a clock that stands before the epoch reads as the epoch itself.
pub fn clamp_timestamp(t: Option<u64>) -> (r: u64)
    ensures
        r == (match t {
            Some(s) => s,
            None => 0u64,
        }),
{
    match t {
        Some(s) => s,
        None => 0,
    }
}

} // verus!
