use vstd::prelude::*;

verus! {

/// Milliseconds since the Unix epoch by the system clock (0 if the clock reads earlier),
/// via `SystemTime::now` and `duration_since`. Nothing is claimed of the value: it depends
/// on the time.
#[verifier::external_body]
pub(crate) fn now_unix_ms() -> (r: u64) {
    std::time::SystemTime::now()
        .duration_since(std::time::UNIX_EPOCH)
        .unwrap_or_default()
        .as_millis() as u64
}

} // verus!
