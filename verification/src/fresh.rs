//! Fresh values for new envelopes: random identifiers and the wall clock.

use rand::RngCore;
use vstd::prelude::*;

verus! {

#[verifier::external_type_specification]
#[verifier::external_body]
pub struct ExThreadRng(rand::rngs::ThreadRng);

#[verifier::external_type_specification]
#[verifier::external_body]
pub struct ExSystemTime(std::time::SystemTime);

/// `rand::thread_rng`: a handle to the thread-local random generator.
#[verifier::external_body]
fn thread_rng() -> rand::rngs::ThreadRng {
    rand::thread_rng()
}

/// `RngCore::fill_bytes`: overwrites `buf` with random bytes. The bytes are
/// random, so only the length of `buf` is claimed to stay the same.
#[verifier::external_body]
fn fill_bytes(rng: &mut rand::rngs::ThreadRng, buf: &mut Vec<u8>)
    ensures
        final(buf)@.len() == old(buf)@.len(),
{
    rng.fill_bytes(buf.as_mut_slice())
}

/// `SystemTime::now`: the current wall-clock time; nothing is claimed of it.
#[verifier::external_body]
fn system_now() -> std::time::SystemTime {
    std::time::SystemTime::now()
}

/// `SystemTime::duration_since(UNIX_EPOCH)`: the time elapsed since the Unix
/// epoch, `None` for a time before it; nothing is claimed of the duration.
#[verifier::external_body]
fn since_unix_epoch(t: &std::time::SystemTime) -> Option<std::time::Duration> {
    t.duration_since(std::time::UNIX_EPOCH).ok()
}

/// The most whole milliseconds a `Duration` holds: `u64::MAX` seconds and
/// 999,999,999 nanoseconds (`Duration::MAX`).
pub open spec fn millis_limit() -> int {
    18446744073709551615999int
}

/// `Duration::as_millis`: the whole milliseconds of `d`, which are at most
/// [`millis_limit`] since no `Duration` exceeds `Duration::MAX`; nothing more is
/// claimed of the value, since nothing is known of `d`.
#[verifier::external_body]
fn duration_as_millis(d: &std::time::Duration) -> (ms: u128)
    ensures
        ms <= millis_limit(),
{
    d.as_millis()
}

/// Eight random bytes.
pub(crate) fn random_id() -> (id: Vec<u8>)
    ensures
        id@.len() == 8,
{
    let mut id: Vec<u8> = vec![0u8; 8];
    let mut rng = thread_rng();
    fill_bytes(&mut rng, &mut id);
    id
}

/// Milliseconds since the Unix epoch, read from the system clock; 0 when the
/// clock reads a time before the epoch. Either way at most [`millis_limit`].
pub(crate) fn now_unix_millis() -> (ms: u128)
    ensures
        ms <= millis_limit(),
{
    let now = system_now();
    match since_unix_epoch(&now) {
        Some(d) => duration_as_millis(&d),
        None => 0,
    }
}

} // verus!
