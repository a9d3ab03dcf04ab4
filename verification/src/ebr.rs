//! Epoch-based reclamation: the pinned guard and deferred destruction of retired storage.

use crossbeam_epoch::Guard;
use vstd::prelude::*;

verus! {

/// `crossbeam_epoch::Guard`, the reservation that keeps the current thread pinned. Nothing is
/// known of what is inside it.
#[verifier::external_type_specification]
#[verifier::external_body]
pub struct ExGuard(crossbeam_epoch::Guard);

/// `crossbeam_epoch::pin` pins the current thread and hands out the guard. Nothing is claimed
/// of the guard.
pub assume_specification[ crossbeam_epoch::pin ]() -> (guard: crossbeam_epoch::Guard);

/// Hands `garbage` to `crossbeam_epoch::Guard::defer`, which does not drop it before every
/// thread that is pinned now has been unpinned. The value is gone for the caller; nothing is
/// claimed of when it is dropped.
#[verifier::external_body]
pub(crate) fn retire<T: Send + 'static>(garbage: T, guard: &Guard) {
    guard.defer(move || garbage);
}

} // verus!
