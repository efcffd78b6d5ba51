use vstd::prelude::*;

verus! {

#[verifier::external_type_specification]
#[verifier::external_body]
pub struct ExCancellationToken(tokio_util::sync::CancellationToken);

/// Relies on CancellationToken::is_cancelled. The flag is shared state that
/// another thread may flip at any moment, so nothing is promised of the
/// answer; callers state what holds of either outcome.
#[verifier::external_body]
pub fn token_is_cancelled(t: &tokio_util::sync::CancellationToken) -> bool {
    t.is_cancelled()
}

/// Observes an optional cancellation flag; with no token there is no way to
/// cancel, and the check says so.
pub fn is_cancelled_opt(token: Option<&tokio_util::sync::CancellationToken>) -> (r: bool)
    ensures
        token is None ==> !r,
{
    match token {
        None => false,
        Some(t) => token_is_cancelled(t),
    }
}

} // verus!
