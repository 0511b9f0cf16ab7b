//! Cooperative cancellation: the ambient cancellation signal and the value that reports it.

use cancel_this::Cancelled;
use vstd::prelude::*;

verus! {

#[verifier::external_type_specification]
#[verifier::external_body]
pub struct ExCancelled(Cancelled);

/// The result of an operation that may be cancelled.
pub type Cancellable<T> = Result<T, Cancelled>;

/// The reason that a cancellation carries.
pub uninterp spec fn cause_of(cancelled: Cancelled) -> Seq<char>;

/// `Clone::clone` of a cancellation: the copy is the same value.
pub assume_specification[ <cancel_this::Cancelled as Clone>::clone ](value: &cancel_this::Cancelled) -> (r: cancel_this::Cancelled)
    ensures
        r == *value,
;

/// `Cancelled::new`: a cancellation that carries the given reason.
#[verifier::external_body]
pub(crate) fn cancelled_because(cause: &'static str) -> (r: Cancelled)
    ensures
        cause_of(r) == cause@,
{
    Cancelled::new(cause)
}

/// `Display` of a cancellation: the text that names the reason.
#[verifier::external_body]
pub(crate) fn cancellation_text(cancelled: &Cancelled) -> (r: String)
    ensures
        r@ == "Operation cancelled (caused by `"@ + cause_of(*cancelled) + "`)"@,
{
    format!("{}", cancelled)
}

/// `cancel_this::check_local_cancellation`, which the macro `is_cancelled!` stands for: asks
/// the cancellation triggers of the running thread. Whether it fails depends on those
/// triggers alone, so nothing is stated of the result.
#[verifier::external_body]
pub(crate) fn check_cancelled() -> (r: Cancellable<()>)
{
    cancel_this::check_local_cancellation()
}

/// What the ambient cancellation signal lets through: the value, unless the signal is a
/// cancellation, which is handed on in its place.
pub fn pass<T>(value: T, signal: Cancellable<()>) -> (r: Cancellable<T>)
    ensures
        match signal {
            Err(cancelled) => r matches Err(handed) && handed == cancelled,
            Ok(_) => r matches Ok(passed) && passed == value,
        },
{
    match signal {
        Err(cancelled) => Err(cancelled),
        Ok(()) => Ok(value),
    }
}

} // verus!
