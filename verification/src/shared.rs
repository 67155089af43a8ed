use vstd::prelude::*;
use crate::board::Board;

verus! {

/// The lock of the standard library, `std::sync::Mutex`. Nothing is said
/// of what it holds.
#[verifier::external_type_specification]
#[verifier::external_body]
#[verifier::reject_recursive_types(T)]
pub struct ExMutex<T: ?Sized>(std::sync::Mutex<T>);

/// The one board of a running game, behind a lock, so that interactions
/// take their turns.
pub struct BoardState(pub std::sync::Mutex<Board>);

} // verus!
