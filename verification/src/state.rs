//! The state that the operations of a running store share.

use crate::workspace::WorkspaceConfig;
use std::sync::Mutex;
use vstd::prelude::*;

verus! {

/// `std::sync::Mutex`, a lock around a value; nothing is stated of it.
#[verifier::external_type_specification]
#[verifier::external_body]
#[verifier::reject_recursive_types(T)]
pub struct ExMutex<T: ?Sized>(std::sync::Mutex<T>);

/// The shared state: the configuration behind its lock. An operation on
/// notes holds the lock only while it reads which workspace is active, and
/// lets go of it before it touches the file system.
pub struct AppState {
    pub config: Mutex<WorkspaceConfig>,
}

} // verus!
