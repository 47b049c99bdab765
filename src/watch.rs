//! Decisions of the loop that keeps a heartbeat collection current.
//!
//! The loop itself waits on change notifications, which only the caller can
//! do; for each notification it asks `on_change` what to do.
use vstd::prelude::*;

verus! {

/// What to do about one change notification.
#[derive(Clone, Copy, Debug, PartialEq, Eq)]
pub struct ChangeAction {
    /// Re-arm the watch on the directory: some platforms stop reporting
    /// changes after a directory event.
    pub rewatch: bool,
    /// Rebuild the heartbeat collection from the store.
    pub refresh: bool,
}

/// Decides what a change notification calls for: a directory that changed
/// re-arms the watch, and a path that holds a message triggers a refresh.
pub fn on_change(is_directory: bool, holds_message: bool) -> (r: ChangeAction)
    ensures
        r.rewatch == is_directory,
        r.refresh == holds_message,
{
    ChangeAction { rewatch: is_directory, refresh: holds_message }
}

} // verus!
