//! The watch loop's decision logic.  The loop itself blocks on a
//! file-system event source outside the library; for each debounced event
//! it asks here whether a recompilation is due.

use vstd::prelude::*;

verus! {

/// The kinds of debounced file-system event the watch loop distinguishes.
#[derive(Debug, Clone, Copy, PartialEq, Eq)]
pub enum WatchEvent {
    Create,
    Write,
    Remove,
    Rename,
    Other,
}

/// A creation, write, removal or rename of a watched file triggers a
/// recompilation; every other event is ignored.
pub fn should_recompile(event: &WatchEvent) -> (r: bool)
    ensures
        r == !(event is Other),
{
    match event {
        WatchEvent::Create => true,
        WatchEvent::Write => true,
        WatchEvent::Remove => true,
        WatchEvent::Rename => true,
        WatchEvent::Other => false,
    }
}

} // verus!
