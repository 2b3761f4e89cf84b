//! Input events.
use vstd::prelude::*;

verus! {

/// A key or button going down or up. A key goes by the code that the kernel has for it.
#[derive(Clone, Copy, Debug, PartialEq, Eq, Structural)]
pub struct KeyEvent {
    pub key: u16,
    pub down: bool,
}

/// An event of another type, as the kernel tells it.
#[derive(Clone, Copy, Debug, PartialEq, Eq, Structural)]
pub struct RawEvent {
    pub kind: u16,
    pub code: u16,
    pub value: i32,
}

/// What a device reports.
#[derive(Clone, Copy, Debug, PartialEq, Eq, Structural)]
pub enum Event {
    Key(KeyEvent),
    /// The end of a group of events that belong together.
    Sync,
    Other(RawEvent),
}

} // verus!
