//! What the server tells its clients.
use crate::clipboard::{Contents, Data};
use crate::device::{Description, Device};
use crate::event::Event;
use vstd::prelude::*;

verus! {

/// Something that a client is told.
pub enum Update {
    /// There is a device, known by a number from now on.
    CreateDevice { id: usize, device: Device },
    /// A device is gone.
    DestroyDevice { id: usize },
    /// A device reported something.
    Event { id: usize, event: Event },
    /// The clipboard holds something new.
    Clipboard(Data),
    /// The client is being controlled from now on, or no more.
    Active(bool),
    /// The server is still there, and waits for an answer.
    Ping,
}

/// What an [`Update`] says.
#[verifier::ext_equal]
pub enum News {
    CreateDevice { id: usize, device: Description },
    DestroyDevice { id: usize },
    Event { id: usize, event: Event },
    Clipboard(Contents),
    Active(bool),
    Ping,
}

impl View for Update {
    type V = News;

    open spec fn view(&self) -> News {
        match *self {
            Update::CreateDevice { id, device } => News::CreateDevice { id, device: device@ },
            Update::DestroyDevice { id } => News::DestroyDevice { id },
            Update::Event { id, event } => News::Event { id, event },
            Update::Clipboard(data) => News::Clipboard(data@),
            Update::Active(active) => News::Active(active),
            Update::Ping => News::Ping,
        }
    }
}

impl Clone for Update {
    fn clone(&self) -> (r: Self)
        ensures
            r@ == self@,
    {
        match self {
            Update::CreateDevice { id, device } => Update::CreateDevice {
                id: *id,
                device: device.clone(),
            },
            Update::DestroyDevice { id } => Update::DestroyDevice { id: *id },
            Update::Event { id, event } => Update::Event { id: *id, event: *event },
            Update::Clipboard(data) => Update::Clipboard(data.clone()),
            Update::Active(active) => Update::Active(*active),
            Update::Ping => Update::Ping,
        }
    }
}

/// An update says what it holds.
pub proof fn law_updates_say_what_they_hold(
    id: usize,
    device: Device,
    event: Event,
    data: Data,
    active: bool,
)
    ensures
        (Update::CreateDevice { id, device })@ == (News::CreateDevice { id, device: device@ }),
        (Update::DestroyDevice { id })@ == (News::DestroyDevice { id }),
        (Update::Event { id, event })@ == (News::Event { id, event }),
        Update::Clipboard(data)@ == News::Clipboard(data@),
        Update::Active(active)@ == News::Active(active),
        Update::Ping@ is Ping,
{
}

} // verus!
