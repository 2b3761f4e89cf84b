//! How the server watches over one device: it passes on what the device reports, and carries out
//! what the server has for the device.
use crate::event::Event;
use vstd::prelude::*;

verus! {

/// What the server has for a device.
#[derive(Clone, Copy, Debug, PartialEq, Eq, Structural)]
pub enum DeviceCommand {
    /// Hand an event back to the device.
    Event(Event),
    /// Switch its caps lock light.
    CapsLockLed(bool),
}

/// What happened.
#[derive(Clone, Copy, Debug, PartialEq, Eq, Structural)]
pub enum Occasion {
    /// The device reported an event or failed, and the server was told, if it still listens.
    Reported { failed: bool, heard: bool },
    /// The server has something for the device, or never will again.
    Command(Option<DeviceCommand>),
    /// An event was handed back to the device, or that failed.
    Written { failed: bool },
    /// The light of the device was switched, or that failed.
    Lit { failed: bool },
}

/// What to do then.
#[derive(Clone, Copy, Debug, PartialEq, Eq, Structural)]
pub enum Task {
    /// Wait for the device or the server.
    Wait,
    /// Hand an event back to the device.
    Write(Event),
    /// Switch the light of the device.
    Light(bool),
    /// Note that the light could not be switched, and wait.
    Warn,
    /// Tell the server that the device failed, and stop.
    Fail,
    /// Stop.
    Stop,
}

/// What to do after an occasion. A device that failed is not watched any more, and the server has
/// been told; a light that cannot be switched is no reason to stop.
pub fn task(occasion: Occasion) -> (r: Task)
    ensures
        match occasion {
            Occasion::Reported { failed, heard } => r == if failed || !heard {
                Task::Stop
            } else {
                Task::Wait
            },
            Occasion::Command(Some(DeviceCommand::Event(event))) => r == Task::Write(event),
            Occasion::Command(Some(DeviceCommand::CapsLockLed(on))) => r == Task::Light(on),
            Occasion::Command(None) => r == Task::Stop,
            Occasion::Written { failed } => r == if failed {
                Task::Fail
            } else {
                Task::Wait
            },
            Occasion::Lit { failed } => r == if failed {
                Task::Warn
            } else {
                Task::Wait
            },
        },
{
    match occasion {
        Occasion::Reported { failed, heard } => if failed || !heard {
            Task::Stop
        } else {
            Task::Wait
        },
        Occasion::Command(Some(DeviceCommand::Event(event))) => Task::Write(event),
        Occasion::Command(Some(DeviceCommand::CapsLockLed(on))) => Task::Light(on),
        Occasion::Command(None) => Task::Stop,
        Occasion::Written { failed } => if failed {
            Task::Fail
        } else {
            Task::Wait
        },
        Occasion::Lit { failed } => if failed {
            Task::Warn
        } else {
            Task::Wait
        },
    }
}

} // verus!
