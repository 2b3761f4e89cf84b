//! What the server has to get done.
use crate::clipboard::{Contents, Data};
use crate::shell::{CommandLine, CommandText};
use crate::update::{News, Update};
use vstd::prelude::*;

verus! {

/// One thing to get done.
pub enum Action {
    /// Tell a client. If it has no room for the update yet, the update stays due until it has.
    Send { client: usize, update: Update },
    /// Put the data on the clipboard of this machine.
    Apply(Data),
    /// Start a command, and do not wait for it.
    Run(CommandLine),
    /// Switch the caps lock light of a device.
    Light { device: usize, on: bool },
}

/// What an [`Action`] comes down to.
#[verifier::ext_equal]
pub enum Deed {
    Send { client: usize, update: News },
    Apply(Contents),
    Run(CommandText),
    Light { device: usize, on: bool },
}

impl View for Action {
    type V = Deed;

    open spec fn view(&self) -> Deed {
        match *self {
            Action::Send { client, update } => Deed::Send { client, update: update@ },
            Action::Apply(data) => Deed::Apply(data@),
            Action::Run(command) => Deed::Run(command@),
            Action::Light { device, on } => Deed::Light { device, on },
        }
    }
}

/// What a list of actions comes down to.
pub open spec fn deeds(actions: Seq<Action>) -> Seq<Deed> {
    actions.map_values(|action: Action| action@)
}

/// An action comes down to what it holds, and a list of them to each, in order.
pub proof fn law_actions_come_down_to_what_they_hold(
    client: usize,
    update: Update,
    data: Data,
    command: CommandLine,
    device: usize,
    on: bool,
    actions: Seq<Action>,
    i: int,
)
    ensures
        (Action::Send { client, update })@ == (Deed::Send { client, update: update@ }),
        Action::Apply(data)@ == Deed::Apply(data@),
        Action::Run(command)@ == Deed::Run(command@),
        (Action::Light { device, on })@ == (Deed::Light { device, on }),
        deeds(actions).len() == actions.len(),
        0 <= i < actions.len() ==> deeds(actions)[i] == actions[i]@,
{
}

} // verus!
