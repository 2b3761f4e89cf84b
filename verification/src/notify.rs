//! Popups that tell where control went.
use crate::session::Session;
use vstd::prelude::*;

verus! {

/// How long to wait for the desktop, in milliseconds.
pub const TIMEOUT: u64 = 2000;

/// How long a popup stays, in milliseconds.
pub const EXPIRES: i32 = 1500;

/// What the desktop is asked to show.
#[derive(Debug)]
pub struct Notification {
    pub app_name: &'static str,
    /// The popup that this one takes the place of, or 0.
    pub replaces: u32,
    pub icon: &'static str,
    pub summary: &'static str,
    pub body: String,
    pub expires: i32,
}

/// Remembers the last popup, so that the next one replaces it instead of stacking up.
#[derive(Clone, Copy, Debug, PartialEq, Eq, Structural)]
pub struct Notifier {
    pub replaces: u32,
}

impl Notifier {
    /// No popup was shown yet.
    pub fn new() -> (r: Notifier)
        ensures
            r.replaces == 0,
    {
        Notifier { replaces: 0 }
    }

    /// The popup that says that control is with `target` now.
    pub fn popup(&self, target: &str) -> (r: Notification)
        ensures
            r.app_name@ == "rkvm"@,
            r.replaces == self.replaces,
            r.icon@ == "input-keyboard"@,
            r.summary@ == "rkvm"@,
            r.body@ == "now on "@ + target@,
            r.expires == EXPIRES,
    {
        Notification {
            app_name: "rkvm",
            replaces: self.replaces,
            icon: "input-keyboard",
            summary: "rkvm",
            body: "now on ".to_owned().concat(target),
            expires: EXPIRES,
        }
    }

    /// Takes note of the number that the desktop gave to a popup.
    pub fn shown(&mut self, id: u32)
        ensures
            final(self).replaces == id,
    {
        self.replaces = id;
    }
}

/// Where popups can be shown: on the bus of a session, given whether it has one.
pub fn address(session: &Option<Session>, exists: bool) -> (r: Result<String, &'static str>)
    ensures
        match *session {
            None => r matches Err(reason) && reason@ == "No user session"@,
            Some(session) => if exists {
                r matches Ok(address) && address@ == "unix:path="@ + session.bus_text()
            } else {
                r matches Err(reason) && reason@ == "No session bus"@
            },
        },
{
    match session {
        None => Err("No user session"),
        Some(session) => match session.bus(exists) {
            Some(address) => Ok(address),
            None => Err("No session bus"),
        },
    }
}

/// The desktop has two seconds, and a popup stays for one and a half.
pub proof fn law_popup_times()
    ensures
        TIMEOUT == 2000,
        EXPIRES == 1500,
{
}

} // verus!
