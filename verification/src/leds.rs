//! The caps lock lights of all keyboards, whether the program has taken them over or not.
use crate::text::starts_with;
use vstd::prelude::*;

verus! {

/// Where the input devices are.
pub const EVENT_PATH: &'static str = "/dev/input";

/// Whether a name in [`EVENT_PATH`], if it is text, is that of an input device.
pub open spec fn is_event_node(name: Option<Seq<char>>) -> bool {
    name matches Some(name) && "event"@.is_prefix_of(name)
}

/// Whether a name in [`EVENT_PATH`], if it is text, is that of an input device.
pub fn event_node(name: Option<&str>) -> (r: bool)
    ensures
        r == is_event_node(
            match name {
                Some(name) => Some(name@),
                None => None,
            },
        ),
{
    match name {
        Some(name) => starts_with(name, "event"),
        None => false,
    }
}

/// What came of an attempt to switch the light of a device.
#[derive(Clone, Copy, Debug, PartialEq, Eq, Structural)]
pub enum Attempt {
    /// It is no device that can be opened.
    Unusable,
    /// It has no such light.
    Unsupported,
    /// The light was switched.
    Switched,
    /// The device did not switch it, with that error code.
    Refused(i32),
}

/// Whether a device has the light, given what it said of that. Only 1 says that it has.
pub fn has_light(supported: i32) -> (r: bool)
    ensures
        r == (supported == 1),
{
    supported == 1
}

/// What came of an attempt, given what the device said: whether it has the light, and if so, what
/// it returned when asked to switch it. Only 1 says that it has, and only 0 that it did.
pub fn attempt(supported: i32, returned: i32) -> (r: Attempt)
    ensures
        r == if supported != 1 {
            Attempt::Unsupported
        } else if returned == 0 {
            Attempt::Switched
        } else {
            Attempt::Refused(returned)
        },
{
    if !has_light(supported) {
        Attempt::Unsupported
    } else if returned == 0 {
        Attempt::Switched
    } else {
        Attempt::Refused(returned)
    }
}

/// How many lights were switched.
pub fn count(attempts: &Vec<Attempt>) -> (r: usize)
    ensures
        r == attempts@.filter(|attempt: Attempt| attempt is Switched).len(),
{
    let ghost switched = |attempt: Attempt| attempt is Switched;
    let mut r: usize = 0;
    let mut i: usize = 0;
    proof {
        reveal(Seq::filter);
        assert(attempts@.take(0) =~= seq![]);
    }
    while i < attempts.len()
        invariant
            i <= attempts@.len(),
            r <= i,
            switched == (|attempt: Attempt| attempt is Switched),
            r == attempts@.take(i as int).filter(switched).len(),
        decreases attempts.len() - i,
    {
        proof {
            reveal(Seq::filter);
            assert(attempts@.take(i + 1).drop_last() =~= attempts@.take(i as int));
        }
        if let Attempt::Switched = attempts[i] {
            r += 1;
        }
        i += 1;
    }
    assert(attempts@.take(i as int) =~= attempts@);
    r
}

/// Input devices are those whose names begin with `event`.
pub proof fn law_event_nodes(name: Seq<char>)
    ensures
        is_event_node(Some(name)) <==> name.len() >= 5 && name.take(5) == "event"@,
        !is_event_node(None),
        EVENT_PATH@ == "/dev/input"@,
{
    reveal_strlit("event");
}

} // verus!
