//! How long a client waits before it connects again. Times are in milliseconds.
use vstd::prelude::*;

verus! {

/// The shortest delay.
pub const RECONNECT_MIN: u64 = 500;

/// The longest delay, and how long a connection has to last to start over.
pub const RECONNECT_MAX: u64 = 5000;

/// The delay grows from one attempt to the next.
#[derive(Clone, Copy, Debug, PartialEq, Eq, Structural)]
pub struct Backoff {
    pub delay: u64,
}

/// The delay after a wait of `delay`: twice as much, up to the longest.
pub open spec fn grown(delay: int) -> int {
    if 2 * delay < RECONNECT_MAX {
        2 * delay
    } else {
        RECONNECT_MAX as int
    }
}

impl Backoff {
    /// What holds of it at all times.
    pub open spec fn wf(self) -> bool {
        RECONNECT_MIN <= self.delay <= RECONNECT_MAX
    }

    /// How long to wait after a connection that lasted for `lasted`.
    pub open spec fn wait(self, lasted: u64) -> u64 {
        if lasted >= RECONNECT_MAX {
            RECONNECT_MIN
        } else {
            self.delay
        }
    }

    /// What comes after such a connection.
    pub open spec fn next(self, lasted: u64) -> Backoff {
        Backoff { delay: grown(self.wait(lasted) as int) as u64 }
    }

    /// Starts with the shortest delay.
    pub fn new() -> (r: Backoff)
        ensures
            r.wf(),
            r.delay == RECONNECT_MIN,
    {
        Backoff { delay: RECONNECT_MIN }
    }

    /// How long to wait after a connection that lasted for `lasted`.
    pub fn disconnected(&mut self, lasted: u64) -> (r: u64)
        requires
            old(self).wf(),
        ensures
            final(self).wf(),
            r == old(self).wait(lasted),
            *final(self) == old(self).next(lasted),
    {
        let wait = if lasted >= RECONNECT_MAX {
            RECONNECT_MIN
        } else {
            self.delay
        };
        let twice = wait * 2;
        self.delay = if twice < RECONNECT_MAX {
            twice
        } else {
            RECONNECT_MAX
        };
        wait
    }
}

/// The state of a new client after connections that lasted for as long as `lasted` says.
pub open spec fn backed_off(lasted: Seq<u64>) -> Backoff
    decreases lasted.len(),
{
    if lasted.len() == 0 {
        Backoff { delay: RECONNECT_MIN }
    } else {
        backed_off(lasted.drop_last()).next(lasted.last())
    }
}

/// Whatever happens, a client waits half a second at least and five seconds at most. While the
/// server stays away, no wait is shorter than the one before, and each is twice as long until
/// the longest is reached. After a connection that held, the next wait is half a second.
pub proof fn law_waits(lasted: Seq<u64>, next: u64, later: u64)
    ensures
        ({
            let before = backed_off(lasted);
            let first = before.wait(next);
            let second = before.next(next).wait(later);
            &&& RECONNECT_MIN <= first <= RECONNECT_MAX
            &&& next >= RECONNECT_MAX ==> first == RECONNECT_MIN
            &&& later < RECONNECT_MAX ==> first <= second
            &&& later < RECONNECT_MAX ==> second == 2 * first || second == RECONNECT_MAX
            &&& later >= RECONNECT_MAX ==> second == RECONNECT_MIN
        }),
{
    lemma_backed_off(lasted);
}

proof fn lemma_backed_off(lasted: Seq<u64>)
    ensures
        backed_off(lasted).wf(),
    decreases lasted.len(),
{
    if lasted.len() > 0 {
        lemma_backed_off(lasted.drop_last());
    }
}

/// The first wait is half a second, and so is the one after a connection that held for five seconds
/// or more. Any other is twice the one before, or five seconds if that is less.
pub proof fn law_each_wait(backoff: Backoff, lasted: u64, next: u64)
    requires
        backoff.wf(),
    ensures
        backed_off(seq![]).wait(0) == 500,
        500 <= backoff.delay <= 5000,
        lasted >= 5000 ==> backoff.wait(lasted) == 500,
        lasted < 5000 ==> backoff.wait(lasted) == backoff.delay,
        next < 5000 && 2 * backoff.wait(lasted) <= 5000 ==> backoff.next(lasted).wait(next) == 2
            * backoff.wait(lasted),
        next < 5000 && 2 * backoff.wait(lasted) > 5000 ==> backoff.next(lasted).wait(next) == 5000,
        next >= 5000 ==> backoff.next(lasted).wait(next) == 500,
{
}

} // verus!
