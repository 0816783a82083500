//! What waiting can end in.
use vstd::prelude::*;

verus! {

/// The time was up.
#[derive(Clone, Copy, Debug, PartialEq, Eq, Structural)]
pub struct Elapsed;

impl Elapsed {
    /// Says so.
    pub fn message(&self) -> (message: String)
        ensures
            message@ == "operation timed out"@,
    {
        "operation timed out".to_owned()
    }
}

/// A task ended without a value.
#[derive(Clone, Copy, Debug, PartialEq, Eq, Structural)]
pub struct JoinError;

impl JoinError {
    /// Tasks are never cancelled.
    pub fn is_cancelled(&self) -> (cancelled: bool)
        ensures
            !cancelled,
    {
        false
    }

    /// Says what happened.
    pub fn message(&self) -> (message: String)
        ensures
            message@ == "the spawned task did not produce a value"@,
    {
        "the spawned task did not produce a value".to_owned()
    }
}

/// The receiver of a value is gone; the value comes back.
#[derive(Debug)]
pub struct SendError<T>(pub T);

impl<T> SendError<T> {
    /// Says so.
    pub fn message(&self) -> (message: String)
        ensures
            message@ == "channel closed"@,
    {
        "channel closed".to_owned()
    }
}

/// Wakes those who wait, one at a time. A wake-up that comes before anyone
/// waits is kept for the next one.
#[derive(Debug)]
pub struct Notify {
    pub waiters: Vec<u64>,
    pub permit: bool,
}

impl Notify {
    /// Nobody waits yet.
    pub fn new() -> (notify: Notify)
        ensures
            notify.waiters@.len() == 0,
            !notify.permit,
    {
        Notify { waiters: Vec::new(), permit: false }
    }

    /// Takes out the one to wake, or keeps the wake-up.
    pub fn notify_one(&mut self) -> (woken: Option<u64>)
        ensures
            match woken {
                Some(waiter) => {
                    &&& old(self).waiters@.len() > 0
                    &&& waiter == old(self).waiters@.last()
                    &&& final(self).waiters@ == old(self).waiters@.drop_last()
                    &&& final(self).permit == old(self).permit
                },
                None => {
                    &&& old(self).waiters@.len() == 0
                    &&& final(self).waiters@ == old(self).waiters@
                    &&& final(self).permit
                },
            },
    {
        match self.waiters.pop() {
            Some(waiter) => Some(waiter),
            None => {
                self.permit = true;
                None
            },
        }
    }

    /// Whether one who comes to wait is woken at once; otherwise it waits.
    pub fn notified(&mut self, waiter: u64) -> (at_once: bool)
        ensures
            at_once == old(self).permit,
            !final(self).permit,
            final(self).waiters@ == if at_once {
                old(self).waiters@
            } else {
                old(self).waiters@.push(waiter)
            },
    {
        if self.permit {
            self.permit = false;
            return true;
        }
        self.waiters.push(waiter);
        false
    }
}

impl Default for Notify {
    fn default() -> (notify: Self)
        ensures
            notify.waiters@.len() == 0,
            !notify.permit,
    {
        Notify::new()
    }
}

} // verus!
