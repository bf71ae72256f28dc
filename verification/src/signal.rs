//! Signal management: what a poll on the pipe that signals are delivered on means.

use vstd::prelude::*;

verus! {

/// `POLLIN`
pub const POLLIN: u16 = 0x01;

/// `POLLERR`
pub const POLLERR: u16 = 0x08;

/// `POLLHUP`
pub const POLLHUP: u16 = 0x10;

/// `POLLNVAL`
pub const POLLNVAL: u16 = 0x20;

/// Any of `flags` is among `revents`.
pub open spec fn intersects(revents: u16, flags: u16) -> bool {
    revents & flags != 0
}

/// The flags are bits of their own: each is there or not, whatever else is.
pub proof fn flags_are_single_bits(revents: u16)
    ensures
        intersects(revents, POLLIN) <==> revents % 2 == 1,
        intersects(revents, POLLERR) <==> (revents / 8) % 2 == 1,
        intersects(revents, POLLHUP) <==> (revents / 16) % 2 == 1,
        intersects(revents, POLLNVAL) <==> (revents / 32) % 2 == 1,
{
    assert((revents & 0x01 != 0) == (revents % 2 == 1)) by (bit_vector);
    assert((revents & 0x08 != 0) == ((revents / 8) % 2 == 1)) by (bit_vector);
    assert((revents & 0x10 != 0) == ((revents / 16) % 2 == 1)) by (bit_vector);
    assert((revents & 0x20 != 0) == ((revents / 32) % 2 == 1)) by (bit_vector);
}

/// There is something to read.
pub fn is_readable(revents: u16) -> (readable: bool)
    ensures
        readable == intersects(revents, POLLIN),
        readable <==> revents % 2 == 1,
{
    proof {
        flags_are_single_bits(revents);
    }
    revents & POLLIN != 0
}

/// Nothing will come from there any more.
pub fn is_gone(revents: u16) -> (gone: bool)
    ensures
        gone == (intersects(revents, POLLERR) || intersects(revents, POLLHUP) || intersects(
            revents,
            POLLNVAL,
        )),
        gone <==> (revents / 8) % 2 == 1 || (revents / 16) % 2 == 1 || (revents / 32) % 2 == 1,
{
    proof {
        flags_are_single_bits(revents);
    }
    revents & POLLERR != 0 || revents & POLLHUP != 0 || revents & POLLNVAL != 0
}

/// What became of an attempt to wait for the signal pipe.
#[derive(Debug, Clone, Copy, PartialEq, Eq, Structural)]
pub enum Polled {
    /// The wait ended, and this is what there is on the pipe.
    Ready(u16),
    Interrupted,
    Failed,
}

/// The signals that end the daemon.
#[derive(Debug)]
pub struct Signals;

impl Signals {
    /// Something is on the pipe, or it is broken.
    pub fn is_signaled(revents: u16) -> (signaled: bool)
        ensures
            signaled == (intersects(revents, POLLIN) || intersects(revents, POLLHUP) || intersects(
                revents,
                POLLERR,
            ) || intersects(revents, POLLNVAL)),
    {
        is_readable(revents) || is_gone(revents)
    }

    /// Whether the signal is what ended a wait, or `None` if the wait failed.
    pub fn wait(polled: Polled) -> (signaled: Option<bool>)
        ensures
            signaled == match polled {
                Polled::Ready(revents) => Some(
                    intersects(revents, POLLIN) || intersects(revents, POLLHUP) || intersects(
                        revents,
                        POLLERR,
                    ) || intersects(revents, POLLNVAL),
                ),
                Polled::Interrupted => Some(false),
                Polled::Failed => None,
            },
    {
        match polled {
            Polled::Ready(revents) => Some(Signals::is_signaled(revents)),
            Polled::Interrupted => Some(false),
            Polled::Failed => None,
        }
    }
}

} // verus!
