//! Reading and writing whole events: what to do after each attempt.

use vstd::prelude::*;

verus! {

/// What became of an attempt to read or write.
#[derive(Debug, Clone, Copy, PartialEq, Eq, Structural)]
pub enum Attempt {
    /// So many bytes were transferred.
    Done(usize),
    /// There is nothing to be had right now.
    Again,
    /// A signal came in between.
    Interrupted,
    Failed,
}

/// What to do after an attempt to read.
#[derive(Debug, Clone, Copy, PartialEq, Eq, Structural)]
pub enum ReadStep {
    /// So many events have been read.
    Events(usize),
    Retry,
    Fail,
}

/// What to do after an attempt to read events that take `size` bytes each. Nothing to be had right
/// now is no events.
pub fn read(attempt: Attempt, size: usize) -> (step: ReadStep)
    requires
        size > 0,
    ensures
        step == match attempt {
            Attempt::Done(bytes) => ReadStep::Events((bytes / size) as usize),
            Attempt::Again => ReadStep::Events(0),
            Attempt::Interrupted => ReadStep::Retry,
            Attempt::Failed => ReadStep::Fail,
        },
{
    match attempt {
        Attempt::Done(bytes) => ReadStep::Events(bytes / size),
        Attempt::Again => ReadStep::Events(0),
        Attempt::Interrupted => ReadStep::Retry,
        Attempt::Failed => ReadStep::Fail,
    }
}

/// What to do after an attempt to read all that there is.
#[derive(Debug, Clone, Copy, PartialEq, Eq, Structural)]
pub enum DrainStep {
    /// So many more events have been read, and there may be more.
    More(usize),
    /// There is nothing more.
    Drained,
    Retry,
    Fail,
}

/// What to do after an attempt to read all events that there are, which take `size` bytes each.
pub fn drain(attempt: Attempt, size: usize) -> (step: DrainStep)
    requires
        size > 0,
    ensures
        step == match attempt {
            Attempt::Done(bytes) => if bytes == 0 {
                DrainStep::Drained
            } else {
                DrainStep::More((bytes / size) as usize)
            },
            Attempt::Again => DrainStep::Drained,
            Attempt::Interrupted => DrainStep::Retry,
            Attempt::Failed => DrainStep::Fail,
        },
{
    match attempt {
        Attempt::Done(bytes) => if bytes == 0 {
            DrainStep::Drained
        } else {
            DrainStep::More(bytes / size)
        },
        Attempt::Again => DrainStep::Drained,
        Attempt::Interrupted => DrainStep::Retry,
        Attempt::Failed => DrainStep::Fail,
    }
}

/// What to do after an attempt to write.
#[derive(Debug, Clone, Copy, PartialEq, Eq, Structural)]
pub enum WriteStep {
    /// So many bytes are left to be written.
    Left(usize),
    /// Nothing more can be written.
    WriteZero,
    Fail,
}

/// What to do after an attempt to write `left` bytes, of which there is at least one.
pub fn write_all(left: usize, attempt: Attempt) -> (step: WriteStep)
    requires
        left > 0,
        attempt matches Attempt::Done(bytes) ==> bytes <= left,
    ensures
        step == match attempt {
            Attempt::Done(bytes) => if bytes == 0 {
                WriteStep::WriteZero
            } else {
                WriteStep::Left((left - bytes) as usize)
            },
            Attempt::Interrupted => WriteStep::Left(left),
            Attempt::Again | Attempt::Failed => WriteStep::Fail,
        },
{
    match attempt {
        Attempt::Done(bytes) => if bytes == 0 {
            WriteStep::WriteZero
        } else {
            WriteStep::Left(left - bytes)
        },
        Attempt::Interrupted => WriteStep::Left(left),
        Attempt::Again | Attempt::Failed => WriteStep::Fail,
    }
}

} // verus!
