//! Readiness flags: which events ask for a connection to be dropped, read or
//! written.
use vstd::prelude::*;

verus! {

/// Relies on `libc::EPOLLIN` (0x1 on Linux).
#[verifier::external_body]
fn epollin() -> (r: u32)
    ensures
        r == 0x1,
{
    libc::EPOLLIN as u32
}

/// Relies on `libc::EPOLLOUT` (0x4 on Linux).
#[verifier::external_body]
fn epollout() -> (r: u32)
    ensures
        r == 0x4,
{
    libc::EPOLLOUT as u32
}

/// Relies on `libc::EPOLLERR` (0x8 on Linux).
#[verifier::external_body]
fn epollerr() -> (r: u32)
    ensures
        r == 0x8,
{
    libc::EPOLLERR as u32
}

/// Relies on `libc::EPOLLHUP` (0x10 on Linux).
#[verifier::external_body]
fn epollhup() -> (r: u32)
    ensures
        r == 0x10,
{
    libc::EPOLLHUP as u32
}

/// Relies on `libc::EPOLLRDHUP` (0x2000 on Linux).
#[verifier::external_body]
fn epollrdhup() -> (r: u32)
    ensures
        r == 0x2000,
{
    libc::EPOLLRDHUP as u32
}

/// An error, a hang-up, or the peer closing its side.
pub open spec fn drop_flags(flags: u32) -> bool {
    (flags & 0x8u32) != 0 || (flags & 0x10u32) != 0 || (flags & 0x2000u32) != 0
}

/// Whether a connection with these readiness flags is to be dropped.
pub fn should_drop(flags: u32) -> (r: bool)
    ensures
        r == drop_flags(flags),
{
    (flags & epollerr()) != 0 || (flags & epollhup()) != 0 || (flags & epollrdhup()) != 0
}

/// Whether the flags report the connection readable.
pub fn is_readable(flags: u32) -> (r: bool)
    ensures
        r == ((flags & 0x1u32) != 0),
{
    (flags & epollin()) != 0
}

/// Whether the flags report the connection writable.
pub fn is_writable(flags: u32) -> (r: bool)
    ensures
        r == ((flags & 0x4u32) != 0),
{
    (flags & epollout()) != 0
}

/// Interest in reading, errors and hang-ups: a connection still receiving its request.
pub fn read_interest() -> (r: u32)
    ensures
        r == (0x1u32 | 0x2000u32 | 0x8u32 | 0x10u32),
{
    epollin() | epollrdhup() | epollerr() | epollhup()
}

/// Interest in writing as well: a connection with a response to send.
pub fn write_interest() -> (r: u32)
    ensures
        r == (0x1u32 | 0x4u32 | 0x2000u32 | 0x8u32 | 0x10u32),
{
    epollin() | epollout() | epollrdhup() | epollerr() | epollhup()
}

/// What one readiness event asks of the event loop.
#[derive(Debug, Clone, Copy, PartialEq, Eq, Structural)]
pub enum EventPlan {
    /// A listening socket is ready: accept connections until none is waiting.
    Accept,
    /// An error or hang-up: drop the connection, and do nothing else with it.
    Drop,
    /// Read if readable, then write if writable (a failed read drops the
    /// connection and skips the write).
    Serve { read: bool, write: bool },
}

/// The order of handling an event: a listener accepts; a connection with an
/// error or hang-up is dropped; otherwise it is read, then written.
pub open spec fn plan_of(is_listener: bool, flags: u32) -> EventPlan {
    if is_listener {
        EventPlan::Accept
    } else if drop_flags(flags) {
        EventPlan::Drop
    } else {
        EventPlan::Serve { read: (flags & 0x1u32) != 0, write: (flags & 0x4u32) != 0 }
    }
}

pub fn event_plan(is_listener: bool, flags: u32) -> (r: EventPlan)
    ensures
        r == plan_of(is_listener, flags),
{
    if is_listener {
        EventPlan::Accept
    } else if should_drop(flags) {
        EventPlan::Drop
    } else {
        EventPlan::Serve { read: is_readable(flags), write: is_writable(flags) }
    }
}

} // verus!
