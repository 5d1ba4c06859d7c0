//! The decisions of the loop that reads change records.
//!
//! The caller performs each read and hands back what it returned; the loop
//! decides what follows.

use crate::error::{ErrorKind, WatchError};
use crate::inotify_api::{decoded, inotify_event, leftover, EventDecoder};
use vstd::prelude::*;

verus! {

/// The error code of a read that found nothing to read yet.
pub const EAGAIN: i32 = 11;

/// The error code of a read that a signal interrupted.
pub const EINTR: i32 = 4;

/// Whether a failed read is to be tried again without a word: there was
/// nothing to read yet, or a signal interrupted the call.
pub open spec fn transient(os_error: i32) -> bool {
    os_error == EAGAIN || os_error == EINTR
}

/// What the read loop does after a read.
#[derive(Debug, Clone, PartialEq, Eq)]
pub enum LoopAction {
    /// Read again; there is nothing to pass on.
    Retry,
    /// Make the error known, then read again.
    Report(WatchError),
    /// Pass each event on to the consumer, in this order, then read again.
    Forward(Vec<inotify_event>),
    /// Close the handle and end the loop.
    Stop,
}

/// The state of the read loop: the handle it owns, the bytes of a record
/// whose rest is still to come, and whether it was told to stop.
pub struct LoopView {
    pub fd: i32,
    pub pending: Seq<u8>,
    pub stopping: bool,
}

/// The read loop. It owns the handle and the bytes carried over between
/// reads; every event that a read completes is passed on by itself, none is
/// merged with another.
pub struct WatchLoop {
    fd: i32,
    decoder: EventDecoder,
    stopping: bool,
}

impl View for WatchLoop {
    type V = LoopView;

    closed spec fn view(&self) -> LoopView {
        LoopView { fd: self.fd, pending: self.decoder@, stopping: self.stopping }
    }
}

impl WatchLoop {
    /// A loop that owns `fd`, has read nothing and was not told to stop.
    pub fn new(fd: i32) -> (r: Self)
        ensures
            r@ == (LoopView { fd, pending: Seq::empty(), stopping: false }),
    {
        WatchLoop { fd, decoder: EventDecoder::new(), stopping: false }
    }

    /// The handle to read from.
    pub fn fd(&self) -> (r: i32)
        ensures
            r == self@.fd,
    {
        self.fd
    }

    /// Tells the loop to stop: from now on every read is answered with
    /// [`LoopAction::Stop`].
    pub fn request_stop(&mut self)
        ensures
            final(self)@ == (LoopView { stopping: true, ..old(self)@ }),
    {
        self.stopping = true;
    }

    /// Whether the loop was told to stop.
    pub fn is_stopping(&self) -> (r: bool)
        ensures
            r == self@.stopping,
    {
        self.stopping
    }

    /// Decides what follows a read that returned `count`, with the error
    /// code `os_error` where `count` is negative, and the bytes read at the
    /// start of `buf` where it is positive.
    ///
    /// A loop that was told to stop stops. A failed read is tried again,
    /// after its error was reported unless it is a transient one. A read of
    /// no bytes is tried again. Any other read is decoded behind the bytes
    /// carried over, and every whole record is passed on.
    pub fn on_read(&mut self, buf: &[u8], count: isize, os_error: i32) -> (r: LoopAction)
        requires
            count <= buf.len(),
        ensures
            final(self)@.fd == old(self)@.fd,
            final(self)@.stopping == old(self)@.stopping,
            old(self)@.stopping ==> r == LoopAction::Stop,
            !old(self)@.stopping && count < 0 && transient(os_error) ==> r == LoopAction::Retry,
            !old(self)@.stopping && count < 0 && !transient(os_error) ==> r == LoopAction::Report(
                WatchError { kind: ErrorKind::ReadFailed, code: os_error },
            ),
            !old(self)@.stopping && count == 0 ==> r == LoopAction::Retry,
            old(self)@.stopping || count <= 0 ==> final(self)@.pending == old(self)@.pending,
            !old(self)@.stopping && count > 0 ==> {
                let bytes = old(self)@.pending + buf@.take(count as int);
                &&& r matches LoopAction::Forward(events) && events.deep_view() == decoded(bytes)
                &&& final(self)@.pending == leftover(bytes)
            },
    {
        if self.stopping {
            return LoopAction::Stop;
        }
        if count < 0 {
            if os_error == EAGAIN || os_error == EINTR {
                return LoopAction::Retry;
            }
            return LoopAction::Report(WatchError { kind: ErrorKind::ReadFailed, code: os_error });
        }
        if count == 0 {
            return LoopAction::Retry;
        }
        let events = self.decoder.feed(buf, count as usize);
        LoopAction::Forward(events)
    }
}

} // verus!
