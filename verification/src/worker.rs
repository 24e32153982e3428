//! The decisions of a worker: how many workers serve, and what one of them
//! does with its connection after each read.

use vstd::prelude::*;
use crate::request::{appended, logical_size, terminated, Request};
use crate::BUFFER_SIZE;

verus! {

/// What a worker does next with the connection it serves.
#[derive(Clone, Copy, Debug, PartialEq, Eq, Structural)]
pub enum Action {
    /// Read again: no complete line has arrived yet.
    Read,
    /// Hand the messages in the buffer to the service, send what it replies
    /// and clear the buffer.
    Dispatch,
    /// Give the connection up.
    Drop,
}

/// What to do with a buffer that bytes were just written into: dispatch
/// where it ends in a terminator, give up where it is full without one, read
/// on otherwise.
pub open spec fn action_for(buffer: Seq<u8>) -> Action {
    if terminated(buffer) {
        Action::Dispatch
    } else if logical_size(buffer) >= BUFFER_SIZE {
        Action::Drop
    } else {
        Action::Read
    }
}

/// The buffer and the action after a read. `None` stands for a read that
/// failed, no bytes for a peer that closed the connection. Either ends the
/// connection and leaves the buffer alone, and so do bytes that the buffer
/// cannot take.
pub open spec fn after_read(buffer: Seq<u8>, read: Option<Seq<u8>>) -> (Seq<u8>, Action) {
    match read {
        None => (buffer, Action::Drop),
        Some(bytes) => if bytes.len() == 0 || logical_size(buffer) + bytes.len() > BUFFER_SIZE {
            (buffer, Action::Drop)
        } else {
            (appended(buffer, bytes), action_for(appended(buffer, bytes)))
        },
    }
}

/// What a read handed over, as plain bytes.
pub open spec fn bytes_of(read: Option<&[u8]>) -> Option<Seq<u8>> {
    match read {
        Some(bytes) => Some(bytes@),
        None => None,
    }
}

/// Takes what a read gave into the buffer and says what to do next.
pub fn receive(request: &mut Request, read: Option<&[u8]>) -> (action: Action)
    requires
        old(request).wf(),
    ensures
        final(request).wf(),
        (final(request)@, action) == after_read(old(request)@, bytes_of(read)),
{
    match read {
        None => Action::Drop,
        Some(bytes) => {
            if bytes.len() == 0 {
                return Action::Drop;
            }
            match request.append(bytes) {
                Err(_) => Action::Drop,
                Ok(_) => {
                    if request.valid() {
                        Action::Dispatch
                    } else if request.size() >= BUFFER_SIZE {
                        Action::Drop
                    } else {
                        Action::Read
                    }
                },
            }
        },
    }
}

/// `num_cpus::get`: the number of logical CPUs that this process may use.
/// It differs from machine to machine, so nothing is claimed of it.
#[verifier::external_body]
fn logical_cpus() -> usize {
    num_cpus::get()
}

/// The number of workers for a machine with `cpus` logical CPUs: one for
/// each, and one where none was counted.
pub open spec fn workers_for(cpus: usize) -> usize {
    if cpus == 0 {
        1
    } else {
        cpus
    }
}

/// The number of workers for a machine with `cpus` logical CPUs.
pub fn pool_size(cpus: usize) -> (workers: usize)
    ensures
        workers == workers_for(cpus),
{
    if cpus == 0 {
        1
    } else {
        cpus
    }
}

/// The number of workers to start on this machine. There is always at least
/// one.
pub fn worker_count() -> (workers: usize)
    ensures
        workers >= 1,
{
    pool_size(logical_cpus())
}

} // verus!
