//! The framing core of a line-oriented chat relay.
//!
//! Bytes from a connection gather in a [`Request`], which finds the lines in
//! them and reads each as a [`Message`]. Messages that go out gather in a
//! [`Reply`], which packs them into frames. No frame, in or out, is longer
//! than [`BUFFER_SIZE`] bytes, and no message is cut in two.

use vstd::prelude::*;

pub mod message;
pub mod reply;
pub mod request;
pub mod round_trip;
pub mod text;
pub mod worker;

pub use message::Message;
pub use reply::Reply;
pub use request::Request;

verus! {

/// The most bytes that one frame holds, inbound or outbound.
pub const BUFFER_SIZE: usize = 512;

} // verus!
