//! A message-routing broker core for a pub/sub protocol of self-describing
//! business objects: a wire framing codec (textual header, NUL delimiter,
//! in-band payload length), a hierarchical subscription matcher, and the
//! per-connection session and routing state machine.

pub mod codec;
pub mod io;
pub mod json;
pub mod num;
pub mod object;
pub mod server;
pub mod subscription;
pub mod text;

use vstd::prelude::*;

verus! {

} // verus!
