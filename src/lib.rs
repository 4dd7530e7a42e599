//! Incremental decoder for a length-prefixed framing protocol.
//!
//! A frame on the wire is two synchronization bytes, a big-endian 16-bit
//! payload length of at most 512, and the payload itself. Bytes arrive in
//! chunks of any size; the decoder reassembles frames across chunks,
//! resynchronizes on malformed input, decodes each complete payload and
//! forwards the decoded message to an output channel.
use vstd::prelude::*;

pub mod framing;
pub mod stream_buffer;

pub use stream_buffer::StreamBuffer;

verus! {

} // verus!
