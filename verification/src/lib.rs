//! SEA: a line-oriented messaging protocol for requesting and transferring
//! named resources between peers over a text transport.
//!
//! The crate has four layers:
//! - [`text`]: the character-level building blocks of the wire format
//!   (whitespace-separated fields, decimal numbers, payload escaping);
//! - [`codec`]: the wire codec, turning a [`codec::Message`] into a single
//!   transport line and back;
//! - [`chunk`]: splitting an oversized payload into a parts announcement
//!   plus part frames sized to a transport limit;
//! - [`assemble`]: the receiver side, reassembling parted payloads keyed
//!   by peer and transfer id.

pub mod assemble;
pub mod chunk;
pub mod codec;
pub mod text;

use vstd::prelude::*;

verus! {

/// A character is counted as a header separator by the codec.
pub open spec fn spec_is_space(c: char) -> bool {
    c == ' ' || c == '\t' || c == '\r' || c == '\n'
}

/// Whether `c` separates header fields on the wire.
pub fn is_space(c: char) -> (r: bool)
    ensures
        r == spec_is_space(c),
{
    c == ' ' || c == '\t' || c == '\r' || c == '\n'
}

} // verus!
