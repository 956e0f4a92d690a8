//! Bit-level packing of variable-width integer fields into a byte-meaningful
//! buffer, and a streaming decoder that re-segments such a buffer with a
//! caller-supplied classifier.

pub mod bits;
pub mod descriptor;
pub mod packer;
pub mod unpacker;
