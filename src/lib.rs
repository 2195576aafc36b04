//! Inspection of MessagePack files, one or two at a time.
//!
//! - `digest`: the CRC-32 of a file's raw bytes, for display.
//! - `value`: the decoded tree, a closed set of value kinds.
//! - `codec`: the format's grammar, and a decoder and an encoder proved
//!   against it. Decoding reads the value at the front of a buffer and leaves
//!   any bytes after it unread; it fails exactly when no value starts there.
//! - `identity`: structural equality and an identity key (and hash) for
//!   values, so that they can serve as keys. Maps compare entry by entry in
//!   stored order; floats compare by bit pattern, so `0.0` and `-0.0` differ;
//!   integers compare by value.
//! - `walk`: a depth-first walk over a tree, each node with its path.
//! - `slot`: the life of a file slot (choose a path, load, reload, unload),
//!   as transitions that the caller drives with the bytes it reads.
//!
//! The walk keeps the nodes still to visit on a stack of its own. Decoding,
//! encoding, equality and the identity key recurse once per level of nesting
//! in the input.

pub mod codec;
pub mod digest;
pub mod identity;
pub mod slot;
pub mod value;
pub mod walk;
