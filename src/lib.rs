//! A storage node's chunk store: the composite key scheme, the envelope that
//! wraps each stored payload, the write plan and the assembly of a file's
//! chunks from an ordered prefix scan.
pub mod codec;
pub mod engine;
pub mod keys;
pub mod laws;
