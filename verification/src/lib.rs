//! Binary deltas between two byte buffers, in the style of rsync.
//!
//! A patch is a flat sequence of literal and copy records. The encoder matches
//! block-sized windows of the new buffer against the blocks of the old one, by
//! a weak rolling checksum first and a SHA-256 digest second; the decoder
//! replays the records against the old buffer.
//!
//! The contracts speak of bytes as `Seq<u8>` and of a patch as a sequence of
//! [`wire::Instruction`]s. SHA-256 itself is not modelled: [`digest::sha256`]
//! names what the `sha2` crate computes, and what is proved holds whatever
//! that is.

pub mod decode;
pub mod digest;
pub mod encode;
pub mod error;
pub mod laws;
pub mod matching;
pub mod rolling;
pub mod signature;
pub mod wire;

pub use decode::apply_patch_bytes;
pub use encode::create_patch_bytes;
pub use error::{Fault, XDeltaError};
pub use rolling::Rolling;
pub use signature::{build_signatures, SigEntry};
