use vstd::prelude::*;

pub mod directive;
pub mod runestone;
pub mod script;
pub mod varint;

pub use crate::directive::Directive;
pub use crate::runestone::Runestone;

verus! {

/// The ways deciphering a transaction can fail.
///
/// Absence of a protocol payload is not a failure: `Runestone::decipher`
/// reports it as `Ok(None)`.
#[derive(Debug, PartialEq)]
pub enum Error {
    /// An output's script is malformed and could not be tokenized.
    Script(bitcoin::script::Error),
    /// A non-push opcode (given by its byte) appeared among the payload
    /// tokens after a recognized marker.
    Opcode(u8),
    /// A decoded integer would exceed the 128-bit domain.
    Varint,
    /// The payload ended in the middle of a varint, before its final group.
    Truncated,
}

} // verus!
