//! The library's error type.
use vstd::prelude::*;

verus! {

/// Errors raised by the library. Each variant carries a human-readable message.
#[derive(Debug)]
pub enum ReasonableError {
    /// A term or triple was malformed for the operation requested.
    ManagerError(String),
    /// Reading or writing a file failed.
    IO(String),
    /// A string was not a valid IRI.
    IriParse(String),
    /// A string was not a valid blank node identifier.
    BNodeParse(String),
    /// A Turtle or N-Triples document could not be parsed.
    Turtle(String),
    /// A channel was closed while receiving.
    ChannelRecv(String),
}

} // verus!
