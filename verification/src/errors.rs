//! The crate-wide error type.

use vstd::prelude::*;

use crate::config;
use crate::poly::variant;
use crate::trace;
use crate::transcript;

verus! {

#[derive(Clone, Copy, Debug)]
pub enum Error {
    /// A protocol-level rule was broken.
    Protocol { protocol: &'static str, message: &'static str },
    /// A trace was used against its layout.
    Trace(trace::Error),
    /// A configuration is too weak or malformed.
    Config(config::Error),
    /// A polynomial was evaluated against its shape.
    Poly(variant::Error),
    /// A challenge could not be drawn.
    Transcript(transcript::Error),
}

impl Error {
    /// `self` is the protocol error with exactly these texts.
    pub open spec fn is_protocol(self, protocol: Seq<char>, message: Seq<char>) -> bool {
        match self {
            Error::Protocol { protocol: p, message: m } => p@ == protocol && m@ == message,
            _ => false,
        }
    }
}

} // verus!
