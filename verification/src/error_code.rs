use vstd::prelude::*;

verus! {

/// The code of an error that fits no other code.
pub const GENERIC_ERROR: u16 = 201;

/// The code of an error on the side of the node that answers.
pub const SERVER_ERROR: u16 = 202;

/// The code of a malformed packet, an invalid argument or a bad token.
pub const PROTOCOL_ERROR: u16 = 203;

/// The code of a request of a kind that the node does not know.
pub const METHOD_UNKNOWN: u16 = 204;

} // verus!
