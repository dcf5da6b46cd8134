//! Compile-time limits of the socket.

use vstd::prelude::*;

verus! {

/// Bytes that a query keeps for its name, in wire format.
pub const DNS_MAX_NAME_SIZE: usize = 255;

/// Results that a finished query keeps.
pub const DNS_MAX_RESULT_COUNT: usize = 1;

/// Servers that a socket keeps.
pub const DNS_MAX_SERVER_COUNT: usize = 1;

/// Bytes of text that the target of an SRV answer may take.
pub const DNS_MAX_TARGET_SIZE: usize = 253;

} // verus!
