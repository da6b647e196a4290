//! A verified core for a minimal RESP (Redis serialization protocol)
//! key-value server: frame model, streaming decoder, encoder, command
//! dispatch and an in-memory store.

use vstd::prelude::*;

pub mod model;
pub mod resp;
pub mod store;
pub mod command;
pub mod engine;
pub mod laws;

verus! {

/// Outcomes of trying to decode one frame from a byte buffer.
///
/// `Incomplete` is not a fault: the buffer merely does not yet hold a
/// whole frame and the caller should retry after reading more bytes.
/// Every other variant marks a structurally invalid frame.
#[derive(Clone, Copy, Debug, PartialEq, Eq, Structural)]
pub enum DecodeError {
    /// Not enough bytes yet; retry once more input has arrived.
    Incomplete,
    /// The first byte is not one of the known type prefixes.
    UnknownType,
    /// A length, count or integer line is not a valid base-10 integer
    /// in the `i64` range.
    InvalidInteger,
    /// A bulk string payload is not terminated by CRLF where declared.
    MalformedBulkString,
    /// Array nesting or element count exceeds the configured limits.
    LimitExceeded,
}

} // verus!

verus! {

/// Byte-wise equality of two byte vectors.
pub(crate) fn bytes_eq(a: &Vec<u8>, b: &Vec<u8>) -> (r: bool)
    ensures
        r <==> a@ == b@,
{
    if a.len() != b.len() {
        proof {
            assert(a@ != b@);
        }
        return false;
    }
    let mut i: usize = 0;
    while i < a.len()
        invariant
            i <= a.len(),
            a@.len() == b@.len(),
            forall|q: int| 0 <= q < i ==> a@[q] == b@[q],
        decreases a.len() - i,
    {
        if a[i] != b[i] {
            proof {
                assert(a@[i as int] != b@[i as int]);
            }
            return false;
        }
        i = i + 1;
    }
    proof {
        assert(a@ =~= b@);
    }
    true
}

} // verus!
