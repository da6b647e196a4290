//! One request-response turn: decode a frame from the connection
//! buffer, run it against the store, and encode the reply. The
//! surrounding I/O loop feeds bytes in and carries the answer out.

use vstd::prelude::*;
use crate::DecodeError;
use crate::model::{spec_decode, encode_spec};
use crate::resp::Value;
use crate::command::{dispatch, spec_dispatch};
use crate::store::Store;

verus! {

/// What the connection loop should do after offering its buffer.
pub enum Step {
    /// Send these bytes back and drop this many consumed bytes from
    /// the front of the buffer.
    Respond(Vec<u8>, usize),
    /// The buffer holds only part of a frame: read more, then retry.
    NeedMore,
    /// The buffer is malformed beyond recovery: close the connection.
    Close,
}

/// Runs one request cycle on the leading frame of `buffer`: the
/// response bytes and consumed count on a complete frame, `NeedMore`
/// on a partial one, `Close` on a malformed one. The store changes
/// exactly as the decoded command demands, and not at all otherwise.
pub fn process(buffer: &Vec<u8>, store: &mut Store) -> (r: Step)
    requires
        old(store).wf(),
    ensures
        final(store).wf(),
        match spec_decode(buffer@) {
            Ok(t) => r is Respond && r->Respond_0@ == encode_spec(
                spec_dispatch(t.0, old(store)@).0,
            ) && r->Respond_1 == t.1 && final(store)@ == spec_dispatch(t.0, old(store)@).1,
            Err(e) => final(store)@ == old(store)@ && r == (
            if e == DecodeError::Incomplete {
                Step::NeedMore
            } else {
                Step::Close
            }),
        },
{
    match crate::resp::decode(buffer) {
        Err(DecodeError::Incomplete) => Step::NeedMore,
        Err(_) => Step::Close,
        Ok((frame, consumed)) => {
            let resp = dispatch(frame, store);
            let bytes = resp.serialize();
            Step::Respond(bytes, consumed)
        },
    }
}

} // verus!
