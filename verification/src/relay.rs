//! Payload relay: substitutes a staging-file pointer for a raw frame.

use crate::protocol::{Message, MessageModel};
use vstd::prelude::*;

verus! {

/// Error for a staging write that could not complete; the broadcast cycle it
/// belongs to is abandoned for every client.
#[derive(Clone, Copy, Debug, PartialEq, Eq, Structural)]
pub struct StagingWriteError;

/// The fixed staging path, as a sequence of characters.
pub open spec fn spec_staging_path() -> Seq<char> {
    "/dev/shm/blender_bevy_frame"@
}

/// The well-known host-local path the payload bytes are staged at.
pub fn staging_path() -> (r: &'static str)
    ensures
        r@ == spec_staging_path(),
{
    "/dev/shm/blender_bevy_frame"
}

/// Outcome of relaying one payload, given whether the staging write that the
/// caller performed beforehand completed.
pub open spec fn spec_relay(write_ok: bool) -> Result<MessageModel, StagingWriteError> {
    if write_ok {
        Result::Ok(MessageModel::DataLocation(spec_staging_path()))
    } else {
        Result::Err(StagingWriteError)
    }
}

/// Converts a completed staging write into the pointer message that stands in
/// for the payload on the wire, and a failed one into [`StagingWriteError`].
///
/// The caller must have fully overwritten the staging file with the payload
/// before it reports `write_ok`, so that a client that receives the pointer
/// and immediately reads the path observes the new content.
pub fn relay(write_ok: bool) -> (r: Result<Message, StagingWriteError>)
    ensures
        match r {
            Result::Ok(m) => spec_relay(write_ok) == Result::<MessageModel, StagingWriteError>::Ok(
                m@,
            ),
            Result::Err(e) => spec_relay(write_ok) == Result::<
                MessageModel,
                StagingWriteError,
            >::Err(e),
        },
{
    if write_ok {
        Result::Ok(Message::DataLocation(staging_path().to_owned()))
    } else {
        Result::Err(StagingWriteError)
    }
}

} // verus!
