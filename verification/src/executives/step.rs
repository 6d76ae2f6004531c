//! What a step comes to, and the frame of the continuation that took it.

use crate::executives::lane;
use crate::executives::lane::LaneView;
use crate::kernel;
use crate::kernel::{Call, Kernel, Ref64, RuntimeError};
use vstd::prelude::*;

verus! {

/// What a continuation does next.
#[derive(Clone, Copy, Debug, PartialEq, Eq, Structural)]
pub enum StepResult {
    /// Run again, as this run class.
    Yield { next: u32 },
    /// Wait for something, then run as this run class.
    Await { on: Ref64, next: u32 },
    /// Children were started.
    Spawn { process: Ref64, run_class: u32 },
    Fault { process: Ref64, run_class: u32 },
    Complete,
}

/// The calls that replace the frame, and nothing where there is none. `held`
/// is what the frame held.
pub open spec fn store_calls(
    frame: Ref64,
    actor: Ref64,
    content: Seq<u8>,
    held: Result<Seq<u8>, RuntimeError>,
) -> Seq<Call> {
    if frame.raw == 0 {
        Seq::empty()
    } else {
        lane::edit_calls(
            actor,
            frame,
            true,
            match held {
                Ok(held) => Ok((held, content)),
                Err(error) => Err(error),
            },
        )
    }
}

/// Replaces the bytes of the lane's frame.
pub fn store_bytes<K: Kernel>(lane: &mut LaneView<K>, actor: Ref64, content: Vec<u8>)
    ensures
        exists|held: Result<Seq<u8>, RuntimeError>|
            final(lane).log() == old(lane).log() + #[trigger] store_calls(
                old(lane).frame,
                actor,
                content@,
                held,
            ),
        final(lane).same_place(old(lane)),
{
    let frame: Ref64 = lane.frame();
    let ghost before = lane.log();
    let ghost mut held: Result<Seq<u8>, RuntimeError> = Err(RuntimeError::Unavailable);
    if frame.is_null() {
        assert(before =~= before + store_calls(frame, actor, content@, held));
        return;
    }
    match lane.host_payload_mut(actor, frame) {
        Ok(buffer) => {
            proof {
                held = Ok(buffer@);
            }
            *buffer = content;
        },
        Err(error) => {
            proof {
                held = Err(error);
            }
        },
    }
    assert(lane.log() == before + store_calls(frame, actor, content@, held));
}

/// The bytes of the lane's frame: none where they cannot be read.
pub fn frame_bytes<K: Kernel>(lane: &mut LaneView<K>, actor: Ref64) -> (reply: Result<
    Vec<u8>,
    RuntimeError,
>)
    ensures
        final(lane).log() == old(lane).log() + lane::read_calls(
            actor,
            old(lane).frame,
            kernel::replied_bytes(reply),
        ),
        final(lane).same_place(old(lane)),
{
    let frame: Ref64 = lane.frame();
    lane.object_bytes(actor, frame)
}

} // verus!
