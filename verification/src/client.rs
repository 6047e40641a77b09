//! Client-side application of server messages to the local chunk copy.

use vstd::prelude::*;

use crate::directory::{all_dirty, spec_set_block, ChunkCollection, DirEntryView};
use crate::protocol::ServerMessage;

verus! {

/// Applies one server message to the local chunk directory: chunk loads,
/// unloads and block updates change it; `Pong`, `SetClientInfo` and
/// `Disconnect` carry no world data and leave it untouched.
pub fn apply_server_message(chunks: &mut ChunkCollection, msg: ServerMessage)
    requires
        old(chunks).wf(),
        msg.wf(),
    ensures
        final(chunks).wf(),
        match msg {
            ServerMessage::LoadChunk { cx, cz, chunk } => final(chunks)@ == old(chunks)@.insert(
                (cx, cz),
                DirEntryView { blocks: chunk@, dirty: all_dirty() },
            ),
            ServerMessage::UnloadChunk { cx, cz } => final(chunks)@ == old(chunks)@.remove(
                (cx, cz),
            ),
            ServerMessage::UpdateBlock { x, y, z, block } => final(chunks)@ == spec_set_block(
                old(chunks)@,
                x,
                y,
                z,
                block,
            ),
            _ => final(chunks)@ == old(chunks)@,
        },
{
    match msg {
        ServerMessage::LoadChunk { cx, cz, chunk } => chunks.load_chunk((cx, cz), chunk),
        ServerMessage::UnloadChunk { cx, cz } => chunks.unload_chunk((cx, cz)),
        ServerMessage::UpdateBlock { x, y, z, block } => chunks.set_block((x, y, z), block),
        _ => {},
    }
}

} // verus!
