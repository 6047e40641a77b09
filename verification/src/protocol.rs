//! The wire protocol: message schema, binary payload codec, and the
//! length-prefixed framing that delimits messages on the byte stream.
//!
//! Every payload is a 4-byte little-endian variant tag followed by the
//! variant's fields in declaration order: integers little-endian, the f32
//! pose components as their IEEE-754 bit patterns, a session id as 16
//! little-endian bytes, and a chunk as one byte per block.

use vstd::bytes::{
    lemma_auto_spec_u128_to_from_le_bytes, lemma_auto_spec_u32_to_from_le_bytes,
    lemma_auto_spec_u64_to_from_le_bytes, spec_u128_from_le_bytes, spec_u128_to_le_bytes,
    spec_u32_from_le_bytes, spec_u32_to_le_bytes, spec_u64_from_le_bytes, spec_u64_to_le_bytes,
    u128_from_le_bytes, u128_to_le_bytes, u32_from_le_bytes, u32_to_le_bytes, u64_from_le_bytes,
    u64_to_le_bytes,
};
use vstd::prelude::*;
use vstd::slice::{slice_subrange, slice_to_vec};

use crate::chunk::{BlockId, Chunk, SubChunk};

verus! {

/// A message from a client to the server. Pose components are IEEE-754 f32
/// bit patterns; the tick logic only stores and echoes them.
#[derive(Debug, Clone, Copy, PartialEq, Eq)]
pub enum ClientMessage {
    Ping,
    Login,
    SetPlayerPos { eye: (u32, u32, u32), pitch: u32, yaw: u32 },
    DestroyBlock { x: i64, y: i64, z: i64 },
    PlaceBlock { x: i64, y: i64, z: i64 },
}

/// A message from the server to a client.
#[derive(Debug, Clone, PartialEq, Eq)]
pub enum ServerMessage {
    Pong { data: i64 },
    LoadChunk { cx: i64, cz: i64, chunk: Chunk },
    UnloadChunk { cx: i64, cz: i64 },
    UpdateBlock { x: i64, y: i64, z: i64, block: BlockId },
    SetClientInfo { uuid: u128 },
    Disconnect,
}

/// Ghost image of a server message, with the chunk as its cell grid.
pub enum ServerMessageView {
    Pong { data: i64 },
    LoadChunk { cx: i64, cz: i64, chunk: Seq<Seq<BlockId>> },
    UnloadChunk { cx: i64, cz: i64 },
    UpdateBlock { x: i64, y: i64, z: i64, block: BlockId },
    SetClientInfo { uuid: u128 },
    Disconnect,
}

impl View for ServerMessage {
    type V = ServerMessageView;

    open spec fn view(&self) -> ServerMessageView {
        match self {
            ServerMessage::Pong { data } => ServerMessageView::Pong { data: *data },
            ServerMessage::LoadChunk { cx, cz, chunk } => ServerMessageView::LoadChunk {
                cx: *cx,
                cz: *cz,
                chunk: chunk@,
            },
            ServerMessage::UnloadChunk { cx, cz } => ServerMessageView::UnloadChunk {
                cx: *cx,
                cz: *cz,
            },
            ServerMessage::UpdateBlock { x, y, z, block } => ServerMessageView::UpdateBlock {
                x: *x,
                y: *y,
                z: *z,
                block: *block,
            },
            ServerMessage::SetClientInfo { uuid } => ServerMessageView::SetClientInfo {
                uuid: *uuid,
            },
            ServerMessage::Disconnect => ServerMessageView::Disconnect,
        }
    }
}

impl ServerMessage {
    pub open spec fn wf(self) -> bool {
        match self {
            ServerMessage::LoadChunk { chunk, .. } => chunk.wf(),
            _ => true,
        }
    }
}

/// Well-formedness of a server message image: a carried chunk has 16
/// subchunks of 4096 cells.
pub open spec fn view_wf(v: ServerMessageView) -> bool {
    match v {
        ServerMessageView::LoadChunk { chunk, .. } => chunk.len() == 16 && forall|i: int|
            0 <= i < 16 ==> (#[trigger] chunk[i]).len() == 4096,
        _ => true,
    }
}

/// A payload that does not decode as exactly one message.
#[derive(Debug, Clone, Copy, PartialEq, Eq, Structural)]
pub enum Error {
    Malformed,
}

pub open spec fn spec_block_byte(b: BlockId) -> u8 {
    match b {
        BlockId::Empty => 0,
        BlockId::Grass => 1,
    }
}

pub open spec fn spec_block_of_byte(v: u8) -> BlockId
    recommends
        v < 2,
{
    if v == 1 {
        BlockId::Grass
    } else {
        BlockId::Empty
    }
}

/// One byte per block, subchunk by subchunk, row-major within a subchunk.
pub open spec fn spec_chunk_bytes(c: Seq<Seq<BlockId>>) -> Seq<u8> {
    Seq::new(65536, |i: int| spec_block_byte(c[i / 4096][i % 4096]))
}

pub open spec fn valid_chunk_bytes(b: Seq<u8>) -> bool {
    forall|i: int| 0 <= i < b.len() ==> (#[trigger] b[i]) < 2
}

pub open spec fn spec_chunk_of_bytes(b: Seq<u8>) -> Seq<Seq<BlockId>>
    recommends
        b.len() == 65536,
        valid_chunk_bytes(b),
{
    Seq::new(16, |si: int| Seq::new(4096, |j: int| spec_block_of_byte(b[si * 4096 + j])))
}

pub open spec fn spec_i64_to_le_bytes(x: i64) -> Seq<u8> {
    spec_u64_to_le_bytes(x as u64)
}

pub open spec fn spec_i64_from_le_bytes(s: Seq<u8>) -> i64
    recommends
        s.len() == 8,
{
    spec_u64_from_le_bytes(s) as i64
}

/// The payload that encodes a client message.
pub open spec fn spec_encode_client(m: ClientMessage) -> Seq<u8> {
    match m {
        ClientMessage::Ping => spec_u32_to_le_bytes(0),
        ClientMessage::Login => spec_u32_to_le_bytes(1),
        ClientMessage::SetPlayerPos { eye, pitch, yaw } => spec_u32_to_le_bytes(2)
            + spec_u32_to_le_bytes(eye.0) + spec_u32_to_le_bytes(eye.1) + spec_u32_to_le_bytes(
            eye.2,
        ) + spec_u32_to_le_bytes(pitch) + spec_u32_to_le_bytes(yaw),
        ClientMessage::DestroyBlock { x, y, z } => spec_u32_to_le_bytes(3) + spec_i64_to_le_bytes(x)
            + spec_i64_to_le_bytes(y) + spec_i64_to_le_bytes(z),
        ClientMessage::PlaceBlock { x, y, z } => spec_u32_to_le_bytes(4) + spec_i64_to_le_bytes(x)
            + spec_i64_to_le_bytes(y) + spec_i64_to_le_bytes(z),
    }
}

/// The client message that a payload decodes to, if it is exactly one
/// well-formed message.
pub open spec fn spec_decode_client(b: Seq<u8>) -> Option<ClientMessage> {
    if b.len() < 4 {
        None
    } else {
        let tag = spec_u32_from_le_bytes(b.subrange(0, 4));
        let rest = b.skip(4);
        if tag == 0 {
            if rest.len() == 0 {
                Some(ClientMessage::Ping)
            } else {
                None
            }
        } else if tag == 1 {
            if rest.len() == 0 {
                Some(ClientMessage::Login)
            } else {
                None
            }
        } else if tag == 2 {
            if rest.len() == 20 {
                Some(
                    ClientMessage::SetPlayerPos {
                        eye: (
                            spec_u32_from_le_bytes(rest.subrange(0, 4)),
                            spec_u32_from_le_bytes(rest.subrange(4, 8)),
                            spec_u32_from_le_bytes(rest.subrange(8, 12)),
                        ),
                        pitch: spec_u32_from_le_bytes(rest.subrange(12, 16)),
                        yaw: spec_u32_from_le_bytes(rest.subrange(16, 20)),
                    },
                )
            } else {
                None
            }
        } else if tag == 3 {
            if rest.len() == 24 {
                Some(
                    ClientMessage::DestroyBlock {
                        x: spec_i64_from_le_bytes(rest.subrange(0, 8)),
                        y: spec_i64_from_le_bytes(rest.subrange(8, 16)),
                        z: spec_i64_from_le_bytes(rest.subrange(16, 24)),
                    },
                )
            } else {
                None
            }
        } else if tag == 4 {
            if rest.len() == 24 {
                Some(
                    ClientMessage::PlaceBlock {
                        x: spec_i64_from_le_bytes(rest.subrange(0, 8)),
                        y: spec_i64_from_le_bytes(rest.subrange(8, 16)),
                        z: spec_i64_from_le_bytes(rest.subrange(16, 24)),
                    },
                )
            } else {
                None
            }
        } else {
            None
        }
    }
}

proof fn lemma_i64_round_trip(x: i64)
    ensures
        spec_i64_from_le_bytes(spec_i64_to_le_bytes(x)) == x,
        spec_i64_to_le_bytes(x).len() == 8,
{
    lemma_auto_spec_u64_to_from_le_bytes();
    assert((x as u64) as i64 == x) by (bit_vector);
}

/// Decoding an encoded client message gives the message back, for every
/// variant and every field value.
pub proof fn lemma_client_message_round_trip(m: ClientMessage)
    ensures
        spec_decode_client(spec_encode_client(m)) == Some(m),
{
    lemma_auto_spec_u32_to_from_le_bytes();
    let b = spec_encode_client(m);
    match m {
        ClientMessage::Ping => {
            assert(b.subrange(0, 4) =~= spec_u32_to_le_bytes(0));
            assert(b.skip(4).len() == 0);
        },
        ClientMessage::Login => {
            assert(b.subrange(0, 4) =~= spec_u32_to_le_bytes(1));
            assert(b.skip(4).len() == 0);
        },
        ClientMessage::SetPlayerPos { eye, pitch, yaw } => {
            assert(b.subrange(0, 4) =~= spec_u32_to_le_bytes(2));
            let rest = b.skip(4);
            assert(rest.subrange(0, 4) =~= spec_u32_to_le_bytes(eye.0));
            assert(rest.subrange(4, 8) =~= spec_u32_to_le_bytes(eye.1));
            assert(rest.subrange(8, 12) =~= spec_u32_to_le_bytes(eye.2));
            assert(rest.subrange(12, 16) =~= spec_u32_to_le_bytes(pitch));
            assert(rest.subrange(16, 20) =~= spec_u32_to_le_bytes(yaw));
        },
        ClientMessage::DestroyBlock { x, y, z } => {
            lemma_i64_round_trip(x);
            lemma_i64_round_trip(y);
            lemma_i64_round_trip(z);
            assert(b.subrange(0, 4) =~= spec_u32_to_le_bytes(3));
            let rest = b.skip(4);
            assert(rest.subrange(0, 8) =~= spec_i64_to_le_bytes(x));
            assert(rest.subrange(8, 16) =~= spec_i64_to_le_bytes(y));
            assert(rest.subrange(16, 24) =~= spec_i64_to_le_bytes(z));
        },
        ClientMessage::PlaceBlock { x, y, z } => {
            lemma_i64_round_trip(x);
            lemma_i64_round_trip(y);
            lemma_i64_round_trip(z);
            assert(b.subrange(0, 4) =~= spec_u32_to_le_bytes(4));
            let rest = b.skip(4);
            assert(rest.subrange(0, 8) =~= spec_i64_to_le_bytes(x));
            assert(rest.subrange(8, 16) =~= spec_i64_to_le_bytes(y));
            assert(rest.subrange(16, 24) =~= spec_i64_to_le_bytes(z));
        },
    }
}

fn push_u32_le(out: &mut Vec<u8>, x: u32)
    ensures
        final(out)@ == old(out)@ + spec_u32_to_le_bytes(x),
{
    let mut b = u32_to_le_bytes(x);
    out.append(&mut b);
}

fn push_i64_le(out: &mut Vec<u8>, x: i64)
    ensures
        final(out)@ == old(out)@ + spec_i64_to_le_bytes(x),
{
    let mut b = u64_to_le_bytes(x as u64);
    out.append(&mut b);
}

fn read_u32_le(bytes: &[u8], at: usize) -> (r: u32)
    requires
        at + 4 <= bytes@.len(),
    ensures
        r == spec_u32_from_le_bytes(bytes@.subrange(at as int, at as int + 4)),
{
    let n = bytes.len();
    u32_from_le_bytes(slice_subrange(bytes, at, at + 4))
}

fn read_i64_le(bytes: &[u8], at: usize) -> (r: i64)
    requires
        at + 8 <= bytes@.len(),
    ensures
        r == spec_i64_from_le_bytes(bytes@.subrange(at as int, at as int + 8)),
{
    let n = bytes.len();
    let u = u64_from_le_bytes(slice_subrange(bytes, at, at + 8));
    #[verifier::truncate] (u as i64)
}

impl ClientMessage {
    /// Encodes this message; always succeeds.
    pub fn serialize(&self) -> (r: Result<Vec<u8>, Error>)
        ensures
            r matches Ok(v) && v@ == spec_encode_client(*self),
    {
        let mut out: Vec<u8> = Vec::new();
        match self {
            ClientMessage::Ping => {
                push_u32_le(&mut out, 0);
            },
            ClientMessage::Login => {
                push_u32_le(&mut out, 1);
            },
            ClientMessage::SetPlayerPos { eye, pitch, yaw } => {
                push_u32_le(&mut out, 2);
                push_u32_le(&mut out, eye.0);
                push_u32_le(&mut out, eye.1);
                push_u32_le(&mut out, eye.2);
                push_u32_le(&mut out, *pitch);
                push_u32_le(&mut out, *yaw);
            },
            ClientMessage::DestroyBlock { x, y, z } => {
                push_u32_le(&mut out, 3);
                push_i64_le(&mut out, *x);
                push_i64_le(&mut out, *y);
                push_i64_le(&mut out, *z);
            },
            ClientMessage::PlaceBlock { x, y, z } => {
                push_u32_le(&mut out, 4);
                push_i64_le(&mut out, *x);
                push_i64_le(&mut out, *y);
                push_i64_le(&mut out, *z);
            },
        }
        proof {
            assert(out@ =~= spec_encode_client(*self));
        }
        Ok(out)
    }

    /// Decodes one payload; fails unless it is exactly one message.
    pub fn deserialize(bytes: &[u8]) -> (r: Result<ClientMessage, Error>)
        ensures
            match spec_decode_client(bytes@) {
                Some(m) => r matches Ok(got) && got == m,
                None => r is Err,
            },
    {
        if bytes.len() < 4 {
            return Err(Error::Malformed);
        }
        let tag = read_u32_le(bytes, 0);
        let n = bytes.len();
        proof {
            assert(bytes@.skip(4).len() == n - 4);
            assert forall|a: int, b2: int| 4 <= a <= b2 <= n implies #[trigger] bytes@.subrange(
                a,
                b2,
            ) =~= bytes@.skip(4).subrange(a - 4, b2 - 4) by {}
        }
        if tag == 0 {
            if n == 4 {
                Ok(ClientMessage::Ping)
            } else {
                Err(Error::Malformed)
            }
        } else if tag == 1 {
            if n == 4 {
                Ok(ClientMessage::Login)
            } else {
                Err(Error::Malformed)
            }
        } else if tag == 2 {
            if n == 24 {
                Ok(
                    ClientMessage::SetPlayerPos {
                        eye: (read_u32_le(bytes, 4), read_u32_le(bytes, 8), read_u32_le(bytes, 12)),
                        pitch: read_u32_le(bytes, 16),
                        yaw: read_u32_le(bytes, 20),
                    },
                )
            } else {
                Err(Error::Malformed)
            }
        } else if tag == 3 {
            if n == 28 {
                Ok(
                    ClientMessage::DestroyBlock {
                        x: read_i64_le(bytes, 4),
                        y: read_i64_le(bytes, 12),
                        z: read_i64_le(bytes, 20),
                    },
                )
            } else {
                Err(Error::Malformed)
            }
        } else if tag == 4 {
            if n == 28 {
                Ok(
                    ClientMessage::PlaceBlock {
                        x: read_i64_le(bytes, 4),
                        y: read_i64_le(bytes, 12),
                        z: read_i64_le(bytes, 20),
                    },
                )
            } else {
                Err(Error::Malformed)
            }
        } else {
            Err(Error::Malformed)
        }
    }
}

/// The payload that encodes a server message image.
pub open spec fn spec_encode_server(v: ServerMessageView) -> Seq<u8> {
    match v {
        ServerMessageView::Pong { data } => spec_u32_to_le_bytes(0) + spec_i64_to_le_bytes(data),
        ServerMessageView::LoadChunk { cx, cz, chunk } => spec_u32_to_le_bytes(1)
            + spec_i64_to_le_bytes(cx) + spec_i64_to_le_bytes(cz) + spec_chunk_bytes(chunk),
        ServerMessageView::UnloadChunk { cx, cz } => spec_u32_to_le_bytes(2) + spec_i64_to_le_bytes(
            cx,
        ) + spec_i64_to_le_bytes(cz),
        ServerMessageView::UpdateBlock { x, y, z, block } => spec_u32_to_le_bytes(3)
            + spec_i64_to_le_bytes(x) + spec_i64_to_le_bytes(y) + spec_i64_to_le_bytes(z) + seq![
            spec_block_byte(block),
        ],
        ServerMessageView::SetClientInfo { uuid } => spec_u32_to_le_bytes(4)
            + spec_u128_to_le_bytes(uuid),
        ServerMessageView::Disconnect => spec_u32_to_le_bytes(5),
    }
}

/// The server message image that a payload decodes to, if it is exactly one
/// well-formed message.
pub open spec fn spec_decode_server(b: Seq<u8>) -> Option<ServerMessageView> {
    if b.len() < 4 {
        None
    } else {
        let tag = spec_u32_from_le_bytes(b.subrange(0, 4));
        let rest = b.skip(4);
        if tag == 0 {
            if rest.len() == 8 {
                Some(ServerMessageView::Pong { data: spec_i64_from_le_bytes(rest.subrange(0, 8)) })
            } else {
                None
            }
        } else if tag == 1 {
            if rest.len() == 16 + 65536 && valid_chunk_bytes(rest.skip(16)) {
                Some(
                    ServerMessageView::LoadChunk {
                        cx: spec_i64_from_le_bytes(rest.subrange(0, 8)),
                        cz: spec_i64_from_le_bytes(rest.subrange(8, 16)),
                        chunk: spec_chunk_of_bytes(rest.skip(16)),
                    },
                )
            } else {
                None
            }
        } else if tag == 2 {
            if rest.len() == 16 {
                Some(
                    ServerMessageView::UnloadChunk {
                        cx: spec_i64_from_le_bytes(rest.subrange(0, 8)),
                        cz: spec_i64_from_le_bytes(rest.subrange(8, 16)),
                    },
                )
            } else {
                None
            }
        } else if tag == 3 {
            if rest.len() == 25 && rest[24] < 2 {
                Some(
                    ServerMessageView::UpdateBlock {
                        x: spec_i64_from_le_bytes(rest.subrange(0, 8)),
                        y: spec_i64_from_le_bytes(rest.subrange(8, 16)),
                        z: spec_i64_from_le_bytes(rest.subrange(16, 24)),
                        block: spec_block_of_byte(rest[24]),
                    },
                )
            } else {
                None
            }
        } else if tag == 4 {
            if rest.len() == 16 {
                Some(
                    ServerMessageView::SetClientInfo {
                        uuid: spec_u128_from_le_bytes(rest.subrange(0, 16)),
                    },
                )
            } else {
                None
            }
        } else if tag == 5 {
            if rest.len() == 0 {
                Some(ServerMessageView::Disconnect)
            } else {
                None
            }
        } else {
            None
        }
    }
}

/// Turning a cell grid into bytes and back reproduces the grid.
proof fn lemma_chunk_bytes_round_trip(c: Seq<Seq<BlockId>>)
    requires
        c.len() == 16,
        forall|i: int| 0 <= i < 16 ==> (#[trigger] c[i]).len() == 4096,
    ensures
        spec_chunk_bytes(c).len() == 65536,
        valid_chunk_bytes(spec_chunk_bytes(c)),
        spec_chunk_of_bytes(spec_chunk_bytes(c)) == c,
{
    let b = spec_chunk_bytes(c);
    assert forall|i: int| 0 <= i < b.len() implies (#[trigger] b[i]) < 2 by {
        assert(b[i] == spec_block_byte(c[i / 4096][i % 4096]));
    }
    let c2 = spec_chunk_of_bytes(b);
    assert forall|si: int| 0 <= si < 16 implies #[trigger] c2[si] == c[si] by {
        assert forall|j: int| 0 <= j < 4096 implies #[trigger] c2[si][j] == c[si][j] by {
            let idx = si * 4096 + j;
            assert(idx / 4096 == si && idx % 4096 == j) by (nonlinear_arith)
                requires
                    0 <= si < 16,
                    0 <= j < 4096,
                    idx == si * 4096 + j,
            ;
            assert(b[idx] == spec_block_byte(c[si][j]));
        }
        assert(c2[si] =~= c[si]);
    }
    assert(c2 =~= c);
}

/// Decoding an encoded server message gives the message back, for every
/// variant and every well-formed field value.
pub proof fn lemma_server_message_round_trip(v: ServerMessageView)
    requires
        view_wf(v),
    ensures
        spec_decode_server(spec_encode_server(v)) == Some(v),
{
    lemma_auto_spec_u32_to_from_le_bytes();
    lemma_auto_spec_u128_to_from_le_bytes();
    let b = spec_encode_server(v);
    match v {
        ServerMessageView::Pong { data } => {
            lemma_i64_round_trip(data);
            assert(b.subrange(0, 4) =~= spec_u32_to_le_bytes(0));
            assert(b.skip(4).subrange(0, 8) =~= spec_i64_to_le_bytes(data));
        },
        ServerMessageView::LoadChunk { cx, cz, chunk } => {
            lemma_i64_round_trip(cx);
            lemma_i64_round_trip(cz);
            lemma_chunk_bytes_round_trip(chunk);
            assert(b.subrange(0, 4) =~= spec_u32_to_le_bytes(1));
            let rest = b.skip(4);
            assert(rest.len() == 16 + 65536);
            assert(rest.subrange(0, 8) =~= spec_i64_to_le_bytes(cx));
            assert(rest.subrange(8, 16) =~= spec_i64_to_le_bytes(cz));
            assert(rest.skip(16) =~= spec_chunk_bytes(chunk));
        },
        ServerMessageView::UnloadChunk { cx, cz } => {
            lemma_i64_round_trip(cx);
            lemma_i64_round_trip(cz);
            assert(b.subrange(0, 4) =~= spec_u32_to_le_bytes(2));
            let rest = b.skip(4);
            assert(rest.subrange(0, 8) =~= spec_i64_to_le_bytes(cx));
            assert(rest.subrange(8, 16) =~= spec_i64_to_le_bytes(cz));
        },
        ServerMessageView::UpdateBlock { x, y, z, block } => {
            lemma_i64_round_trip(x);
            lemma_i64_round_trip(y);
            lemma_i64_round_trip(z);
            assert(b.subrange(0, 4) =~= spec_u32_to_le_bytes(3));
            let rest = b.skip(4);
            assert(rest.len() == 25);
            assert(rest.subrange(0, 8) =~= spec_i64_to_le_bytes(x));
            assert(rest.subrange(8, 16) =~= spec_i64_to_le_bytes(y));
            assert(rest.subrange(16, 24) =~= spec_i64_to_le_bytes(z));
            assert(rest[24] == spec_block_byte(block));
            assert(spec_block_of_byte(spec_block_byte(block)) == block);
        },
        ServerMessageView::SetClientInfo { uuid } => {
            assert(b.subrange(0, 4) =~= spec_u32_to_le_bytes(4));
            assert(b.skip(4).subrange(0, 16) =~= spec_u128_to_le_bytes(uuid));
        },
        ServerMessageView::Disconnect => {
            assert(b.subrange(0, 4) =~= spec_u32_to_le_bytes(5));
            assert(b.skip(4).len() == 0);
        },
    }
}

fn push_chunk_bytes(out: &mut Vec<u8>, chunk: &Chunk)
    requires
        chunk.wf(),
    ensures
        final(out)@ == old(out)@ + spec_chunk_bytes(chunk@),
{
    let ghost base = out@.len() as int;
    let mut si: usize = 0;
    while si < 16
        invariant
            chunk.wf(),
            base == old(out)@.len(),
            si <= 16,
            out@.len() == base + si * 4096,
            forall|i: int| 0 <= i < base ==> #[trigger] out@[i] == old(out)@[i],
            forall|i: int|
                0 <= i < si * 4096 ==> #[trigger] out@[base + i] == spec_chunk_bytes(chunk@)[i],
        decreases 16 - si,
    {
        let mut j: usize = 0;
        while j < 4096
            invariant
                chunk.wf(),
                base == old(out)@.len(),
                si < 16,
                j <= 4096,
                out@.len() == base + si * 4096 + j,
                forall|i: int| 0 <= i < base ==> #[trigger] out@[i] == old(out)@[i],
                forall|i: int|
                    0 <= i < si * 4096 + j ==> #[trigger] out@[base + i] == spec_chunk_bytes(
                        chunk@,
                    )[i],
            decreases 4096 - j,
        {
            let b = chunk.subchunks[si].blocks[j];
            let byte: u8 = match b {
                BlockId::Empty => 0,
                BlockId::Grass => 1,
            };
            out.push(byte);
            proof {
                let idx = si * 4096 + j;
                assert(idx / 4096 == si as int && idx % 4096 == j as int) by (nonlinear_arith)
                    requires
                        0 <= si < 16,
                        0 <= j < 4096,
                        idx == si * 4096 + j,
                ;
                assert(chunk@[si as int] == chunk.subchunks@[si as int].blocks@);
                assert(out@[base + idx] == spec_chunk_bytes(chunk@)[idx]);
            }
            j = j + 1;
        }
        si = si + 1;
    }
    proof {
        assert forall|k: int| 0 <= k < base + 65536 implies out@[k] == (old(out)@
            + spec_chunk_bytes(chunk@))[k] by {
            if k >= base {
                let i = k - base;
                assert(out@[base + i] == spec_chunk_bytes(chunk@)[i]);
            }
        }
        assert(out@ =~= old(out)@ + spec_chunk_bytes(chunk@));
    }
}

fn read_chunk(bytes: &[u8], at: usize) -> (r: Result<Chunk, Error>)
    requires
        at + 65536 <= bytes@.len(),
    ensures
        ({
            let bs = bytes@.subrange(at as int, at as int + 65536);
            if valid_chunk_bytes(bs) {
                r matches Ok(c) && c.wf() && c@ == spec_chunk_of_bytes(bs)
            } else {
                r is Err
            }
        }),
{
    let n = bytes.len();
    let ghost bs = bytes@.subrange(at as int, at as int + 65536);
    let mut subchunks: Vec<SubChunk> = Vec::new();
    let mut si: usize = 0;
    while si < 16
        invariant
            n == bytes@.len(),
            at + 65536 <= n,
            bs == bytes@.subrange(at as int, at as int + 65536),
            si <= 16,
            subchunks.len() == si,
            forall|s2: int| 0 <= s2 < si ==> (#[trigger] subchunks@[s2]).wf(),
            forall|s2: int, j: int|
                0 <= s2 < si && 0 <= j < 4096 ==> #[trigger] subchunks@[s2].blocks@[j]
                    == spec_block_of_byte(bs[s2 * 4096 + j]) && bs[s2 * 4096 + j] < 2,
        decreases 16 - si,
    {
        let mut blocks: Vec<BlockId> = Vec::new();
        let mut j: usize = 0;
        while j < 4096
            invariant
                n == bytes@.len(),
                at + 65536 <= n,
                bs == bytes@.subrange(at as int, at as int + 65536),
                si < 16,
                j <= 4096,
                blocks.len() == j,
                forall|i: int|
                    0 <= i < j ==> #[trigger] blocks@[i] == spec_block_of_byte(bs[si * 4096 + i])
                        && bs[si * 4096 + i] < 2,
            decreases 4096 - j,
        {
            proof {
                assert(si * 4096 + j < 65536);
                assert(bs[si * 4096 + j] == bytes@[at + si * 4096 + j]);
            }
            let byte = *vstd::slice::slice_index_get(bytes, at + si * 4096 + j);
            if byte >= 2 {
                proof {
                    assert(!valid_chunk_bytes(bs));
                }
                return Err(Error::Malformed);
            }
            if byte == 0 {
                blocks.push(BlockId::Empty);
            } else {
                blocks.push(BlockId::Grass);
            }
            j = j + 1;
        }
        subchunks.push(SubChunk { blocks });
        si = si + 1;
    }
    let c = Chunk { subchunks };
    proof {
        assert forall|i: int| 0 <= i < bs.len() implies (#[trigger] bs[i]) < 2 by {
            let s2 = i / 4096;
            let j = i % 4096;
            assert(0 <= s2 < 16 && 0 <= j < 4096 && i == s2 * 4096 + j) by (nonlinear_arith)
                requires
                    0 <= i < 65536,
                    s2 == i / 4096,
                    j == i % 4096,
            ;
            assert(subchunks@[s2].blocks@[j] == spec_block_of_byte(bs[s2 * 4096 + j]));
        }
        assert forall|s2: int| 0 <= s2 < 16 implies #[trigger] c@[s2] == spec_chunk_of_bytes(
            bs,
        )[s2] by {
            assert(c@[s2] == subchunks@[s2].blocks@);
            assert forall|j: int| 0 <= j < 4096 implies #[trigger] subchunks@[s2].blocks@[j]
                == spec_chunk_of_bytes(bs)[s2][j] by {}
            assert(c@[s2] =~= spec_chunk_of_bytes(bs)[s2]);
        }
        assert(c@ =~= spec_chunk_of_bytes(bs));
    }
    Ok(c)
}

impl ServerMessage {
    /// Encodes this message; always succeeds on a well-formed message.
    pub fn serialize(&self) -> (r: Result<Vec<u8>, Error>)
        requires
            self.wf(),
        ensures
            r matches Ok(v) && v@ == spec_encode_server(self@),
    {
        let mut out: Vec<u8> = Vec::new();
        match self {
            ServerMessage::Pong { data } => {
                push_u32_le(&mut out, 0);
                push_i64_le(&mut out, *data);
            },
            ServerMessage::LoadChunk { cx, cz, chunk } => {
                push_u32_le(&mut out, 1);
                push_i64_le(&mut out, *cx);
                push_i64_le(&mut out, *cz);
                push_chunk_bytes(&mut out, chunk);
            },
            ServerMessage::UnloadChunk { cx, cz } => {
                push_u32_le(&mut out, 2);
                push_i64_le(&mut out, *cx);
                push_i64_le(&mut out, *cz);
            },
            ServerMessage::UpdateBlock { x, y, z, block } => {
                push_u32_le(&mut out, 3);
                push_i64_le(&mut out, *x);
                push_i64_le(&mut out, *y);
                push_i64_le(&mut out, *z);
                let byte: u8 = match block {
                    BlockId::Empty => 0,
                    BlockId::Grass => 1,
                };
                out.push(byte);
            },
            ServerMessage::SetClientInfo { uuid } => {
                push_u32_le(&mut out, 4);
                let mut b = u128_to_le_bytes(*uuid);
                out.append(&mut b);
            },
            ServerMessage::Disconnect => {
                push_u32_le(&mut out, 5);
            },
        }
        proof {
            assert(out@ =~= spec_encode_server(self@));
        }
        Ok(out)
    }

    /// Decodes one payload; fails unless it is exactly one message.
    pub fn deserialize(bytes: &[u8]) -> (r: Result<ServerMessage, Error>)
        ensures
            match spec_decode_server(bytes@) {
                Some(v) => r matches Ok(m) && m@ == v && m.wf(),
                None => r is Err,
            },
    {
        if bytes.len() < 4 {
            return Err(Error::Malformed);
        }
        let tag = read_u32_le(bytes, 0);
        let n = bytes.len();
        proof {
            assert(bytes@.skip(4).len() == n - 4);
            assert forall|a: int, b2: int| 4 <= a <= b2 <= n implies #[trigger] bytes@.subrange(
                a,
                b2,
            ) =~= bytes@.skip(4).subrange(a - 4, b2 - 4) by {}
        }
        if tag == 0 {
            if n == 12 {
                Ok(ServerMessage::Pong { data: read_i64_le(bytes, 4) })
            } else {
                Err(Error::Malformed)
            }
        } else if tag == 1 {
            if n == 4 + 16 + 65536 {
                proof {
                    assert(bytes@.subrange(20, 65556) =~= bytes@.skip(4).skip(16));
                }
                match read_chunk(bytes, 20) {
                    Ok(chunk) => Ok(
                        ServerMessage::LoadChunk {
                            cx: read_i64_le(bytes, 4),
                            cz: read_i64_le(bytes, 12),
                            chunk,
                        },
                    ),
                    Err(e) => Err(e),
                }
            } else {
                Err(Error::Malformed)
            }
        } else if tag == 2 {
            if n == 20 {
                Ok(
                    ServerMessage::UnloadChunk {
                        cx: read_i64_le(bytes, 4),
                        cz: read_i64_le(bytes, 12),
                    },
                )
            } else {
                Err(Error::Malformed)
            }
        } else if tag == 3 {
            if n == 29 {
                let byte = *vstd::slice::slice_index_get(bytes, 28);
                proof {
                    assert(bytes@.skip(4)[24] == bytes@[28]);
                }
                if byte >= 2 {
                    return Err(Error::Malformed);
                }
                let block = if byte == 0 {
                    BlockId::Empty
                } else {
                    BlockId::Grass
                };
                Ok(
                    ServerMessage::UpdateBlock {
                        x: read_i64_le(bytes, 4),
                        y: read_i64_le(bytes, 12),
                        z: read_i64_le(bytes, 20),
                        block,
                    },
                )
            } else {
                Err(Error::Malformed)
            }
        } else if tag == 4 {
            if n == 20 {
                let uuid = u128_from_le_bytes(slice_subrange(bytes, 4, 20));
                Ok(ServerMessage::SetClientInfo { uuid })
            } else {
                Err(Error::Malformed)
            }
        } else if tag == 5 {
            if n == 4 {
                Ok(ServerMessage::Disconnect)
            } else {
                Err(Error::Malformed)
            }
        } else {
            Err(Error::Malformed)
        }
    }
}

/// One frame on the stream: a 4-byte little-endian length prefix, then the
/// payload itself.
pub open spec fn spec_frame(payload: Seq<u8>) -> Seq<u8>
    recommends
        payload.len() <= u32::MAX,
{
    spec_u32_to_le_bytes(payload.len() as u32) + payload
}

/// The frame starting at `start` in a byte stream: its payload and the
/// position just past it, when the stream holds a complete frame there.
pub open spec fn spec_decode_frame(b: Seq<u8>, start: int) -> Option<(Seq<u8>, int)>
    recommends
        0 <= start <= b.len(),
{
    if start + 4 <= b.len() {
        let m = spec_u32_from_le_bytes(b.subrange(start, start + 4)) as int;
        if start + 4 + m <= b.len() {
            Some((b.subrange(start + 4, start + 4 + m), start + 4 + m))
        } else {
            None
        }
    } else {
        None
    }
}

/// Prefixes the payload with its 4-byte little-endian length.
pub fn encode_frame(payload: &Vec<u8>) -> (r: Vec<u8>)
    requires
        payload@.len() <= u32::MAX,
    ensures
        r@ == spec_frame(payload@),
{
    let mut out = u32_to_le_bytes(payload.len() as u32);
    out.extend_from_slice(payload.as_slice());
    proof {
        assert(out@ =~= spec_frame(payload@));
    }
    out
}

/// Extracts the frame starting at `start`, if `buf` holds a complete one.
pub fn decode_frame(buf: &Vec<u8>, start: usize) -> (r: Option<(Vec<u8>, usize)>)
    requires
        start <= buf@.len(),
    ensures
        match spec_decode_frame(buf@, start as int) {
            Some(pn) => r matches Some(got) && got.0@ == pn.0 && got.1 as int == pn.1,
            None => r is None,
        },
{
    let n = buf.len();
    if start > n || n - start < 4 {
        return None;
    }
    let m = read_u32_le(buf.as_slice(), start) as usize;
    if m > n - start - 4 {
        return None;
    }
    let payload = slice_to_vec(slice_subrange(buf.as_slice(), start + 4, start + 4 + m));
    Some((payload, start + 4 + m))
}

/// A framed payload at the head of a stream decodes back to that payload,
/// whatever bytes follow it.
pub proof fn lemma_frame_round_trip(payload: Seq<u8>, rest: Seq<u8>)
    requires
        payload.len() <= u32::MAX,
    ensures
        spec_decode_frame(spec_frame(payload) + rest, 0) == Some(
            (payload, 4 + payload.len() as int),
        ),
{
    lemma_auto_spec_u32_to_from_le_bytes();
    let b = spec_frame(payload) + rest;
    assert(b.subrange(0, 4) =~= spec_u32_to_le_bytes(payload.len() as u32));
    assert(b.subrange(4, 4 + payload.len() as int) =~= payload);
}


} // verus!
