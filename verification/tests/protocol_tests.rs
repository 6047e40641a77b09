use blockworld::chunk::{BlockId, Chunk};
use blockworld::protocol::{decode_frame, encode_frame, ClientMessage, ServerMessage};

fn client_round_trip(m: ClientMessage) {
    let bytes = m.serialize().unwrap();
    let back = ClientMessage::deserialize(bytes.as_slice()).unwrap();
    assert_eq!(back, m);
}

fn server_round_trip(m: ServerMessage) {
    let bytes = m.serialize().unwrap();
    let back = ServerMessage::deserialize(bytes.as_slice()).unwrap();
    assert_eq!(back, m);
}

#[test]
fn test_client_message_round_trips() {
    client_round_trip(ClientMessage::Ping);
    client_round_trip(ClientMessage::Login);
    client_round_trip(ClientMessage::SetPlayerPos {
        eye: (1.0f32.to_bits(), 2.0f32.to_bits(), 3.0f32.to_bits()),
        pitch: 0.1f32.to_bits(),
        yaw: 0.2f32.to_bits(),
    });
    client_round_trip(ClientMessage::DestroyBlock { x: -5, y: 0, z: i64::MAX });
    client_round_trip(ClientMessage::PlaceBlock { x: i64::MIN, y: 255, z: 42 });
}

#[test]
fn test_server_message_round_trips() {
    server_round_trip(ServerMessage::Pong { data: -77 });
    let mut chunk = Chunk::new();
    chunk.set((1, 2, 3), BlockId::Grass);
    chunk.set((15, 255, 15), BlockId::Grass);
    server_round_trip(ServerMessage::LoadChunk { cx: -3, cz: 2, chunk });
    server_round_trip(ServerMessage::UnloadChunk { cx: 9, cz: -9 });
    server_round_trip(ServerMessage::UpdateBlock { x: 1, y: 2, z: 3, block: BlockId::Grass });
    server_round_trip(ServerMessage::UpdateBlock { x: -1, y: 0, z: -3, block: BlockId::Empty });
    server_round_trip(ServerMessage::SetClientInfo { uuid: 0x0123_4567_89ab_cdef_fedc_ba98_7654_3210 });
    server_round_trip(ServerMessage::Disconnect);
}

#[test]
fn test_client_ping_wire_bytes() {
    // tag 0 as 4 little-endian bytes, nothing else
    let bytes = ClientMessage::Ping.serialize().unwrap();
    assert_eq!(bytes, vec![0, 0, 0, 0]);
    let login = ClientMessage::Login.serialize().unwrap();
    assert_eq!(login, vec![1, 0, 0, 0]);
}

#[test]
fn test_set_client_info_wire_bytes() {
    // tag 4, then the session id as 16 little-endian bytes
    let bytes = ServerMessage::SetClientInfo { uuid: 0x0201 }.serialize().unwrap();
    let mut expected = vec![4u8, 0, 0, 0, 1, 2];
    expected.extend_from_slice(&[0u8; 14]);
    assert_eq!(bytes, expected);
}

#[test]
fn test_decode_rejects_malformed() {
    // empty, short, unknown tag, wrong length, trailing bytes
    assert!(ClientMessage::deserialize(&[]).is_err());
    assert!(ClientMessage::deserialize(&[0, 0]).is_err());
    assert!(ClientMessage::deserialize(&[99, 0, 0, 0]).is_err());
    assert!(ClientMessage::deserialize(&[2, 0, 0, 0, 1, 2]).is_err());
    assert!(ClientMessage::deserialize(&[0, 0, 0, 0, 7]).is_err());
    assert!(ServerMessage::deserialize(&[]).is_err());
    assert!(ServerMessage::deserialize(&[42, 0, 0, 0]).is_err());
    assert!(ServerMessage::deserialize(&[5, 0, 0, 0, 1]).is_err());
}

#[test]
fn test_decode_rejects_bad_block_byte() {
    // an UpdateBlock whose block byte is not a known tag
    let good = ServerMessage::UpdateBlock { x: 0, y: 0, z: 0, block: BlockId::Grass }
        .serialize()
        .unwrap();
    let mut bad = good.clone();
    let last = bad.len() - 1;
    bad[last] = 2;
    assert!(ServerMessage::deserialize(good.as_slice()).is_ok());
    assert!(ServerMessage::deserialize(bad.as_slice()).is_err());
}

#[test]
fn test_decode_rejects_bad_chunk_byte() {
    let good = ServerMessage::LoadChunk { cx: 0, cz: 0, chunk: Chunk::new() }
        .serialize()
        .unwrap();
    let mut bad = good.clone();
    let last = bad.len() - 1;
    bad[last] = 3;
    assert!(ServerMessage::deserialize(bad.as_slice()).is_err());
}

#[test]
fn test_frame_round_trip() {
    let payload = ClientMessage::Login.serialize().unwrap();
    let mut stream = encode_frame(&payload);
    // a second frame directly after the first
    let payload2 = ClientMessage::Ping.serialize().unwrap();
    stream.extend_from_slice(encode_frame(&payload2).as_slice());
    let (got1, next) = decode_frame(&stream, 0).unwrap();
    assert_eq!(got1, payload);
    let (got2, end) = decode_frame(&stream, next).unwrap();
    assert_eq!(got2, payload2);
    assert_eq!(end, stream.len());
}

#[test]
fn test_frame_incomplete() {
    // a truncated length prefix, then a truncated payload
    let stream: Vec<u8> = vec![9, 0];
    assert!(decode_frame(&stream, 0).is_none());
    let stream2: Vec<u8> = vec![9, 0, 0, 0, 1, 2, 3];
    assert!(decode_frame(&stream2, 0).is_none());
}

#[test]
fn test_load_chunk_frame_end_to_end() {
    // frame a LoadChunk, unframe it, decode it, and read the block back
    let mut chunk = Chunk::new();
    chunk.set((4, 17, 9), BlockId::Grass);
    let msg = ServerMessage::LoadChunk { cx: 1, cz: -1, chunk };
    let payload = msg.serialize().unwrap();
    let stream = encode_frame(&payload);
    let (got, _) = decode_frame(&stream, 0).unwrap();
    match ServerMessage::deserialize(got.as_slice()).unwrap() {
        ServerMessage::LoadChunk { cx, cz, chunk } => {
            assert_eq!((cx, cz), (1, -1));
            assert_eq!(chunk.get((4, 17, 9)), BlockId::Grass);
            assert_eq!(chunk.get((4, 18, 9)), BlockId::Empty);
        },
        _ => panic!("decoded to a different variant"),
    }
}
