use blockworld::chunk::Chunk;
use blockworld::client::apply_server_message;
use blockworld::chunk::BlockId;
use blockworld::directory::{ChunkCollection, MaybeLoadedBlock};
use blockworld::protocol::{ClientMessage, ServerMessage};
use blockworld::server::{
    handle_inbound_message, send_new_chunks, should_pong, Clients, HandleInboundMessageError,
    InboundMessage, OutboundMessageDestination,
};

#[test]
fn test_login_then_set_player_pos() {
    // Login authenticates and provokes exactly one SetClientInfo; the pose
    // that follows is recorded bit for bit.
    let mut clients = Clients::new();
    let uuid: u128 = 7;
    handle_inbound_message(&mut clients, InboundMessage::AddClient { uuid }).unwrap();
    let replies = handle_inbound_message(
        &mut clients,
        InboundMessage::Message { uuid, client_msg: ClientMessage::Login },
    )
    .unwrap();
    assert_eq!(replies.len(), 1);
    assert_eq!(replies[0].dest, OutboundMessageDestination::Client(uuid));
    match replies[0].server_msg {
        ServerMessage::SetClientInfo { uuid: u } => assert_eq!(u, uuid),
        _ => panic!("expected SetClientInfo"),
    }
    let eye = (1.0f32.to_bits(), 2.0f32.to_bits(), 3.0f32.to_bits());
    let pitch = 0.1f32.to_bits();
    let yaw = 0.2f32.to_bits();
    let replies2 = handle_inbound_message(
        &mut clients,
        InboundMessage::Message {
            uuid,
            client_msg: ClientMessage::SetPlayerPos { eye, pitch, yaw },
        },
    )
    .unwrap();
    assert_eq!(replies2.len(), 0);
    let c = clients.get_client(uuid).unwrap();
    assert!(c.logined);
    assert_eq!(c.player_pos.eye, eye);
    assert_eq!(c.player_pos.pitch, pitch);
    assert_eq!(c.player_pos.yaw, yaw);
}

#[test]
fn test_session_errors() {
    let mut clients = Clients::new();
    let uuid: u128 = 1;
    assert!(handle_inbound_message(&mut clients, InboundMessage::AddClient { uuid }).is_ok());
    assert!(matches!(
        handle_inbound_message(&mut clients, InboundMessage::AddClient { uuid }),
        Err(HandleInboundMessageError::RepeatedClient)
    ));
    assert!(matches!(
        handle_inbound_message(&mut clients, InboundMessage::RemoveClient { uuid: 2 }),
        Err(HandleInboundMessageError::MissingClient)
    ));
    assert!(matches!(
        handle_inbound_message(
            &mut clients,
            InboundMessage::Message { uuid: 2, client_msg: ClientMessage::Login },
        ),
        Err(HandleInboundMessageError::MissingClient)
    ));
    assert!(handle_inbound_message(&mut clients, InboundMessage::RemoveClient { uuid }).is_ok());
    assert!(matches!(
        handle_inbound_message(&mut clients, InboundMessage::RemoveClient { uuid }),
        Err(HandleInboundMessageError::MissingClient)
    ));
}

#[test]
fn test_unhandled_messages_are_dropped() {
    let mut clients = Clients::new();
    // a Ping for an unknown session is accepted and dropped
    let r = handle_inbound_message(
        &mut clients,
        InboundMessage::Message { uuid: 9, client_msg: ClientMessage::Ping },
    )
    .unwrap();
    assert_eq!(r.len(), 0);
    let r2 = handle_inbound_message(
        &mut clients,
        InboundMessage::Message { uuid: 9, client_msg: ClientMessage::DestroyBlock { x: 0, y: 0, z: 0 } },
    )
    .unwrap();
    assert_eq!(r2.len(), 0);
}

#[test]
fn test_fanout_49_chunks_once() {
    // a 7x7 world; a newly authenticated client receives exactly 49
    // LoadChunk messages, and never a second copy on later ticks
    let mut world = ChunkCollection::new();
    for cx in -3..=3i64 {
        for cz in -3..=3i64 {
            world.load_chunk((cx, cz), Chunk::new());
        }
    }
    let mut clients = Clients::new();
    let uuid: u128 = 42;
    handle_inbound_message(&mut clients, InboundMessage::AddClient { uuid }).unwrap();
    // not authenticated yet: nothing is sent
    let none = send_new_chunks(&mut clients, &world);
    assert_eq!(none.len(), 0);
    handle_inbound_message(
        &mut clients,
        InboundMessage::Message { uuid, client_msg: ClientMessage::Login },
    )
    .unwrap();
    let sent = send_new_chunks(&mut clients, &world);
    assert_eq!(sent.len(), 49);
    for m in sent.iter() {
        assert_eq!(m.dest, OutboundMessageDestination::Client(uuid));
        match &m.server_msg {
            ServerMessage::LoadChunk { cx, cz, .. } => {
                assert!((-3..=3).contains(cx) && (-3..=3).contains(cz));
            },
            _ => panic!("expected LoadChunk"),
        }
    }
    // each coordinate at most once
    for cx in -3..=3i64 {
        for cz in -3..=3i64 {
            let n = sent
                .iter()
                .filter(|m| match &m.server_msg {
                    ServerMessage::LoadChunk { cx: a, cz: b, .. } => (*a, *b) == (cx, cz),
                    _ => false,
                })
                .count();
            assert_eq!(n, 1);
        }
    }
    // later ticks re-send nothing, even across several ticks
    let again = send_new_chunks(&mut clients, &world);
    assert_eq!(again.len(), 0);
    let again2 = send_new_chunks(&mut clients, &world);
    assert_eq!(again2.len(), 0);
}

#[test]
fn test_fanout_only_new_chunks() {
    let mut world = ChunkCollection::new();
    world.load_chunk((0, 0), Chunk::new());
    let mut clients = Clients::new();
    let uuid: u128 = 5;
    handle_inbound_message(&mut clients, InboundMessage::AddClient { uuid }).unwrap();
    handle_inbound_message(
        &mut clients,
        InboundMessage::Message { uuid, client_msg: ClientMessage::Login },
    )
    .unwrap();
    assert_eq!(send_new_chunks(&mut clients, &world).len(), 1);
    // one more chunk appears: only that one is sent
    world.load_chunk((1, 0), Chunk::new());
    let sent = send_new_chunks(&mut clients, &world);
    assert_eq!(sent.len(), 1);
    match &sent[0].server_msg {
        ServerMessage::LoadChunk { cx, cz, .. } => assert_eq!((*cx, *cz), (1, 0)),
        _ => panic!("expected LoadChunk"),
    }
}

#[test]
fn test_should_pong_cadence() {
    assert!(should_pong(0));
    assert!(!should_pong(1));
    assert!(!should_pong(19));
    assert!(should_pong(20));
    assert!(should_pong(40));
    assert!(!should_pong(21));
}

#[test]
fn test_apply_server_message() {
    let mut cc = ChunkCollection::new();
    let mut chunk = Chunk::new();
    chunk.set((0, 0, 0), BlockId::Grass);
    apply_server_message(&mut cc, ServerMessage::LoadChunk { cx: 0, cz: 0, chunk });
    assert_eq!(cc.get_block((0, 0, 0)), MaybeLoadedBlock::Loaded(BlockId::Grass));
    apply_server_message(
        &mut cc,
        ServerMessage::UpdateBlock { x: 1, y: 1, z: 1, block: BlockId::Grass },
    );
    assert_eq!(cc.get_block((1, 1, 1)), MaybeLoadedBlock::Loaded(BlockId::Grass));
    // messages without world data change nothing
    apply_server_message(&mut cc, ServerMessage::Pong { data: 3 });
    apply_server_message(&mut cc, ServerMessage::SetClientInfo { uuid: 1 });
    apply_server_message(&mut cc, ServerMessage::Disconnect);
    assert_eq!(cc.get_block((1, 1, 1)), MaybeLoadedBlock::Loaded(BlockId::Grass));
    apply_server_message(&mut cc, ServerMessage::UnloadChunk { cx: 0, cz: 0 });
    assert_eq!(cc.get_block((0, 0, 0)), MaybeLoadedBlock::Unloaded);
}
